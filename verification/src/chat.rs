//! Data shapes for a chat-completion exchange: the outbound message and
//! the pieces of the service's reply. The transport itself is an outside
//! concern; this module only holds the records and the one piece of logic
//! applied to a reply, picking the first choice's text.

use vstd::prelude::*;

verus! {

/// One outbound chat message.
#[derive(Clone, Debug)]
pub struct Message {
    pub role: String,
    pub content: String,
    pub receiver: String,
    pub timestamp: String,
}

/// The message inside one reply choice.
#[derive(Debug)]
pub struct APIMessage {
    pub content: String,
}

/// One choice of a reply.
#[derive(Debug)]
pub struct APIChoice {
    pub message: APIMessage,
}

/// A whole reply: a list of choices.
#[derive(Debug)]
pub struct APIResponse {
    pub choices: Vec<APIChoice>,
}

impl APIResponse {
    /// The text of the first choice, or `None` on a reply with no choices.
    pub fn first_choice_content(&self) -> (r: Option<&String>)
        ensures
            match r {
                Some(c) => self.choices@.len() > 0 && c@ == self.choices@[0].message.content@,
                None => self.choices@.len() == 0,
            },
    {
        if self.choices.len() > 0 {
            Some(&self.choices[0].message.content)
        } else {
            None
        }
    }
}

} // verus!
