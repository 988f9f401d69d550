//! The snapshot codec: the whole store is written as one text document and
//! read back. The parser is proved to be an exact inverse of the writer, so
//! a saved snapshot always reloads to a contents-equal store.
//!
//! Layout: every number is a fixed 20-digit decimal numeral, every string is
//! its length followed by its characters, and a boolean is one character.
//! The document is the task count, the task records (key, id, completion
//! flag, name), the user count, then the user records (key, id, name,
//! password).

use vstd::prelude::*;

use crate::digits::{lemma_pow10_20, pad, parse_num, push_pad, seq_at};
use crate::store::{
    tasks_view, unique_keys, users_view, Store, StoreView, Task, TaskEntry, TaskView, User,
    UserEntry, UserView,
};

verus! {

/// Relies on `String::push`: appends the given character to the end of the
/// string.
pub assume_specification[ String::push ](s: &mut String, c: char)
    ensures
        final(s)@ == old(s)@.push(c),
;

/// A number as a 20-digit numeral.
pub open spec fn enc_num(n: nat) -> Seq<char> {
    pad(n, 20)
}

/// A string as its length numeral followed by its characters.
pub open spec fn enc_str(t: Seq<char>) -> Seq<char> {
    enc_num(t.len()) + t
}

/// A boolean as one character.
pub open spec fn enc_bool(b: bool) -> Seq<char> {
    seq![if b { '1' } else { '0' }]
}

/// One task record: key, id, completion flag, name.
pub open spec fn enc_task(k: u64, t: TaskView) -> Seq<char> {
    enc_num(k as nat) + enc_num(t.id as nat) + enc_bool(t.complete) + enc_str(t.name)
}

/// The task records in collection order.
pub open spec fn enc_tasks(s: Seq<(u64, TaskView)>) -> Seq<char>
    decreases s.len(),
{
    if s.len() == 0 {
        Seq::empty()
    } else {
        enc_tasks(s.drop_last()) + enc_task(s.last().0, s.last().1)
    }
}

/// One user record: key, id, name, password.
pub open spec fn enc_user(k: u64, u: UserView) -> Seq<char> {
    enc_num(k as nat) + enc_num(u.id as nat) + enc_str(u.name) + enc_str(u.password)
}

/// The user records in collection order.
pub open spec fn enc_users(s: Seq<(u64, UserView)>) -> Seq<char>
    decreases s.len(),
{
    if s.len() == 0 {
        Seq::empty()
    } else {
        enc_users(s.drop_last()) + enc_user(s.last().0, s.last().1)
    }
}

/// The whole document for a store value.
pub open spec fn snapshot_enc(v: StoreView) -> Seq<char> {
    enc_num(v.tasks.len()) + enc_tasks(v.tasks) + enc_num(v.users.len()) + enc_users(v.users)
}

/// Every count and string of the view fits the numeral width; true of the
/// view of every store that exists in memory.
pub open spec fn view_bounded(v: StoreView) -> bool {
    &&& v.tasks.len() <= u64::MAX
    &&& v.users.len() <= u64::MAX
    &&& forall|i: int| 0 <= i < v.tasks.len() ==> (#[trigger] v.tasks[i]).1.name.len() <= u64::MAX
    &&& forall|i: int|
        0 <= i < v.users.len() ==> (#[trigger] v.users[i]).1.name.len() <= u64::MAX
            && v.users[i].1.password.len() <= u64::MAX
}

/// The characters of a string slice as a vector.
pub fn str_to_chars(s: &str) -> (r: Vec<char>)
    ensures
        r@ == s@,
{
    let l = s.unicode_len();
    let mut r: Vec<char> = Vec::new();
    let mut i: usize = 0;
    while i < l
        invariant
            l == s@.len(),
            i <= l,
            r@ == s@.take(i as int),
        decreases l - i,
    {
        r.push(s.get_char(i));
        proof {
            assert(s@.take(i + 1) =~= s@.take(i as int).push(s@[i as int]));
        }
        i = i + 1;
    }
    proof {
        assert(s@.take(l as int) =~= s@);
    }
    r
}

/// The characters of a vector as a string.
pub fn chars_to_string(v: &Vec<char>) -> (r: String)
    ensures
        r@ == v@,
{
    let mut r = String::new();
    let mut i: usize = 0;
    while i < v.len()
        invariant
            i <= v@.len(),
            r@ == v@.take(i as int),
        decreases v@.len() - i,
    {
        r.push(v[i]);
        proof {
            assert(v@.take(i + 1) =~= v@.take(i as int).push(v@[i as int]));
        }
        i = i + 1;
    }
    proof {
        assert(v@.take(v@.len() as int) =~= v@);
    }
    r
}

/// Appends a string's encoding: its length numeral, then its characters.
fn push_str_enc(out: &mut Vec<char>, s: &String)
    ensures
        final(out)@ == old(out)@ + enc_str(s@),
        s@.len() <= u64::MAX,
{
    let l = s.as_str().unicode_len();
    proof {
        lemma_pow10_20();
    }
    push_pad(out, l as u64, 20);
    let ghost base = out@;
    let mut i: usize = 0;
    while i < l
        invariant
            l == s@.len(),
            i <= l,
            out@ == base + s@.take(i as int),
        decreases l - i,
    {
        out.push(s.as_str().get_char(i));
        proof {
            assert(s@.take(i + 1) =~= s@.take(i as int).push(s@[i as int]));
        }
        i = i + 1;
    }
    proof {
        assert(s@.take(l as int) =~= s@);
        assert(final(out)@ =~= old(out)@ + enc_str(s@));
    }
}

/// Appends one task record's encoding.
fn push_task_enc(out: &mut Vec<char>, e: &TaskEntry)
    ensures
        final(out)@ == old(out)@ + enc_task(e.key, e.task@),
        e.task@.name.len() <= u64::MAX,
{
    push_pad(out, e.key, 20);
    push_pad(out, e.task.id, 20);
    out.push(if e.task.complete {
        '1'
    } else {
        '0'
    });
    push_str_enc(out, &e.task.name);
    proof {
        assert(final(out)@ =~= old(out)@ + enc_task(e.key, e.task@));
    }
}

/// Appends one user record's encoding.
fn push_user_enc(out: &mut Vec<char>, e: &UserEntry)
    ensures
        final(out)@ == old(out)@ + enc_user(e.key, e.user@),
        e.user@.name.len() <= u64::MAX,
        e.user@.password.len() <= u64::MAX,
{
    push_pad(out, e.key, 20);
    push_pad(out, e.user.id, 20);
    push_str_enc(out, &e.user.name);
    push_str_enc(out, &e.user.password);
    proof {
        assert(final(out)@ =~= old(out)@ + enc_user(e.key, e.user@));
    }
}

impl Store {
    /// Serializes the whole store to its snapshot document.
    pub fn to_snapshot(&self) -> (r: String)
        ensures
            r@ == snapshot_enc(self@),
            view_bounded(self@),
    {
        let mut out: Vec<char> = Vec::new();
        proof {
            lemma_pow10_20();
        }
        push_pad(&mut out, self.tasks.len() as u64, 20);
        let ghost base_t = out@;
        let mut i: usize = 0;
        while i < self.tasks.len()
            invariant
                i <= self@.tasks.len(),
                self@.tasks.len() == self.tasks@.len(),
                out@ == base_t + enc_tasks(self@.tasks.take(i as int)),
                forall|j: int|
                    0 <= j < i ==> (#[trigger] self@.tasks[j]).1.name.len() <= u64::MAX,
            decreases self@.tasks.len() - i,
        {
            push_task_enc(&mut out, &self.tasks[i]);
            proof {
                assert(self@.tasks.take(i + 1).drop_last() =~= self@.tasks.take(i as int));
                assert(self@.tasks[i as int] == (self.tasks@[i as int].key,
                self.tasks@[i as int].task@));
                assert(out@ =~= base_t + enc_tasks(self@.tasks.take(i + 1)));
            }
            i = i + 1;
        }
        proof {
            assert(self@.tasks.take(self@.tasks.len() as int) =~= self@.tasks);
        }
        push_pad(&mut out, self.users.len() as u64, 20);
        let ghost base_u = out@;
        let mut i: usize = 0;
        while i < self.users.len()
            invariant
                i <= self@.users.len(),
                self@.users.len() == self.users@.len(),
                out@ == base_u + enc_users(self@.users.take(i as int)),
                forall|j: int|
                    0 <= j < i ==> (#[trigger] self@.users[j]).1.name.len() <= u64::MAX
                        && self@.users[j].1.password.len() <= u64::MAX,
            decreases self@.users.len() - i,
        {
            push_user_enc(&mut out, &self.users[i]);
            proof {
                assert(self@.users.take(i + 1).drop_last() =~= self@.users.take(i as int));
                assert(self@.users[i as int] == (self.users@[i as int].key,
                self.users@[i as int].user@));
                assert(out@ =~= base_u + enc_users(self@.users.take(i + 1)));
            }
            i = i + 1;
        }
        proof {
            assert(self@.users.take(self@.users.len() as int) =~= self@.users);
            assert(out@ =~= snapshot_enc(self@));
        }
        chars_to_string(&out)
    }
}

// ---------------------------------------------------------------------
// Parsing. Each parser carries two guarantees: what it accepted is the
// exact encoding of what it returned (soundness), and on input that is an
// encoding it succeeds with exactly the encoded value (completeness).
// ---------------------------------------------------------------------
/// A snapshot document that is not the encoding of any store.
#[derive(Debug)]
pub struct ParseError;

/// Splitting an occurrence of a concatenation.
pub proof fn lemma_seq_at_concat(s: Seq<char>, i: int, a: Seq<char>, b: Seq<char>)
    requires
        seq_at(s, i, a + b),
    ensures
        seq_at(s, i, a),
        seq_at(s, i + a.len(), b),
{
    let ab = a + b;
    assert forall|x: int| 0 <= x < a.len() implies s.subrange(i, i + a.len())[x] == a[x] by {
        assert(s.subrange(i, i + ab.len())[x] == ab[x]);
    }
    assert(s.subrange(i, i + a.len()) =~= a);
    assert forall|x: int| 0 <= x < b.len() implies s.subrange(
        i + a.len(),
        i + a.len() + b.len(),
    )[x] == b[x] by {
        assert(s.subrange(i, i + ab.len())[x + a.len()] == ab[x + a.len()]);
        assert(ab[x + a.len()] == b[x]);
    }
    assert(s.subrange(i + a.len(), i + a.len() + b.len()) =~= b);
}

/// A range is the concatenation of its two halves.
proof fn lemma_subrange_join(s: Seq<char>, a: int, b: int, c: int)
    requires
        0 <= a <= b <= c <= s.len(),
    ensures
        s.subrange(a, c) == s.subrange(a, b) + s.subrange(b, c),
{
    assert(s.subrange(a, c) =~= s.subrange(a, b) + s.subrange(b, c));
}

/// The task records from position `m` on.
pub open spec fn enc_tasks_from(vs: Seq<(u64, TaskView)>, m: int) -> Seq<char>
    decreases vs.len() - m,
{
    if 0 <= m < vs.len() {
        enc_task(vs[m].0, vs[m].1) + enc_tasks_from(vs, m + 1)
    } else {
        Seq::empty()
    }
}

/// The user records from position `m` on.
pub open spec fn enc_users_from(vs: Seq<(u64, UserView)>, m: int) -> Seq<char>
    decreases vs.len() - m,
{
    if 0 <= m < vs.len() {
        enc_user(vs[m].0, vs[m].1) + enc_users_from(vs, m + 1)
    } else {
        Seq::empty()
    }
}

/// The record encoding splits at any record boundary.
pub proof fn lemma_enc_tasks_decompose(vs: Seq<(u64, TaskView)>, m: int)
    requires
        0 <= m <= vs.len(),
    ensures
        enc_tasks(vs) == enc_tasks(vs.take(m)) + enc_tasks_from(vs, m),
    decreases vs.len() - m,
{
    if m == vs.len() {
        assert(vs.take(m) =~= vs);
        assert(enc_tasks(vs) =~= enc_tasks(vs.take(m)) + enc_tasks_from(vs, m));
    } else {
        lemma_enc_tasks_decompose(vs, m + 1);
        assert(vs.take(m + 1).drop_last() =~= vs.take(m));
        assert(vs.take(m + 1).last() == vs[m]);
        assert(enc_tasks(vs) =~= enc_tasks(vs.take(m)) + enc_tasks_from(vs, m));
    }
}

/// The record encoding splits at any record boundary.
pub proof fn lemma_enc_users_decompose(vs: Seq<(u64, UserView)>, m: int)
    requires
        0 <= m <= vs.len(),
    ensures
        enc_users(vs) == enc_users(vs.take(m)) + enc_users_from(vs, m),
    decreases vs.len() - m,
{
    if m == vs.len() {
        assert(vs.take(m) =~= vs);
        assert(enc_users(vs) =~= enc_users(vs.take(m)) + enc_users_from(vs, m));
    } else {
        lemma_enc_users_decompose(vs, m + 1);
        assert(vs.take(m + 1).drop_last() =~= vs.take(m));
        assert(vs.take(m + 1).last() == vs[m]);
        assert(enc_users(vs) =~= enc_users(vs.take(m)) + enc_users_from(vs, m));
    }
}

/// A string encoding, of a string that fits the width, occurs at `i`.
pub open spec fn str_hyp(s: Seq<char>, i: int, t: Seq<char>) -> bool {
    t.len() <= u64::MAX && seq_at(s, i, enc_str(t))
}

/// A task record encoding occurs at `i`.
pub open spec fn task_hyp(s: Seq<char>, i: int, k: u64, tv: TaskView) -> bool {
    tv.name.len() <= u64::MAX && seq_at(s, i, enc_task(k, tv))
}

/// A user record encoding occurs at `i`.
pub open spec fn user_hyp(s: Seq<char>, i: int, k: u64, uv: UserView) -> bool {
    uv.name.len() <= u64::MAX && uv.password.len() <= u64::MAX && seq_at(s, i, enc_user(k, uv))
}

/// A `count`-record task table encoding, uniquely keyed and of bounded
/// strings, occurs at `i`.
pub open spec fn tasks_hyp(s: Seq<char>, i: int, count: u64, vs: Seq<(u64, TaskView)>) -> bool {
    &&& vs.len() == count
    &&& unique_keys(vs)
    &&& (forall|j: int| 0 <= j < vs.len() ==> (#[trigger] vs[j]).1.name.len() <= u64::MAX)
    &&& seq_at(s, i, enc_tasks(vs))
}

/// A `count`-record user table encoding, uniquely keyed and of bounded
/// strings, occurs at `i`.
pub open spec fn users_hyp(s: Seq<char>, i: int, count: u64, vs: Seq<(u64, UserView)>) -> bool {
    &&& vs.len() == count
    &&& unique_keys(vs)
    &&& (forall|j: int|
        0 <= j < vs.len() ==> (#[trigger] vs[j]).1.name.len() <= u64::MAX
            && vs[j].1.password.len() <= u64::MAX)
    &&& seq_at(s, i, enc_users(vs))
}

/// What a task record occurrence pins down about its four fields.
proof fn lemma_task_hyp_parts(s: Seq<char>, i: int, k: u64, tv: TaskView)
    requires
        task_hyp(s, i, k, tv),
    ensures
        seq_at(s, i, pad(k as nat, 20)),
        seq_at(s, i + 20, pad(tv.id as nat, 20)),
        seq_at(s, i + 40, enc_bool(tv.complete)),
        str_hyp(s, i + 41, tv.name),
{
    broadcast use crate::digits::lemma_pad_len;

    let a = enc_num(k as nat);
    let b = enc_num(tv.id as nat);
    let c = enc_bool(tv.complete);
    let d = enc_str(tv.name);
    assert(enc_task(k, tv) =~= a + (b + (c + d)));
    lemma_seq_at_concat(s, i, a, b + (c + d));
    lemma_seq_at_concat(s, i + 20, b, c + d);
    lemma_seq_at_concat(s, i + 40, c, d);
}

/// What a user record occurrence pins down about its four fields.
proof fn lemma_user_hyp_parts(s: Seq<char>, i: int, k: u64, uv: UserView)
    requires
        user_hyp(s, i, k, uv),
    ensures
        seq_at(s, i, pad(k as nat, 20)),
        seq_at(s, i + 20, pad(uv.id as nat, 20)),
        str_hyp(s, i + 40, uv.name),
        str_hyp(s, i + 60 + uv.name.len(), uv.password),
{
    broadcast use crate::digits::lemma_pad_len;

    let a = enc_num(k as nat);
    let b = enc_num(uv.id as nat);
    let c = enc_str(uv.name);
    let d = enc_str(uv.password);
    assert(enc_user(k, uv) =~= a + (b + (c + d)));
    lemma_seq_at_concat(s, i, a, b + (c + d));
    lemma_seq_at_concat(s, i + 20, b, c + d);
    lemma_seq_at_concat(s, i + 40, c, d);
}

/// Reads a length-prefixed string at `i`.
fn parse_str(s: &Vec<char>, i: usize) -> (r: Result<(String, usize), ParseError>)
    requires
        i <= s@.len(),
    ensures
        r matches Ok(p) ==> i <= p.1 <= s@.len() && s@.subrange(i as int, p.1 as int) == enc_str(
            p.0@,
        ) && p.0@.len() <= u64::MAX,
        forall|t: Seq<char>| #[trigger]
            str_hyp(s@, i as int, t) ==> r is Ok && (r->Ok_0).0@ == t && (r->Ok_0).1 == i + 20
                + t.len(),
{
    broadcast use crate::digits::lemma_pad_len;

    proof {
        lemma_pow10_20();
    }
    match parse_num(s, i, 20) {
        None => {
            proof {
                assert forall|t: Seq<char>| #[trigger] str_hyp(s@, i as int, t) implies false by {
                    lemma_seq_at_concat(s@, i as int, enc_num(t.len()), t);
                    let nn = t.len() as u64;
                    assert(seq_at(s@, i as int, pad(nn as nat, 20)));
                }
            }
            Err(ParseError)
        },
        Some((l, j1)) => {
            let rem = s.len() - j1;
            if l > rem as u64 {
                proof {
                    assert forall|t: Seq<char>| #[trigger]
                        str_hyp(s@, i as int, t) implies false by {
                        lemma_seq_at_concat(s@, i as int, enc_num(t.len()), t);
                        let nn = t.len() as u64;
                        assert(seq_at(s@, i as int, pad(nn as nat, 20)));
                        assert(l == nn);
                    }
                }
                return Err(ParseError);
            }
            let lu = l as usize;
            let j = j1 + lu;
            let mut out = String::new();
            let mut jj: usize = j1;
            proof {
                assert(s@.subrange(j1 as int, j1 as int) =~= Seq::<char>::empty());
            }
            while jj < j
                invariant
                    j1 <= jj <= j,
                    j == j1 + lu <= s@.len(),
                    out@ == s@.subrange(j1 as int, jj as int),
                decreases j - jj,
            {
                out.push(s[jj]);
                proof {
                    assert(s@.subrange(j1 as int, jj + 1) =~= s@.subrange(j1 as int, jj as int).push(
                        s@[jj as int],
                    ));
                }
                jj = jj + 1;
            }
            proof {
                lemma_subrange_join(s@, i as int, j1 as int, j as int);
                assert(out@.len() == l as nat);
                assert(s@.subrange(i as int, j as int) == enc_str(out@));
                assert forall|t: Seq<char>| #[trigger]
                    str_hyp(s@, i as int, t) implies Ok::<(String, usize), ParseError>(
                    (out, j),
                ) is Ok && out@ == t && j == i + 20 + t.len() by {
                    lemma_seq_at_concat(s@, i as int, enc_num(t.len()), t);
                    let nn = t.len() as u64;
                    assert(seq_at(s@, i as int, pad(nn as nat, 20)));
                    assert(l == nn);
                    assert(t =~= s@.subrange(j1 as int, j as int));
                }
            }
            Ok((out, j))
        },
    }
}

/// Reads a one-character boolean at `i`.
fn parse_bool(s: &Vec<char>, i: usize) -> (r: Result<(bool, usize), ParseError>)
    requires
        i <= s@.len(),
    ensures
        r matches Ok(p) ==> p.1 == i + 1 && p.1 <= s@.len() && s@.subrange(i as int, p.1 as int)
            == enc_bool(p.0),
        forall|b: bool|
            #[trigger] seq_at(s@, i as int, enc_bool(b)) ==> r is Ok && (r->Ok_0).0 == b && (
            r->Ok_0).1 == i + 1,
{
    if i < s.len() {
        let c = s[i];
        if c == '1' {
            proof {
                assert(s@.subrange(i as int, i + 1) =~= enc_bool(true));
                assert forall|b: bool| #[trigger]
                    seq_at(s@, i as int, enc_bool(b)) implies b == true by {
                    assert(s@.subrange(i as int, i + 1)[0] == enc_bool(b)[0]);
                }
            }
            Ok((true, i + 1))
        } else if c == '0' {
            proof {
                assert(s@.subrange(i as int, i + 1) =~= enc_bool(false));
                assert forall|b: bool| #[trigger]
                    seq_at(s@, i as int, enc_bool(b)) implies b == false by {
                    assert(s@.subrange(i as int, i + 1)[0] == enc_bool(b)[0]);
                }
            }
            Ok((false, i + 1))
        } else {
            proof {
                assert forall|b: bool| #[trigger]
                    seq_at(s@, i as int, enc_bool(b)) implies false by {
                    assert(s@.subrange(i as int, i + 1)[0] == enc_bool(b)[0]);
                }
            }
            Err(ParseError)
        }
    } else {
        proof {
            assert forall|b: bool| #[trigger] seq_at(s@, i as int, enc_bool(b)) implies false by {}
        }
        Err(ParseError)
    }
}

/// Reads one task record at `i`.
fn parse_task(s: &Vec<char>, i: usize) -> (r: Result<(TaskEntry, usize), ParseError>)
    requires
        i <= s@.len(),
    ensures
        r matches Ok(p) ==> i <= p.1 <= s@.len() && s@.subrange(i as int, p.1 as int) == enc_task(
            p.0.key,
            p.0.task@,
        ),
        forall|k: u64, tv: TaskView| #[trigger]
            task_hyp(s@, i as int, k, tv) ==> r is Ok && (r->Ok_0).0.key == k && (
            r->Ok_0).0.task@ == tv && (r->Ok_0).1 == i + enc_task(k, tv).len(),
{
    broadcast use crate::digits::lemma_pad_len;

    proof {
        lemma_pow10_20();
    }
    let key = match parse_num(s, i, 20) {
        Some(p) => p,
        None => {
            proof {
                assert forall|k: u64, tv: TaskView| #[trigger]
                    task_hyp(s@, i as int, k, tv) implies false by {
                    lemma_task_hyp_parts(s@, i as int, k, tv);
                }
            }
            return Err(ParseError);
        },
    };
    let j1 = key.1;
    let id = match parse_num(s, j1, 20) {
        Some(p) => p,
        None => {
            proof {
                assert forall|k: u64, tv: TaskView| #[trigger]
                    task_hyp(s@, i as int, k, tv) implies false by {
                    lemma_task_hyp_parts(s@, i as int, k, tv);
                    assert(seq_at(s@, j1 as int, pad(tv.id as nat, 20)));
                }
            }
            return Err(ParseError);
        },
    };
    let j2 = id.1;
    let flag = match parse_bool(s, j2) {
        Ok(p) => p,
        Err(_) => {
            proof {
                assert forall|k: u64, tv: TaskView| #[trigger]
                    task_hyp(s@, i as int, k, tv) implies false by {
                    lemma_task_hyp_parts(s@, i as int, k, tv);
                    assert(seq_at(s@, j2 as int, enc_bool(tv.complete)));
                }
            }
            return Err(ParseError);
        },
    };
    let j3 = flag.1;
    let name = match parse_str(s, j3) {
        Ok(p) => p,
        Err(_) => {
            proof {
                assert forall|k: u64, tv: TaskView| #[trigger]
                    task_hyp(s@, i as int, k, tv) implies false by {
                    lemma_task_hyp_parts(s@, i as int, k, tv);
                    assert(str_hyp(s@, j3 as int, tv.name));
                }
            }
            return Err(ParseError);
        },
    };
    let j = name.1;
    let entry = TaskEntry { key: key.0, task: Task { id: id.0, name: name.0, complete: flag.0 } };
    proof {
        lemma_subrange_join(s@, i as int, j2 as int, j as int);
        lemma_subrange_join(s@, i as int, j1 as int, j2 as int);
        lemma_subrange_join(s@, j2 as int, j3 as int, j as int);
        assert(s@.subrange(i as int, j as int) =~= enc_task(entry.key, entry.task@));
        assert forall|k: u64, tv: TaskView| #[trigger]
            task_hyp(s@, i as int, k, tv) implies Ok::<(TaskEntry, usize), ParseError>((entry, j))
             is Ok && entry.key == k && entry.task@ == tv && j == i + enc_task(k, tv).len() by {
            lemma_task_hyp_parts(s@, i as int, k, tv);
            assert(seq_at(s@, j1 as int, pad(tv.id as nat, 20)));
            assert(seq_at(s@, j2 as int, enc_bool(tv.complete)));
            assert(str_hyp(s@, j3 as int, tv.name));
            assert(entry.task@ =~= tv);
        }
    }
    Ok((entry, j))
}

/// Reads one user record at `i`.
fn parse_user(s: &Vec<char>, i: usize) -> (r: Result<(UserEntry, usize), ParseError>)
    requires
        i <= s@.len(),
    ensures
        r matches Ok(p) ==> i <= p.1 <= s@.len() && s@.subrange(i as int, p.1 as int) == enc_user(
            p.0.key,
            p.0.user@,
        ),
        forall|k: u64, uv: UserView| #[trigger]
            user_hyp(s@, i as int, k, uv) ==> r is Ok && (r->Ok_0).0.key == k && (
            r->Ok_0).0.user@ == uv && (r->Ok_0).1 == i + enc_user(k, uv).len(),
{
    broadcast use crate::digits::lemma_pad_len;

    proof {
        lemma_pow10_20();
    }
    let key = match parse_num(s, i, 20) {
        Some(p) => p,
        None => {
            proof {
                assert forall|k: u64, uv: UserView| #[trigger]
                    user_hyp(s@, i as int, k, uv) implies false by {
                    lemma_user_hyp_parts(s@, i as int, k, uv);
                }
            }
            return Err(ParseError);
        },
    };
    let j1 = key.1;
    let id = match parse_num(s, j1, 20) {
        Some(p) => p,
        None => {
            proof {
                assert forall|k: u64, uv: UserView| #[trigger]
                    user_hyp(s@, i as int, k, uv) implies false by {
                    lemma_user_hyp_parts(s@, i as int, k, uv);
                    assert(seq_at(s@, j1 as int, pad(uv.id as nat, 20)));
                }
            }
            return Err(ParseError);
        },
    };
    let j2 = id.1;
    let name = match parse_str(s, j2) {
        Ok(p) => p,
        Err(_) => {
            proof {
                assert forall|k: u64, uv: UserView| #[trigger]
                    user_hyp(s@, i as int, k, uv) implies false by {
                    lemma_user_hyp_parts(s@, i as int, k, uv);
                    assert(str_hyp(s@, j2 as int, uv.name));
                }
            }
            return Err(ParseError);
        },
    };
    let j3 = name.1;
    let password = match parse_str(s, j3) {
        Ok(p) => p,
        Err(_) => {
            proof {
                assert forall|k: u64, uv: UserView| #[trigger]
                    user_hyp(s@, i as int, k, uv) implies false by {
                    lemma_user_hyp_parts(s@, i as int, k, uv);
                    assert(str_hyp(s@, j2 as int, uv.name));
                    assert(str_hyp(s@, j3 as int, uv.password));
                }
            }
            return Err(ParseError);
        },
    };
    let j = password.1;
    let entry = UserEntry {
        key: key.0,
        user: User { id: id.0, name: name.0, password: password.0 },
    };
    proof {
        lemma_subrange_join(s@, i as int, j2 as int, j as int);
        lemma_subrange_join(s@, i as int, j1 as int, j2 as int);
        lemma_subrange_join(s@, j2 as int, j3 as int, j as int);
        assert(s@.subrange(i as int, j as int) =~= enc_user(entry.key, entry.user@));
        assert forall|k: u64, uv: UserView| #[trigger]
            user_hyp(s@, i as int, k, uv) implies Ok::<(UserEntry, usize), ParseError>((entry, j))
             is Ok && entry.key == k && entry.user@ == uv && j == i + enc_user(k, uv).len() by {
            lemma_user_hyp_parts(s@, i as int, k, uv);
            assert(seq_at(s@, j1 as int, pad(uv.id as nat, 20)));
            assert(str_hyp(s@, j2 as int, uv.name));
            assert(str_hyp(s@, j3 as int, uv.password));
            assert(entry.user@ =~= uv);
        }
    }
    Ok((entry, j))
}

/// Reads `count` task records at `i`, refusing a repeated key.
fn parse_tasks(s: &Vec<char>, i: usize, count: u64) -> (r: Result<
    (Vec<TaskEntry>, usize),
    ParseError,
>)
    requires
        i <= s@.len(),
    ensures
        r matches Ok(p) ==> i <= p.1 <= s@.len() && p.0@.len() == count && unique_keys(
            tasks_view(p.0@),
        ) && s@.subrange(i as int, p.1 as int) == enc_tasks(tasks_view(p.0@)),
        forall|vs: Seq<(u64, TaskView)>| #[trigger]
            tasks_hyp(s@, i as int, count, vs) ==> r is Ok && tasks_view((r->Ok_0).0@) == vs && (
            r->Ok_0).1 == i + enc_tasks(vs).len(),
{
    let mut acc: Vec<TaskEntry> = Vec::new();
    let mut cur: usize = i;
    let mut k: u64 = 0;
    proof {
        assert(tasks_view(acc@) =~= Seq::<(u64, TaskView)>::empty());
        assert(s@.subrange(i as int, i as int) =~= enc_tasks(tasks_view(acc@)));
        assert forall|vs: Seq<(u64, TaskView)>| #[trigger]
            tasks_hyp(s@, i as int, count, vs) implies tasks_view(acc@) == vs.take(0)
            && cur as int == i + enc_tasks(vs.take(0)).len() by {
            assert(vs.take(0) =~= Seq::<(u64, TaskView)>::empty());
            assert(tasks_view(acc@) =~= vs.take(0));
        }
    }
    while k < count
        invariant
            i <= cur <= s@.len(),
            k <= count,
            acc@.len() == k,
            unique_keys(tasks_view(acc@)),
            s@.subrange(i as int, cur as int) == enc_tasks(tasks_view(acc@)),
            forall|vs: Seq<(u64, TaskView)>| #[trigger]
                tasks_hyp(s@, i as int, count, vs) ==> tasks_view(acc@) == vs.take(k as int)
                    && cur as int == i + enc_tasks(vs.take(k as int)).len(),
        decreases count - k,
    {
        proof {
            assert forall|vs: Seq<(u64, TaskView)>| #[trigger]
                tasks_hyp(s@, i as int, count, vs) implies task_hyp(
                s@,
                cur as int,
                vs[k as int].0,
                vs[k as int].1,
            ) by {
                lemma_enc_tasks_decompose(vs, k as int);
                lemma_seq_at_concat(
                    s@,
                    i as int,
                    enc_tasks(vs.take(k as int)),
                    enc_tasks_from(vs, k as int),
                );
                lemma_seq_at_concat(
                    s@,
                    cur as int,
                    enc_task(vs[k as int].0, vs[k as int].1),
                    enc_tasks_from(vs, k as int + 1),
                );
            }
        }
        match parse_task(s, cur) {
            Err(_) => {
                proof {
                    assert forall|vs: Seq<(u64, TaskView)>| #[trigger]
                        tasks_hyp(s@, i as int, count, vs) implies false by {}
                }
                return Err(ParseError);
            },
            Ok((entry, nxt)) => {
                match Store::task_index(&acc, entry.key) {
                    Some(dup) => {
                        proof {
                            assert forall|vs: Seq<(u64, TaskView)>| #[trigger]
                                tasks_hyp(s@, i as int, count, vs) implies false by {
                                assert(tasks_view(acc@)[dup as int].0 == acc@[dup as int].key);
                                assert(vs.take(k as int)[dup as int] == vs[dup as int]);
                                assert(vs[dup as int].0 == vs[k as int].0);
                            }
                        }
                        return Err(ParseError);
                    },
                    None => {
                        let ghost old_view = tasks_view(acc@);
                        let ghost old_cur: int = cur as int;
                        acc.push(entry);
                        proof {
                            assert(tasks_view(acc@) =~= old_view.push((entry.key, entry.task@)));
                            assert(tasks_view(acc@).drop_last() =~= old_view);
                            assert forall|x: int, y: int|
                                0 <= x < y < tasks_view(acc@).len() implies tasks_view(acc@)[x].0
                                != tasks_view(acc@)[y].0 by {
                                if y == k as int {
                                    assert(tasks_view(acc@)[x].0 == acc@[x].key);
                                }
                            }
                            lemma_subrange_join(s@, i as int, old_cur, nxt as int);
                            assert(s@.subrange(i as int, nxt as int) =~= enc_tasks(
                                tasks_view(acc@),
                            ));
                            assert forall|vs: Seq<(u64, TaskView)>| #[trigger]
                                tasks_hyp(s@, i as int, count, vs) implies tasks_view(acc@)
                                == vs.take(k + 1) && nxt as int == i + enc_tasks(
                                vs.take(k + 1),
                            ).len() by {
                                assert(vs.take(k + 1).drop_last() =~= vs.take(k as int));
                                assert(vs.take(k + 1).last() == vs[k as int]);
                                assert(tasks_view(acc@) =~= vs.take(k + 1));
                            }
                        }
                        cur = nxt;
                        k = k + 1;
                    },
                }
            },
        }
    }
    proof {
        assert forall|vs: Seq<(u64, TaskView)>| #[trigger]
            tasks_hyp(s@, i as int, count, vs) implies tasks_view(acc@) == vs && cur as int == i
            + enc_tasks(vs).len() by {
            assert(vs.take(k as int) =~= vs);
        }
    }
    Ok((acc, cur))
}

/// Reads `count` user records at `i`, refusing a repeated key.
fn parse_users(s: &Vec<char>, i: usize, count: u64) -> (r: Result<
    (Vec<UserEntry>, usize),
    ParseError,
>)
    requires
        i <= s@.len(),
    ensures
        r matches Ok(p) ==> i <= p.1 <= s@.len() && p.0@.len() == count && unique_keys(
            users_view(p.0@),
        ) && s@.subrange(i as int, p.1 as int) == enc_users(users_view(p.0@)),
        forall|vs: Seq<(u64, UserView)>| #[trigger]
            users_hyp(s@, i as int, count, vs) ==> r is Ok && users_view((r->Ok_0).0@) == vs && (
            r->Ok_0).1 == i + enc_users(vs).len(),
{
    let mut acc: Vec<UserEntry> = Vec::new();
    let mut cur: usize = i;
    let mut k: u64 = 0;
    proof {
        assert(users_view(acc@) =~= Seq::<(u64, UserView)>::empty());
        assert(s@.subrange(i as int, i as int) =~= enc_users(users_view(acc@)));
        assert forall|vs: Seq<(u64, UserView)>| #[trigger]
            users_hyp(s@, i as int, count, vs) implies users_view(acc@) == vs.take(0)
            && cur as int == i + enc_users(vs.take(0)).len() by {
            assert(vs.take(0) =~= Seq::<(u64, UserView)>::empty());
            assert(users_view(acc@) =~= vs.take(0));
        }
    }
    while k < count
        invariant
            i <= cur <= s@.len(),
            k <= count,
            acc@.len() == k,
            unique_keys(users_view(acc@)),
            s@.subrange(i as int, cur as int) == enc_users(users_view(acc@)),
            forall|vs: Seq<(u64, UserView)>| #[trigger]
                users_hyp(s@, i as int, count, vs) ==> users_view(acc@) == vs.take(k as int)
                    && cur as int == i + enc_users(vs.take(k as int)).len(),
        decreases count - k,
    {
        proof {
            assert forall|vs: Seq<(u64, UserView)>| #[trigger]
                users_hyp(s@, i as int, count, vs) implies user_hyp(
                s@,
                cur as int,
                vs[k as int].0,
                vs[k as int].1,
            ) by {
                lemma_enc_users_decompose(vs, k as int);
                lemma_seq_at_concat(
                    s@,
                    i as int,
                    enc_users(vs.take(k as int)),
                    enc_users_from(vs, k as int),
                );
                lemma_seq_at_concat(
                    s@,
                    cur as int,
                    enc_user(vs[k as int].0, vs[k as int].1),
                    enc_users_from(vs, k as int + 1),
                );
            }
        }
        match parse_user(s, cur) {
            Err(_) => {
                proof {
                    assert forall|vs: Seq<(u64, UserView)>| #[trigger]
                        users_hyp(s@, i as int, count, vs) implies false by {}
                }
                return Err(ParseError);
            },
            Ok((entry, nxt)) => {
                match Store::user_index(&acc, entry.key) {
                    Some(dup) => {
                        proof {
                            assert forall|vs: Seq<(u64, UserView)>| #[trigger]
                                users_hyp(s@, i as int, count, vs) implies false by {
                                assert(users_view(acc@)[dup as int].0 == acc@[dup as int].key);
                                assert(vs.take(k as int)[dup as int] == vs[dup as int]);
                                assert(vs[dup as int].0 == vs[k as int].0);
                            }
                        }
                        return Err(ParseError);
                    },
                    None => {
                        let ghost old_view = users_view(acc@);
                        let ghost old_cur: int = cur as int;
                        acc.push(entry);
                        proof {
                            assert(users_view(acc@) =~= old_view.push((entry.key, entry.user@)));
                            assert(users_view(acc@).drop_last() =~= old_view);
                            assert forall|x: int, y: int|
                                0 <= x < y < users_view(acc@).len() implies users_view(acc@)[x].0
                                != users_view(acc@)[y].0 by {
                                if y == k as int {
                                    assert(users_view(acc@)[x].0 == acc@[x].key);
                                }
                            }
                            lemma_subrange_join(s@, i as int, old_cur, nxt as int);
                            assert(s@.subrange(i as int, nxt as int) =~= enc_users(
                                users_view(acc@),
                            ));
                            assert forall|vs: Seq<(u64, UserView)>| #[trigger]
                                users_hyp(s@, i as int, count, vs) implies users_view(acc@)
                                == vs.take(k + 1) && nxt as int == i + enc_users(
                                vs.take(k + 1),
                            ).len() by {
                                assert(vs.take(k + 1).drop_last() =~= vs.take(k as int));
                                assert(vs.take(k + 1).last() == vs[k as int]);
                                assert(users_view(acc@) =~= vs.take(k + 1));
                            }
                        }
                        cur = nxt;
                        k = k + 1;
                    },
                }
            },
        }
    }
    proof {
        assert forall|vs: Seq<(u64, UserView)>| #[trigger]
            users_hyp(s@, i as int, count, vs) implies users_view(acc@) == vs && cur as int == i
            + enc_users(vs).len() by {
            assert(vs.take(k as int) =~= vs);
        }
    }
    Ok((acc, cur))
}

impl Store {
    /// Parses a snapshot document back into a store.
    ///
    /// Success returns a well-formed store whose encoding is exactly the
    /// document; failure means the document is not the encoding of any
    /// well-formed store. Together with [`Store::to_snapshot`] this makes
    /// saving and loading a proved round trip: parsing an encoded store
    /// yields a store with the very same task and user contents.
    pub fn from_snapshot(doc: &str) -> (r: Result<Store, ParseError>)
        ensures
            r matches Ok(st) ==> st@.wf() && doc@ == snapshot_enc(st@),
            forall|v: StoreView|
                v.wf() && view_bounded(v) && doc@ == #[trigger] snapshot_enc(v) ==> r is Ok && (
                r->Ok_0)@ == v,
    {
        broadcast use crate::digits::lemma_pad_len;

        let s = str_to_chars(doc);
        proof {
            lemma_pow10_20();
            assert forall|v: StoreView|
                v.wf() && view_bounded(v) && doc@ == #[trigger] snapshot_enc(v) implies seq_at(
                s@,
                0,
                enc_num(v.tasks.len()),
            ) && seq_at(s@, 20, enc_tasks(v.tasks) + (enc_num(v.users.len()) + enc_users(
                v.users,
            ))) by {
                assert(s@.subrange(0, s@.len() as int) =~= s@);
                assert(snapshot_enc(v) =~= enc_num(v.tasks.len()) + (enc_tasks(v.tasks) + (enc_num(
                    v.users.len(),
                ) + enc_users(v.users))));
                assert(seq_at(
                    s@,
                    0,
                    enc_num(v.tasks.len()) + (enc_tasks(v.tasks) + (enc_num(v.users.len())
                        + enc_users(v.users))),
                ));
                lemma_seq_at_concat(
                    s@,
                    0,
                    enc_num(v.tasks.len()),
                    enc_tasks(v.tasks) + (enc_num(v.users.len()) + enc_users(v.users)),
                );
            }
        }
        let head_t = match parse_num(&s, 0, 20) {
            Some(p) => p,
            None => {
                proof {
                    assert forall|v: StoreView|
                        v.wf() && view_bounded(v) && doc@ == #[trigger] snapshot_enc(
                            v,
                        ) implies false by {
                        let nn = v.tasks.len() as u64;
                        assert(seq_at(s@, 0, pad(nn as nat, 20)));
                    }
                }
                return Err(ParseError);
            },
        };
        let count_t = head_t.0;
        let j1 = head_t.1;
        proof {
            assert forall|v: StoreView|
                v.wf() && view_bounded(v) && doc@ == #[trigger] snapshot_enc(v) implies count_t
                == v.tasks.len() && tasks_hyp(s@, j1 as int, count_t, v.tasks) && seq_at(
                s@,
                j1 + enc_tasks(v.tasks).len(),
                enc_num(v.users.len()) + enc_users(v.users),
            ) by {
                let nn = v.tasks.len() as u64;
                assert(seq_at(s@, 0, pad(nn as nat, 20)));
                lemma_seq_at_concat(
                    s@,
                    20,
                    enc_tasks(v.tasks),
                    enc_num(v.users.len()) + enc_users(v.users),
                );
            }
        }
        let tasks = match parse_tasks(&s, j1, count_t) {
            Ok(p) => p,
            Err(_) => {
                proof {
                    assert forall|v: StoreView|
                        v.wf() && view_bounded(v) && doc@ == #[trigger] snapshot_enc(
                            v,
                        ) implies false by {}
                }
                return Err(ParseError);
            },
        };
        let j2 = tasks.1;
        proof {
            assert forall|v: StoreView|
                v.wf() && view_bounded(v) && doc@ == #[trigger] snapshot_enc(v) implies j2 as int
                == j1 + enc_tasks(v.tasks).len() && seq_at(s@, j2 as int, enc_num(v.users.len()))
                && seq_at(
                s@,
                j2 + 20,
                enc_users(v.users),
            ) by {
                lemma_seq_at_concat(
                    s@,
                    j1 + enc_tasks(v.tasks).len(),
                    enc_num(v.users.len()),
                    enc_users(v.users),
                );
            }
        }
        let head_u = match parse_num(&s, j2, 20) {
            Some(p) => p,
            None => {
                proof {
                    assert forall|v: StoreView|
                        v.wf() && view_bounded(v) && doc@ == #[trigger] snapshot_enc(
                            v,
                        ) implies false by {
                        let nn = v.users.len() as u64;
                        assert(seq_at(s@, j2 as int, pad(nn as nat, 20)));
                    }
                }
                return Err(ParseError);
            },
        };
        let count_u = head_u.0;
        let j3 = head_u.1;
        proof {
            assert forall|v: StoreView|
                v.wf() && view_bounded(v) && doc@ == #[trigger] snapshot_enc(v) implies count_u
                == v.users.len() && users_hyp(s@, j3 as int, count_u, v.users) by {
                let nn = v.users.len() as u64;
                assert(seq_at(s@, j2 as int, pad(nn as nat, 20)));
            }
        }
        let users = match parse_users(&s, j3, count_u) {
            Ok(p) => p,
            Err(_) => {
                proof {
                    assert forall|v: StoreView|
                        v.wf() && view_bounded(v) && doc@ == #[trigger] snapshot_enc(
                            v,
                        ) implies false by {}
                }
                return Err(ParseError);
            },
        };
        let j4 = users.1;
        if j4 != s.len() {
            proof {
                assert forall|v: StoreView|
                    v.wf() && view_bounded(v) && doc@ == #[trigger] snapshot_enc(
                        v,
                    ) implies false by {
                    assert(j4 as int == j3 + enc_users(v.users).len());
                    assert(snapshot_enc(v).len() == 20 + enc_tasks(v.tasks).len() + 20 + enc_users(
                        v.users,
                    ).len());
                }
            }
            return Err(ParseError);
        }
        let st = Store { tasks: tasks.0, users: users.0 };
        proof {
            lemma_subrange_join(s@, 0, j2 as int, s@.len() as int);
            lemma_subrange_join(s@, 0, j1 as int, j2 as int);
            lemma_subrange_join(s@, j2 as int, j3 as int, s@.len() as int);
            assert(s@.subrange(0, s@.len() as int) =~= s@);
            assert(doc@ =~= snapshot_enc(st@));
            assert forall|v: StoreView|
                v.wf() && view_bounded(v) && doc@ == #[trigger] snapshot_enc(v) implies st@
                == v by {
                assert(st@ =~= v);
            }
        }
        Ok(st)
    }
}

} // verus!
