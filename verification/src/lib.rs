//! An in-process task and user store with verified CRUD semantics and a
//! verified snapshot codec: the store serializes to a text document and
//! parsing that document is proved to reproduce the store exactly.

pub mod chat;
pub mod digits;
pub mod ops;
pub mod snapshot;
pub mod store;
