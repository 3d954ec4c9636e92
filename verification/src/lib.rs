//! Short, reversible, URL-friendly identifiers for sequences of unsigned
//! integers, with every function carrying a machine-checked contract.

pub mod text;
pub mod shuffle;
pub mod codec;
pub mod blocklist;
pub mod sqids;
pub mod encoder;
pub mod decoder;
pub mod wordlist;
pub mod laws;

pub use crate::sqids::{Error, Options, Sqids};
pub use crate::wordlist::blocklist_from_json;
