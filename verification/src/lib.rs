//! A minimal language-server core: per-document text state, a lexical
//! scanner over line prefixes, and a completion synthesizer that offers
//! the distinct words already seen on the current line, in first-seen
//! order. The session module ties them together as a state machine over
//! decoded messages; transport and JSON live outside the library.
//!
//! All positions and offsets are measured in bytes; document text and
//! identifiers are held as byte vectors.

pub mod complete;
pub mod dedup;
pub mod lines;
pub mod session;
pub mod store;
pub mod tokenizer;
