//! The single-owner cooperative mode: one participant, so a conflicting
//! call can never wait for anyone and fails immediately instead.

pub mod error;
pub mod interning;

pub use error::InternError;
pub use interning::{Intern, InternRef, Interner};
