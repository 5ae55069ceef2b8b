//! The multi-participant mode: the interner state that a lock-and-condvar
//! wrapper shares between participants, with per-participant view counts
//! so that self-contention (a participant that would have to wait for
//! itself) is told apart from contention that merely requires waiting.

pub mod error;
pub mod interning;

pub use error::InternError;
pub use interning::{Intern, InternRef, InternStep, Interner, InternerInternal};
