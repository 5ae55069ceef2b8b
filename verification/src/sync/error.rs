//! The single error of the multi-participant mode.

use vstd::prelude::*;

verus! {

/// The only error interning can meet: the calling participant itself still
/// holds a view, so it would have to wait for itself. Carries the call-site
/// tag recorded when the most recent view was acquired.
#[derive(Clone, Copy, Debug, PartialEq, Eq, Structural)]
pub enum InternError {
    OutstandingLocalRef(u64),
}

} // verus!
