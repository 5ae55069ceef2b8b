//! The single error of the cooperative mode.

use vstd::prelude::*;

verus! {

/// The only error interning can meet: the owner still holds a view, so the
/// store must not be appended to, and there is no one to wait for. Carries
/// the call-site tag recorded when the outstanding view was acquired.
#[derive(Clone, Copy, Debug, PartialEq, Eq, Structural)]
pub enum InternError {
    OutstandingRef(u64),
}

} // verus!
