use vstd::prelude::*;

verus! {

/// A failure: a short message and the 1-based offset in the source text that
/// the failure is attributed to.
#[derive(Clone, Copy, Debug, PartialEq, Eq)]
pub struct Error {
    pub message: &'static str,
    pub position: usize,
}

} // verus!
