use vstd::prelude::*;

verus! {

/// A uniformly distributed `usize`, drawn by `rand::random` from the
/// generator of the calling thread. Nothing is claimed of the value: every
/// `usize` can come back, and two calls need not agree.
#[verifier::external_body]
pub(crate) fn random_usize() -> (draw: usize) {
    rand::random::<usize>()
}

} // verus!
