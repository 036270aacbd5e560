//! Where chance comes into the library.

use vstd::prelude::*;

verus! {

/// A number drawn by `rand::random` from the generator of the thread. It
/// depends on chance, so nothing is claimed of it.
#[verifier::external_body]
pub(crate) fn random_u64() -> u64 {
    rand::random::<u64>()
}

} // verus!
