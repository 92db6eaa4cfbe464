//! Draws from the thread-local random generator of the `rand` crate.

use vstd::prelude::*;

verus! {

/// `rand::random::<usize>()`: a value drawn from the thread-local
/// generator. Nothing is stated of the value: it rests on chance.
#[verifier::external_body]
pub(crate) fn random_usize() -> usize {
    rand::random::<usize>()
}

/// `rand::random::<bool>()`: a coin drawn from the thread-local generator.
/// Nothing is stated of the value: it rests on chance.
#[verifier::external_body]
pub(crate) fn random_bool() -> bool {
    rand::random::<bool>()
}

} // verus!
