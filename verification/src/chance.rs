//! The two places where the library asks `rand` for a random choice.

use vstd::prelude::*;
use rand::seq::IteratorRandom;
use rand::Rng;

verus! {

/// Draws one value from `rand`'s thread-local generator (`rand::rng()` followed
/// by `Rng::random::<u128>()`). Any 128-bit value may come back, so the
/// contract promises nothing about it.
#[verifier::external_body]
pub(crate) fn random_u128() -> (r: u128) {
    rand::rng().random()
}

/// Picks one of the indices `0 .. n` with `IteratorRandom::choose` on that
/// range, driven by `rand::rng()`. `choose` returns `None` exactly when the
/// iterator is empty, and otherwise one of its items; which one is up to
/// chance.
#[verifier::external_body]
pub(crate) fn random_index(n: usize) -> (pick: Option<usize>)
    ensures
        n == 0 ==> pick is None,
        n > 0 ==> pick is Some && pick->Some_0 < n,
{
    (0..n).choose(&mut rand::rng())
}

} // verus!
