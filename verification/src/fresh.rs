//! Picking a 128-bit value that is not yet in use.
//!
//! Tokens and identifiers are drawn at random, and a random draw can repeat a
//! value that is still in use. `first_free` walks upwards from the draw, past
//! the end of the range and round again, to the first value that is free.

use vstd::prelude::*;
use vstd::set_lib::{lemma_int_range, lemma_len_subset, lemma_map_size, set_int_range};

verus! {

/// Number of 128-bit values.
pub open spec fn span() -> int {
    0x1_0000_0000_0000_0000_0000_0000_0000_0000int
}

/// The value `i` steps after `start`, going round at the end of the range.
pub open spec fn step(start: u128, i: int) -> u128 {
    ((start + i) % span()) as u128
}

/// The first of `step(start, i)`, `step(start, i + 1)`, ... that `taken` does
/// not hold.
pub open spec fn first_free_from(taken: Seq<u128>, start: u128, i: int) -> u128
    decreases taken.len() - i,
{
    if i >= taken.len() || !taken.contains(step(start, i)) {
        step(start, i)
    } else {
        first_free_from(taken, start, i + 1)
    }
}

/// `start` if `taken` does not hold it, else the first value after it that
/// `taken` does not hold.
pub open spec fn first_free(taken: Seq<u128>, start: u128) -> u128 {
    first_free_from(taken, start, 0)
}

/// Among `len + 1` consecutive values at least one is missing from a sequence
/// of length `len`.
proof fn lemma_some_step_is_free(taken: Seq<u128>, start: u128)
    requires
        taken.len() < span(),
    ensures
        exists|i: int| 0 <= i <= taken.len() && !taken.contains(#[trigger] step(start, i)),
{
    if forall|i: int| 0 <= i <= taken.len() ==> taken.contains(#[trigger] step(start, i)) {
        let n = taken.len() as int;
        let range = set_int_range(0, n + 1);
        let f = |i: int| step(start, i);
        let image = range.map(f);
        lemma_int_range(0, n + 1);
        assert(vstd::relations::injective_on(f, range)) by {
            assert forall|a: int, b: int|
                range.contains(a) && range.contains(b) && #[trigger] f(a) == #[trigger] f(
                    b,
                ) implies a == b by {
                let m = span();
                assert((start + a) % m == (start + b) % m);
                assert(0 <= a < m && 0 <= b < m);
                if a != b {
                    let qa = (start + a) / m;
                    let qb = (start + b) / m;
                    assert(start + a == qa * m + (start + a) % m);
                    assert(start + b == qb * m + (start + b) % m);
                    assert(a - b == (qa - qb) * m);
                }
            }
        }
        lemma_map_size(range, image, f);
        taken.lemma_cardinality_of_set();
        assert(image.subset_of(taken.to_set())) by {
            assert forall|x: u128| image.contains(x) implies taken.to_set().contains(x) by {
                let i = choose|i: int| range.contains(i) && f(i) == x;
                assert(taken.contains(step(start, i)));
            }
        }
        lemma_len_subset(image, taken.to_set());
        assert(false);
    }
}

/// If some step from `i` on is free, `first_free_from` finds a free one.
proof fn lemma_first_free_from(taken: Seq<u128>, start: u128, i: int, w: int)
    requires
        0 <= i <= w <= taken.len(),
        !taken.contains(step(start, w)),
    ensures
        !taken.contains(first_free_from(taken, start, i)),
    decreases taken.len() - i,
{
    if i >= taken.len() || !taken.contains(step(start, i)) {
    } else {
        lemma_first_free_from(taken, start, i + 1, w);
    }
}

/// `first_free` is not in `taken`, and it is `start` whenever `start` is free.
pub proof fn lemma_first_free(taken: Seq<u128>, start: u128)
    requires
        taken.len() < span(),
    ensures
        !taken.contains(first_free(taken, start)),
        !taken.contains(start) ==> first_free(taken, start) == start,
{
    lemma_some_step_is_free(taken, start);
    let w = choose|i: int| 0 <= i <= taken.len() && !taken.contains(#[trigger] step(start, i));
    lemma_first_free_from(taken, start, 0, w);
    assert(step(start, 0) == start);
}

/// Whether `list` holds `x`.
pub fn holds(list: &Vec<u128>, x: u128) -> (found: bool)
    ensures
        found == list@.contains(x),
{
    let mut i: usize = 0;
    while i < list.len()
        invariant
            i <= list.len(),
            forall|j: int| 0 <= j < i ==> list@[j] != x,
        decreases list.len() - i,
    {
        if list[i] == x {
            return true;
        }
        i += 1;
    }
    false
}

/// The first value from `start` on, going round at the end of the range, that
/// `taken` does not hold.
pub fn pick_free(taken: &Vec<u128>, start: u128) -> (free: u128)
    ensures
        free == first_free(taken@, start),
        !taken@.contains(free),
        !taken@.contains(start) ==> free == start,
{
    proof {
        assert(taken.len() == taken@.len());
        assert(usize::MAX <= u64::MAX);
        lemma_first_free(taken@, start);
    }
    let mut candidate: u128 = start;
    let mut i: usize = 0;
    while i < taken.len() && holds(taken, candidate)
        invariant
            i <= taken.len(),
            candidate == step(start, i as int),
            first_free(taken@, start) == first_free_from(taken@, start, i as int),
        decreases taken.len() - i,
    {
        candidate = if candidate == u128::MAX {
            0
        } else {
            candidate + 1
        };
        i += 1;
    }
    candidate
}

} // verus!
