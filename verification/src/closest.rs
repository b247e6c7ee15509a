//! Ordering identifiers by closeness to a target.
//!
//! Distances to one target never tie, so a set of identifiers has exactly one
//! arrangement in ascending distance. `arrange` names that arrangement and
//! `closest_to` its first few members.

use vstd::prelude::*;
use crate::ident::{dist_unique, NodeId};
use crate::lists::without;

verus! {

/// Whether `s` is strictly ascending in distance to `target`. A sequence in
/// this order holds no identifier twice.
pub open spec fn ascending(s: Seq<NodeId>, target: NodeId) -> bool {
    forall|i: int, j: int|
        0 <= i < j < s.len() ==> (#[trigger] s[i]).spec_dist(&target) < (#[trigger] s[j]).spec_dist(
            &target,
        )
}

/// `s` with `id` put in its place by distance to `target`; `s` itself when it
/// already holds `id`.
pub open spec fn insert_sorted(s: Seq<NodeId>, target: NodeId, id: NodeId) -> Seq<NodeId>
    decreases s.len(),
{
    if s.len() == 0 {
        seq![id]
    } else if s[0] == id {
        s
    } else if id.spec_dist(&target) < s[0].spec_dist(&target) {
        seq![id] + s
    } else {
        seq![s[0]] + insert_sorted(s.drop_first(), target, id)
    }
}

/// The identifiers of `ids`, each once, in ascending distance to `target`.
pub open spec fn arrange(ids: Seq<NodeId>, target: NodeId) -> Seq<NodeId>
    decreases ids.len(),
{
    if ids.len() == 0 {
        Seq::empty()
    } else {
        insert_sorted(arrange(ids.drop_last(), target), target, ids.last())
    }
}

/// The first `n` members of `s`, or all of `s` if it has fewer.
pub open spec fn prefix(s: Seq<NodeId>, n: nat) -> Seq<NodeId> {
    if n < s.len() {
        s.take(n as int)
    } else {
        s
    }
}

/// The `n` identifiers of `ids` that are closest to `target`, closest first.
pub open spec fn closest_to(ids: Seq<NodeId>, target: NodeId, n: nat) -> Seq<NodeId> {
    prefix(arrange(ids, target), n)
}

/// Where `insert_sorted` puts `id`: at the one index `at` that has only
/// closer identifiers before it and none after it.
pub proof fn lemma_insert_position(s: Seq<NodeId>, target: NodeId, id: NodeId, at: int)
    requires
        ascending(s, target),
        0 <= at <= s.len(),
        forall|j: int| 0 <= j < at ==> (#[trigger] s[j]).spec_dist(&target) < id.spec_dist(&target),
        at < s.len() ==> id.spec_dist(&target) <= s[at].spec_dist(&target),
    ensures
        insert_sorted(s, target, id) == if at < s.len() && s[at] == id {
            s
        } else {
            s.insert(at, id)
        },
    decreases s.len(),
{
    if s.len() == 0 {
        assert(seq![id] =~= s.insert(0, id));
    } else if at == 0 {
        dist_unique(target, id, s[0]);
        if s[0] != id {
            assert(seq![id] + s =~= s.insert(0, id));
        }
    } else {
        let rest = s.drop_first();
        assert(s[0].spec_dist(&target) < id.spec_dist(&target));
        dist_unique(target, id, s[0]);
        assert(ascending(rest, target)) by {
            assert forall|i: int, j: int| 0 <= i < j < rest.len() implies (#[trigger] rest[i]).spec_dist(
                &target,
            ) < (#[trigger] rest[j]).spec_dist(&target) by {
                assert(rest[i] == s[i + 1]);
                assert(rest[j] == s[j + 1]);
            }
        }
        assert forall|j: int| 0 <= j < at - 1 implies (#[trigger] rest[j]).spec_dist(&target)
            < id.spec_dist(&target) by {
            assert(rest[j] == s[j + 1]);
        }
        if at < s.len() {
            assert(rest[at - 1] == s[at]);
        }
        lemma_insert_position(rest, target, id, at - 1);
        if at < s.len() && s[at] == id {
            assert(seq![s[0]] + rest =~= s);
        } else {
            assert(seq![s[0]] + rest.insert(at - 1, id) =~= s.insert(at, id));
        }
    }
}

/// The index at which `id` belongs in `s`: the number of members of `s` that
/// are closer to `target` than `id` is.
pub open spec fn rank(s: Seq<NodeId>, target: NodeId, id: NodeId) -> int
    decreases s.len(),
{
    if s.len() == 0 {
        0
    } else if s[0].spec_dist(&target) < id.spec_dist(&target) {
        1 + rank(s.drop_first(), target, id)
    } else {
        0
    }
}

/// `rank` counts members of `s`, and those it counts are the leading ones
/// that are closer to `target` than `id` is.
pub proof fn lemma_rank_counts(s: Seq<NodeId>, target: NodeId, id: NodeId)
    ensures
        0 <= rank(s, target, id) <= s.len(),
        forall|j: int|
            0 <= j < rank(s, target, id) ==> (#[trigger] s[j]).spec_dist(&target) < id.spec_dist(
                &target,
            ),
        rank(s, target, id) < s.len() ==> id.spec_dist(&target) <= s[rank(s, target, id)].spec_dist(
            &target,
        ),
    decreases s.len(),
{
    if s.len() > 0 && s[0].spec_dist(&target) < id.spec_dist(&target) {
        let rest = s.drop_first();
        lemma_rank_counts(rest, target, id);
        let r = rank(rest, target, id);
        assert forall|j: int| 0 <= j < r + 1 implies (#[trigger] s[j]).spec_dist(&target)
            < id.spec_dist(&target) by {
            if j > 0 {
                assert(s[j] == rest[j - 1]);
            }
        }
        if r + 1 < s.len() {
            assert(s[r + 1] == rest[r]);
        }
    }
}

/// How many leading members of `list` are closer to `target` than `id` is.
pub fn leading_closer(list: &Vec<NodeId>, target: &NodeId, id: NodeId) -> (n: usize)
    ensures
        n == rank(list@, *target, id),
        n <= list.len(),
{
    let d = id.dist(target);
    assert(list@.skip(0) =~= list@);
    let mut n: usize = 0;
    while n < list.len() && list[n].dist(target) < d
        invariant
            n <= list.len(),
            d == id.spec_dist(target),
            rank(list@, *target, id) == n + rank(list@.skip(n as int), *target, id),
        decreases list.len() - n,
    {
        assert(list@.skip(n as int)[0] == list@[n as int]);
        assert(list@.skip(n as int).drop_first() =~= list@.skip(n + 1));
        n += 1;
    }
    proof {
        if n < list.len() {
            assert(list@.skip(n as int)[0] == list@[n as int]);
        } else {
            assert(list@.skip(n as int).len() == 0);
        }
    }
    n
}

/// In an ascending sequence `rank` is the position that `lemma_insert_position`
/// asks for.
pub proof fn lemma_rank(s: Seq<NodeId>, target: NodeId, id: NodeId)
    requires
        ascending(s, target),
    ensures
        0 <= rank(s, target, id) <= s.len(),
        forall|j: int|
            0 <= j < rank(s, target, id) ==> (#[trigger] s[j]).spec_dist(&target) < id.spec_dist(
                &target,
            ),
        rank(s, target, id) < s.len() ==> id.spec_dist(&target) <= s[rank(s, target, id)].spec_dist(
            &target,
        ),
    decreases s.len(),
{
    if s.len() > 0 && s[0].spec_dist(&target) < id.spec_dist(&target) {
        let rest = s.drop_first();
        assert(ascending(rest, target)) by {
            assert forall|i: int, j: int| 0 <= i < j < rest.len() implies (#[trigger] rest[i]).spec_dist(
                &target,
            ) < (#[trigger] rest[j]).spec_dist(&target) by {
                assert(rest[i] == s[i + 1]);
                assert(rest[j] == s[j + 1]);
            }
        }
        lemma_rank(rest, target, id);
        let r = rank(rest, target, id);
        assert forall|j: int| 0 <= j < r + 1 implies (#[trigger] s[j]).spec_dist(&target)
            < id.spec_dist(&target) by {
            if j > 0 {
                assert(s[j] == rest[j - 1]);
            }
        }
        if r + 1 < s.len() {
            assert(s[r + 1] == rest[r]);
        }
    }
}

/// Inserting keeps the order, adds `id` and nothing else, and lengthens the
/// sequence by one exactly when `id` is new.
pub proof fn lemma_insert_sorted(s: Seq<NodeId>, target: NodeId, id: NodeId)
    requires
        ascending(s, target),
    ensures
        ascending(insert_sorted(s, target, id), target),
        forall|x: NodeId|
            insert_sorted(s, target, id).contains(x) <==> (s.contains(x) || x == id),
        insert_sorted(s, target, id).len() == if s.contains(id) {
            s.len()
        } else {
            s.len() + 1
        },
{
    lemma_rank(s, target, id);
    let at = rank(s, target, id);
    lemma_insert_position(s, target, id, at);
    let r = insert_sorted(s, target, id);
    if at < s.len() && s[at] == id {
        assert(s.contains(id));
    } else {
        assert(!s.contains(id)) by {
            if s.contains(id) {
                let p = choose|p: int| 0 <= p < s.len() && s[p] == id;
                if p < at {
                } else if p == at {
                } else {
                    dist_unique(target, id, s[at]);
                }
            }
        }
        if at < s.len() {
            dist_unique(target, id, s[at]);
        }
        assert(r == s.insert(at, id));
        assert forall|i: int, j: int| 0 <= i < j < r.len() implies (#[trigger] r[i]).spec_dist(
            &target,
        ) < (#[trigger] r[j]).spec_dist(&target) by {
            if j < at {
                assert(r[i] == s[i] && r[j] == s[j]);
            } else if j == at {
                assert(r[i] == s[i]);
            } else if i < at {
                assert(r[i] == s[i] && r[j] == s[j - 1]);
            } else if i == at {
                assert(r[j] == s[j - 1]);
                if j - 1 > at {
                    assert(s[at].spec_dist(&target) < s[j - 1].spec_dist(&target));
                }
            } else {
                assert(r[i] == s[i - 1] && r[j] == s[j - 1]);
            }
        }
        assert forall|x: NodeId| r.contains(x) <==> (s.contains(x) || x == id) by {
            if r.contains(x) {
                let p = choose|p: int| 0 <= p < r.len() && r[p] == x;
                if p < at {
                    assert(s[p] == x);
                } else if p > at {
                    assert(s[p - 1] == x);
                }
            }
            if s.contains(x) {
                let p = choose|p: int| 0 <= p < s.len() && s[p] == x;
                if p < at {
                    assert(r[p] == x);
                } else {
                    assert(r[p + 1] == x);
                }
            }
            if x == id {
                assert(r[at] == x);
            }
        }
    }
}

/// `arrange` is ascending and holds exactly the identifiers of `ids`.
pub proof fn lemma_arrange(ids: Seq<NodeId>, target: NodeId)
    ensures
        ascending(arrange(ids, target), target),
        forall|x: NodeId| arrange(ids, target).contains(x) <==> ids.contains(x),
        arrange(ids, target).len() <= ids.len(),
        ids.no_duplicates() ==> arrange(ids, target).len() == ids.len(),
    decreases ids.len(),
{
    if ids.len() > 0 {
        let front = ids.drop_last();
        lemma_arrange(front, target);
        lemma_insert_sorted(arrange(front, target), target, ids.last());
        assert forall|x: NodeId| arrange(ids, target).contains(x) <==> ids.contains(x) by {
            if ids.contains(x) {
                let p = choose|p: int| 0 <= p < ids.len() && ids[p] == x;
                if p < ids.len() - 1 {
                    assert(front[p] == x);
                }
            }
            if front.contains(x) {
                let p = choose|p: int| 0 <= p < front.len() && front[p] == x;
                assert(ids[p] == x);
            }
        }
        if ids.no_duplicates() {
            assert(front.no_duplicates());
            assert(!front.contains(ids.last())) by {
                if front.contains(ids.last()) {
                    let p = choose|p: int| 0 <= p < front.len() && front[p] == ids.last();
                    assert(ids[p] == ids[ids.len() - 1]);
                }
            }
        }
    }
}

/// What `closest_to` selects: members of `ids`, in ascending distance, and
/// every member of `ids` that is left out lies farther than all that are in.
pub proof fn lemma_closest_to(ids: Seq<NodeId>, target: NodeId, n: nat)
    ensures
        ascending(closest_to(ids, target, n), target),
        closest_to(ids, target, n).len() <= n,
        closest_to(ids, target, n).len() <= ids.len(),
        ids.no_duplicates() ==> closest_to(ids, target, n).len() == if n < ids.len() {
            n
        } else {
            ids.len()
        },
        forall|x: NodeId| closest_to(ids, target, n).contains(x) ==> ids.contains(x),
        forall|x: NodeId, y: NodeId|
            ids.contains(x) && !closest_to(ids, target, n).contains(x) && closest_to(
                ids,
                target,
                n,
            ).contains(y) ==> y.spec_dist(&target) < x.spec_dist(&target),
{
    lemma_arrange(ids, target);
    let all = arrange(ids, target);
    let sel = closest_to(ids, target, n);
    assert forall|x: NodeId| sel.contains(x) implies ids.contains(x) by {
        let p = choose|p: int| 0 <= p < sel.len() && sel[p] == x;
        assert(all[p] == x);
    }
    assert forall|x: NodeId, y: NodeId|
        ids.contains(x) && !sel.contains(x) && sel.contains(y) implies y.spec_dist(&target)
        < x.spec_dist(&target) by {
        let q = choose|q: int| 0 <= q < sel.len() && sel[q] == y;
        assert(all.contains(x));
        let p = choose|p: int| 0 <= p < all.len() && all[p] == x;
        if p < sel.len() {
            assert(sel[p] == x);
        }
        assert(all[q] == y);
    }
}

/// A sequence in ascending distance holds no identifier twice.
pub proof fn lemma_ascending_no_duplicates(s: Seq<NodeId>, target: NodeId)
    requires
        ascending(s, target),
    ensures
        s.no_duplicates(),
{
    assert forall|i: int, j: int| 0 <= i < s.len() && 0 <= j < s.len() && i != j implies s[i]
        != s[j] by {
        if i < j {
            assert(s[i].spec_dist(&target) < s[j].spec_dist(&target));
        } else {
            assert(s[j].spec_dist(&target) < s[i].spec_dist(&target));
        }
    }
}

/// Taking a member out of a sequence in ascending distance keeps the order.
pub proof fn lemma_without_ascending(s: Seq<NodeId>, target: NodeId, id: NodeId)
    requires
        ascending(s, target),
    ensures
        ascending(without(s, id), target),
{
    if s.contains(id) {
        let at = s.index_of(id);
        let kept = without(s, id);
        assert forall|i: int, j: int| 0 <= i < j < kept.len() implies (#[trigger] kept[i]).spec_dist(
            &target,
        ) < (#[trigger] kept[j]).spec_dist(&target) by {
            let a = if i < at {
                i
            } else {
                i + 1
            };
            let b = if j < at {
                j
            } else {
                j + 1
            };
            assert(kept[i] == s[a] && kept[j] == s[b]);
        }
    }
}

/// Puts `id` in its place in a list that is ascending in distance to `target`.
pub fn insert_by_distance(list: &mut Vec<NodeId>, target: &NodeId, id: NodeId)
    requires
        ascending(old(list)@, *target),
    ensures
        final(list)@ == insert_sorted(old(list)@, *target, id),
        ascending(final(list)@, *target),
{
    let d = id.dist(target);
    let mut at: usize = 0;
    while at < list.len() && list[at].dist(target) < d
        invariant
            at <= list.len(),
            list@ == old(list)@,
            d == id.spec_dist(target),
            forall|j: int| 0 <= j < at ==> (#[trigger] list@[j]).spec_dist(target) < d,
        decreases list.len() - at,
    {
        at += 1;
    }
    proof {
        lemma_insert_position(list@, *target, id, at as int);
        lemma_insert_sorted(list@, *target, id);
    }
    if at < list.len() && list[at] == id {
    } else {
        list.insert(at, id);
    }
}

/// The identifiers of `ids`, each once, in ascending distance to `target`.
pub fn arranged(ids: &Vec<NodeId>, target: &NodeId) -> (out: Vec<NodeId>)
    ensures
        out@ == arrange(ids@, *target),
        ascending(out@, *target),
{
    let mut out: Vec<NodeId> = Vec::new();
    let mut i: usize = 0;
    while i < ids.len()
        invariant
            i <= ids.len(),
            out@ == arrange(ids@.take(i as int), *target),
            ascending(out@, *target),
        decreases ids.len() - i,
    {
        assert(ids@.take(i + 1).drop_last() == ids@.take(i as int));
        insert_by_distance(&mut out, target, ids[i]);
        i += 1;
    }
    assert(ids@.take(ids.len() as int) == ids@);
    out
}

/// The `n` identifiers of `ids` closest to `target`, closest first.
pub fn closest(ids: &Vec<NodeId>, target: &NodeId, n: usize) -> (out: Vec<NodeId>)
    ensures
        out@ == closest_to(ids@, *target, n as nat),
{
    let mut out = arranged(ids, target);
    if n < out.len() {
        out.truncate(n);
    }
    out
}

} // verus!
