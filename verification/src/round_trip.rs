//! A value that was stored through a peer is found again through that peer.
//!
//! The proof follows the insertion. Its lookup leaves the entry peer with a
//! shortlist of peers that it has seen. The value is stored at the nearest of
//! them that are live, or at the entry peer itself where that is nearer still,
//! and the entry peer comes to know those holders. Whoever it would ask and
//! is nearer to the key than the nearest holder is gone. A retrieval asks the
//! peers it knows nearest first, with the entry peer's own copy in its place
//! among them. So a retrieval through the entry peer passes peers that stay
//! silent and then comes to a copy of the value that was stored last.

use vstd::prelude::*;
use vstd::set_lib::lemma_len_subset;
use crate::closest::{
    arrange, ascending, closest_to, lemma_arrange, lemma_ascending_no_duplicates,
    lemma_closest_to, lemma_insert_sorted,
};
use crate::ident::NodeId;
use crate::laws::{
    agrees, comes_first, comes_to, holds, in_line, lemma_line_finds, lemma_reach_finds,
    lemma_removal_keeps_line, lemma_same_registry, lemma_slot, own_first, within_reach,
};
use crate::lookup::{
    lemma_absorb, lemma_begin_round, lemma_report_wf, lemma_start_wf, LookupView,
};
use crate::message::Content;
use crate::lists::lemma_without;
use crate::network::{
    ids_of, lemma_ids_live, lemma_request, lemma_round_keeps, lemma_rounds_keep,
    lemma_store_all_keeps, lemma_stored_keeps, listed, live_first, question, NetView,
};
use crate::routing::lemma_touch;

verus! {

/// What a lookup that wants no value has established so far, for the peer at
/// index `from` that runs it, the `seeds` it started from, and the neighbours
/// `known` to that peer when it started. Everybody who answered is live and
/// now a neighbour of the peer; the peer has no new neighbours but those;
/// the first to answer was a seed; every live seed is still on the
/// shortlist; and the peer has forgotten no neighbour.
pub open spec fn settled<M>(
    net: NetView<M>,
    from: int,
    seeds: Seq<NodeId>,
    known: Seq<NodeId>,
    lk: LookupView,
) -> bool {
    &&& lk.origin == net.nodes[from].id
    &&& forall|x: NodeId| #[trigger]
        lk.answered.contains(x) ==> net.is_live(x) && net.nodes[from].routing.neighbors.contains(x)
    &&& lk.answered.len() == 0 ==> forall|x: NodeId| #[trigger]
        lk.shortlist.contains(x) ==> seeds.contains(x)
    &&& lk.answered.len() > 0 ==> exists|s: NodeId| #[trigger]
        seeds.contains(s) && lk.answered.contains(s)
    &&& forall|x: NodeId| #[trigger]
        net.nodes[from].routing.neighbors.contains(x) ==> known.contains(x)
            || lk.answered.contains(x)
    &&& forall|x: NodeId| seeds.contains(x) && #[trigger] net.is_live(x) ==> lk.shortlist.contains(x)
    &&& forall|x: NodeId| #[trigger]
        known.contains(x) ==> net.nodes[from].routing.neighbors.contains(x)
}

/// The rest of a round keeps what a lookup has established.
pub proof fn lemma_round_settles<M>(
    net: NetView<M>,
    from: int,
    seeds: Seq<NodeId>,
    known: Seq<NodeId>,
    lk: LookupView,
    batch: Seq<NodeId>,
)
    requires
        net.wf(),
        lk.wf(),
        0 <= from < net.nodes.len(),
        settled(net, from, seeds, known, lk),
        batch.no_duplicates(),
        forall|i: int| 0 <= i < batch.len() ==> lk.awaits(#[trigger] batch[i]),
    ensures
        settled(
            net.round(lk, from, batch, false).0,
            from,
            seeds,
            known,
            net.round(lk, from, batch, false).1,
        ),
    decreases batch.len(),
{
    if batch.len() > 0 {
        let b = batch[0];
        let rest = batch.drop_first();
        let ask = question::<M>(lk.target, false);
        let (next, answer) = net.request(from, b, ask);
        lemma_request(net, from, b, ask);
        assert(lk.awaits(b));
        assert(b != lk.origin);
        assert forall|i: int| 0 <= i < rest.len() implies rest[i] != b && lk.awaits(
            #[trigger] rest[i],
        ) by {
            assert(rest[i] == batch[i + 1]);
        }
        lemma_ascending_no_duplicates(lk.shortlist, lk.target);
        if net.is_live(b) {
            let at = net.slot(b);
            assert(at != from);
            let a = net.nodes[at].answer(ask);
            let told = lk.answered_by(b, listed(a));
            lemma_report_wf(lk, b, listed(a));
            lemma_insert_sorted(lk.answered, lk.target, b);
            lemma_absorb(lk.shortlist, lk.target, lk.origin, lk.asked, listed(a));
            let me = net.nodes[from];
            assert(me.wf());
            assert(next.nodes[from] == me.heard(b));
            lemma_touch(me.routing, b);
            assert forall|x: NodeId| #[trigger] told.answered.contains(x) implies next.is_live(x)
                && next.nodes[from].routing.neighbors.contains(x) by {
                lemma_same_registry(net, next, x);
                if x != b {
                    assert(lk.answered.contains(x));
                }
            }
            if lk.answered.len() > 0 {
                let s = choose|s: NodeId| #[trigger] seeds.contains(s) && lk.answered.contains(s);
                assert(seeds.contains(s) && told.answered.contains(s));
            } else {
                assert(lk.shortlist.contains(b));
                assert(seeds.contains(b) && told.answered.contains(b));
            }
            assert forall|x: NodeId| #[trigger]
                next.nodes[from].routing.neighbors.contains(x) implies known.contains(x)
                || told.answered.contains(x) by {
                if x != b {
                    assert(me.routing.neighbors.contains(x));
                }
            }
            assert forall|x: NodeId| seeds.contains(x) && #[trigger] next.is_live(x) implies told.shortlist.contains(
                x,
            ) by {
                lemma_same_registry(net, next, x);
                assert(lk.shortlist.contains(x));
            }
            assert forall|x: NodeId| #[trigger] known.contains(x) implies next.nodes[from].routing.neighbors.contains(
                x,
            ) by {
                assert(me.routing.neighbors.contains(x));
            }
            assert(settled(next, from, seeds, known, told));
            assert forall|i: int| 0 <= i < rest.len() implies told.awaits(#[trigger] rest[i]) by {
                assert(lk.awaits(rest[i]));
            }
            lemma_round_settles(next, from, seeds, known, told, rest);
        } else {
            let quiet = lk.silent(b);
            lemma_report_wf(lk, b, Seq::empty());
            lemma_without(lk.shortlist, b);
            assert(next == net);
            assert(quiet.answered == lk.answered);
            if lk.answered.len() == 0 {
                assert forall|x: NodeId| #[trigger] quiet.shortlist.contains(x) implies seeds.contains(
                    x,
                ) by {
                    assert(lk.shortlist.contains(x));
                }
            }
            assert forall|x: NodeId| seeds.contains(x) && #[trigger] net.is_live(x) implies quiet.shortlist.contains(
                x,
            ) by {
                assert(lk.shortlist.contains(x));
                assert(x != b);
            }
            assert(settled(net, from, seeds, known, quiet));
            assert forall|i: int| 0 <= i < rest.len() implies quiet.awaits(#[trigger] rest[i]) by {
                assert(lk.awaits(rest[i]));
            }
            lemma_round_settles(net, from, seeds, known, quiet, rest);
        }
    }
}

/// A lookup keeps what it has established, round after round.
pub proof fn lemma_rounds_settle<M>(
    net: NetView<M>,
    from: int,
    seeds: Seq<NodeId>,
    known: Seq<NodeId>,
    lk: LookupView,
)
    requires
        net.wf(),
        lk.wf(),
        0 <= from < net.nodes.len(),
        settled(net, from, seeds, known, lk),
    ensures
        settled(
            net.rounds(lk, from, false).0,
            from,
            seeds,
            known,
            net.rounds(lk, from, false).1,
        ),
    decreases lk.max_rounds - lk.rounds,
{
    lemma_begin_round(lk);
    let (begun, batch) = lk.begin_round();
    assert(settled(net, from, seeds, known, begun));
    if batch.len() > 0 {
        assert forall|i: int| 0 <= i < batch.len() implies begun.awaits(#[trigger] batch[i]) by {
            assert(batch.contains(batch[i]));
        }
        lemma_round_keeps(net, begun, from, batch, false);
        lemma_round_settles(net, from, seeds, known, begun, batch);
        let (next, reported, value) = net.round(begun, from, batch, false);
        assert(settled(next, from, seeds, known, reported.end_round()));
        if value is None {
            lemma_report_wf(reported, reported.origin, Seq::empty());
            lemma_rounds_settle(next, from, seeds, known, reported.end_round());
        }
    }
}

/// What a finished lookup for candidates has established.
pub proof fn lemma_lookup_settles<M>(net: NetView<M>, entry: int, target: NodeId)
    requires
        net.wf(),
        0 <= entry < net.nodes.len(),
    ensures
        settled(
            net.lookup(entry, target, false).0,
            entry,
            net.nodes[entry].routing.closest(target, net.alpha),
            net.nodes[entry].routing.neighbors,
            net.lookup(entry, target, false).1,
        ),
        net.lookup(entry, target, false).0.wf(),
        net.lookup(entry, target, false).1.wf(),
        net.lookup(entry, target, false).1.target == target,
        ids_of(net.lookup(entry, target, false).0.nodes) == ids_of(net.nodes),
        net.lookup(entry, target, false).0.nodes.len() == net.nodes.len(),
        net.lookup(entry, target, false).0.alpha == net.alpha,
        net.lookup(entry, target, false).0.k == net.k,
        net.lookup(entry, target, false).0.max_rounds == net.max_rounds,
        forall|i: int|
            0 <= i < net.nodes.len() ==> (#[trigger] net.lookup(entry, target, false).0.nodes[i]).store
                == net.nodes[i].store,
{
    let node = net.nodes[entry];
    assert(node.wf());
    let seeds = node.routing.closest(target, net.alpha);
    lemma_start_wf(node.id, target, seeds, net.alpha, node.k, net.max_rounds);
    let lk = node.begin_lookup(target, net.alpha, net.max_rounds);
    lemma_absorb(Seq::empty(), target, node.id, Seq::empty(), seeds);
    lemma_closest_to(node.routing.neighbors, target, net.alpha);
    assert forall|x: NodeId| seeds.contains(x) implies lk.shortlist.contains(x) by {
        assert(node.routing.neighbors.contains(x));
    }
    assert(settled(net, entry, seeds, node.routing.neighbors, lk));
    lemma_rounds_keep(net, lk, entry, false);
    lemma_rounds_settle(net, entry, seeds, node.routing.neighbors, lk);
}

/// What `live_first` selects: members of `candidates` that are listed in
/// `ids`, in ascending distance, no more than `copies`; and every listed
/// candidate that is left out lies farther than all that are in, which then
/// are `copies` many.
pub proof fn lemma_live_first(
    ids: Seq<NodeId>,
    candidates: Seq<NodeId>,
    target: NodeId,
    copies: nat,
)
    requires
        ascending(candidates, target),
    ensures
        ascending(live_first(ids, candidates, copies), target),
        live_first(ids, candidates, copies).len() <= copies,
        forall|x: NodeId| #[trigger]
            live_first(ids, candidates, copies).contains(x) ==> candidates.contains(x)
                && ids.contains(x),
        forall|x: NodeId|
            candidates.contains(x) && ids.contains(x) && !(#[trigger] live_first(
                ids,
                candidates,
                copies,
            ).contains(x)) ==> live_first(ids, candidates, copies).len() == copies && forall|
                h: NodeId,
            | #[trigger]
                live_first(ids, candidates, copies).contains(h) ==> h.spec_dist(&target)
                    < x.spec_dist(&target),
    decreases candidates.len(),
{
    let r = live_first(ids, candidates, copies);
    if copies > 0 && candidates.len() > 0 {
        let c = candidates[0];
        let rest = candidates.drop_first();
        assert forall|i: int| 0 <= i < rest.len() implies rest[i] == candidates[i + 1] by {}
        assert(ascending(rest, target)) by {
            assert forall|i: int, j: int| 0 <= i < j < rest.len() implies (#[trigger] rest[i]).spec_dist(
                &target,
            ) < (#[trigger] rest[j]).spec_dist(&target) by {
                assert(rest[i] == candidates[i + 1] && rest[j] == candidates[j + 1]);
            }
        }
        let left = if ids.contains(c) {
            (copies - 1) as nat
        } else {
            copies
        };
        let sub = live_first(ids, rest, left);
        lemma_live_first(ids, rest, target, left);
        assert forall|x: NodeId| rest.contains(x) implies candidates.contains(x) && c.spec_dist(
            &target,
        ) < x.spec_dist(&target) by {
            let p = choose|p: int| 0 <= p < rest.len() && rest[p] == x;
            assert(candidates[p + 1] == x);
            assert(candidates[0].spec_dist(&target) < candidates[p + 1].spec_dist(&target));
        }
        assert forall|x: NodeId| candidates.contains(x) implies x == c || rest.contains(x) by {
            let p = choose|p: int| 0 <= p < candidates.len() && candidates[p] == x;
            if p > 0 {
                assert(rest[p - 1] == x);
            }
        }
        if ids.contains(c) {
            assert(r == seq![c] + sub);
            assert(r[0] == c);
            assert forall|x: NodeId| r.contains(x) <==> (x == c || sub.contains(x)) by {
                if r.contains(x) {
                    let p = choose|p: int| 0 <= p < r.len() && r[p] == x;
                    if p > 0 {
                        assert(sub[p - 1] == x);
                    }
                }
                if sub.contains(x) {
                    let p = choose|p: int| 0 <= p < sub.len() && sub[p] == x;
                    assert(r[p + 1] == x);
                }
            }
            assert forall|i: int, j: int| 0 <= i < j < r.len() implies (#[trigger] r[i]).spec_dist(
                &target,
            ) < (#[trigger] r[j]).spec_dist(&target) by {
                assert(r[j] == sub[j - 1]);
                assert(sub.contains(sub[j - 1]));
                if i > 0 {
                    assert(r[i] == sub[i - 1]);
                }
            }
        } else {
            assert(r == sub);
        }
    }
}

/// The nearest live peer that a lookup has seen is among the `alpha`
/// neighbours nearest to the target that the peer has once it has heard from
/// everybody who answered and from the holders it has chosen.
pub proof fn lemma_closest_seen_is_near<M>(
    net: NetView<M>,
    from: int,
    known: Seq<NodeId>,
    lk: LookupView,
    alpha: nat,
    now: Seq<NodeId>,
    c: NodeId,
)
    requires
        net.wf(),
        lk.wf(),
        0 <= from < net.nodes.len(),
        settled(net, from, closest_to(known, lk.target, alpha), known, lk),
        now.no_duplicates(),
        now.contains(c),
        lk.shortlist.contains(c),
        forall|x: NodeId|
            lk.shortlist.contains(x) && #[trigger] net.is_live(x) ==> c.spec_dist(&lk.target)
                <= x.spec_dist(&lk.target),
        forall|x: NodeId| #[trigger]
            now.contains(x) ==> known.contains(x) || (lk.shortlist.contains(x) && net.is_live(x)),
    ensures
        closest_to(now, lk.target, alpha).contains(c),
        forall|y: NodeId|
            now.contains(y) && y.spec_dist(&lk.target) < c.spec_dist(&lk.target)
                ==> !#[trigger] net.is_live(y),
{
    let target = lk.target;
    let seeds = closest_to(known, target, alpha);
    let near = closest_to(now, target, alpha);
    lemma_closest_to(now, target, alpha);
    lemma_closest_to(known, target, alpha);
    lemma_arrange(now, target);
    // a seed that is no nearer than `c`
    let z = if lk.answered.len() > 0 {
        choose|s: NodeId| #[trigger] seeds.contains(s) && lk.answered.contains(s)
    } else {
        c
    };
    assert(seeds.contains(z) && c.spec_dist(&target) <= z.spec_dist(&target)) by {
        if lk.answered.len() > 0 {
            assert(lk.answered.contains(z));
            assert(lk.shortlist.contains(z));
            assert(net.is_live(z));
        }
    }
    assert forall|y: NodeId|
        now.contains(y) && y.spec_dist(&target) < c.spec_dist(&target) implies !#[trigger] net.is_live(
            y,
        ) by {
        if net.is_live(y) {
            if lk.shortlist.contains(y) {
                assert(c.spec_dist(&target) <= y.spec_dist(&target));
            }
            assert(known.contains(y));
            if !seeds.contains(y) {
                assert(z.spec_dist(&target) < y.spec_dist(&target));
            }
            assert(lk.shortlist.contains(y));
        }
    }
    if !near.contains(c) {
        assert forall|y: NodeId| near.contains(y) implies seeds.to_set().remove(z).contains(y) by {
            assert(y.spec_dist(&target) < c.spec_dist(&target));
            assert(now.contains(y));
            if lk.shortlist.contains(y) && net.is_live(y) {
                assert(c.spec_dist(&target) <= y.spec_dist(&target));
            }
            assert(known.contains(y));
            if !seeds.contains(y) {
                assert(z.spec_dist(&target) < y.spec_dist(&target));
            }
        }
        lemma_ascending_no_duplicates(near, target);
        lemma_ascending_no_duplicates(seeds, target);
        near.unique_seq_to_set();
        seeds.unique_seq_to_set();
        assert(seeds.to_set().contains(z));
        assert(near.to_set().subset_of(seeds.to_set().remove(z))) by {
            assert forall|y: NodeId| near.to_set().contains(y) implies seeds.to_set().remove(
                z,
            ).contains(y) by {
                assert(near.contains(y));
            }
        }
        lemma_len_subset(near.to_set(), seeds.to_set().remove(z));
        assert(near.len() < alpha);
        assert(near == arrange(now, target));
        assert(arrange(now, target).contains(c));
    }
}

/// Storing at holders that are live reaches each of them and touches no
/// other peer's part of the table. The entry peer comes to know the holders,
/// and nobody else.
pub proof fn lemma_store_all_reaches<M>(
    net: NetView<M>,
    entry: int,
    holders: Seq<NodeId>,
    key: u128,
    value: M,
)
    requires
        net.wf(),
        0 <= entry < net.nodes.len(),
        forall|i: int|
            0 <= i < holders.len() ==> (#[trigger] holders[i]) == net.nodes[entry].id
                || net.is_live(holders[i]),
    ensures
        net.store_all(entry, holders, key, value).wf(),
        ids_of(net.store_all(entry, holders, key, value).nodes) == ids_of(net.nodes),
        net.store_all(entry, holders, key, value).nodes.len() == net.nodes.len(),
        net.store_all(entry, holders, key, value).alpha == net.alpha,
        net.store_all(entry, holders, key, value).k == net.k,
        net.store_all(entry, holders, key, value).max_rounds == net.max_rounds,
        net.store_all(entry, holders, key, value).nodes[entry].id == net.nodes[entry].id,
        forall|x: NodeId| #[trigger]
            net.store_all(entry, holders, key, value).nodes[entry].routing.neighbors.contains(x)
                <==> net.nodes[entry].routing.neighbors.contains(x) || (holders.contains(x) && x
                != net.nodes[entry].id),
        forall|i: int|
            0 <= i < net.nodes.len() ==> (#[trigger] net.store_all(
                entry,
                holders,
                key,
                value,
            ).nodes[i]).store == if holders.contains(net.nodes[i].id) {
                net.nodes[i].store.insert(key, value)
            } else {
                net.nodes[i].store
            },
    decreases holders.len(),
{
    lemma_store_all_keeps(net, entry, holders, key, value);
    if holders.len() > 0 {
        let h = holders[0];
        let rest = holders.drop_first();
        let me = net.nodes[entry];
        let next = if h == me.id {
            net.with_node(entry, me.stored(key, value))
        } else {
            net.request(entry, h, Content::Store { key, value }).0
        };
        assert(me.wf());
        if h == me.id {
            lemma_stored_keeps(net, entry, key, value);
            assert(ids_of(next.nodes) =~= ids_of(net.nodes));
        } else {
            lemma_request(net, entry, h, Content::Store { key, value });
            assert(net.is_live(h));
            let at = net.slot(h);
            assert(at != entry);
            lemma_touch(me.routing, h);
            assert(next.nodes[entry] == me.heard(h));
        }
        assert(next.nodes[entry].id == me.id);
        assert forall|i: int| 0 <= i < rest.len() implies (#[trigger] rest[i])
            == next.nodes[entry].id || next.is_live(rest[i]) by {
            assert(rest[i] == holders[i + 1]);
            lemma_same_registry(net, next, rest[i]);
        }
        lemma_store_all_reaches(next, entry, rest, key, value);
        let last = net.store_all(entry, holders, key, value);
        assert(last == next.store_all(entry, rest, key, value));
        assert forall|x: NodeId| holders.contains(x) <==> (x == h || rest.contains(x)) by {
            if holders.contains(x) {
                let p = choose|p: int| 0 <= p < holders.len() && holders[p] == x;
                if p > 0 {
                    assert(rest[p - 1] == x);
                }
            }
            if rest.contains(x) {
                let p = choose|p: int| 0 <= p < rest.len() && rest[p] == x;
                assert(holders[p + 1] == x);
            }
            assert(holders[0] == h);
        }
        assert forall|x: NodeId| #[trigger]
            last.nodes[entry].routing.neighbors.contains(x) <==> me.routing.neighbors.contains(x)
            || (holders.contains(x) && x != me.id) by {
            assert(next.nodes[entry].routing.neighbors.contains(x) <==> me.routing.neighbors.contains(
                x,
            ) || (x == h && x != me.id));
        }
        assert forall|i: int| 0 <= i < net.nodes.len() implies (#[trigger] last.nodes[i]).store
            == if holders.contains(net.nodes[i].id) {
            net.nodes[i].store.insert(key, value)
        } else {
            net.nodes[i].store
        } by {
            let id = net.nodes[i].id;
            lemma_same_registry(net, next, id);
            lemma_slot(net, i);
            assert(next.nodes[i].id == id) by {
                lemma_slot(next, i);
                assert(ids_of(next.nodes)[i] == next.nodes[i].id);
                assert(ids_of(net.nodes)[i] == net.nodes[i].id);
            }
            if id == h {
                assert(next.nodes[i].store == net.nodes[i].store.insert(key, value));
                assert(net.nodes[i].store.insert(key, value).insert(key, value)
                    =~= net.nodes[i].store.insert(key, value));
            } else {
                assert(next.nodes[i].store == net.nodes[i].store);
            }
        }
    }
}

/// The holders of an insertion are the closest live peers that its lookup
/// has seen. Each of them is live and is a candidate, they are no more than
/// `k`, and a live candidate that is no holder lies farther from the key than
/// each of the holders, which then are `k` many. There is a holder.
pub proof fn lemma_holders_are_closest_live<M>(net: NetView<M>, entry: int, key: u128)
    requires
        net.wf(),
        0 <= entry < net.nodes.len(),
    ensures
        ascending(net.holders(entry, key), NodeId(key)),
        net.holders(entry, key).len() <= net.k,
        net.holders(entry, key).len() > 0,
        forall|h: NodeId| #[trigger]
            net.holders(entry, key).contains(h) ==> net.is_live(h) && net.candidates(
                net.nodes[entry].id,
                key,
                net.lookup(entry, NodeId(key), false).1.shortlist,
            ).contains(h),
        forall|x: NodeId|
            net.candidates(
                net.nodes[entry].id,
                key,
                net.lookup(entry, NodeId(key), false).1.shortlist,
            ).contains(x) && net.is_live(x) && !(#[trigger] net.holders(entry, key).contains(x))
                ==> net.holders(entry, key).len() == net.k && forall|h: NodeId| #[trigger]
                net.holders(entry, key).contains(h) ==> h.spec_dist(&NodeId(key)) < x.spec_dist(
                    &NodeId(key),
                ),
{
    let target = NodeId(key);
    lemma_lookup_settles(net, entry, target);
    let lk = net.lookup(entry, target, false).1;
    let me = net.nodes[entry].id;
    let ids = ids_of(net.nodes);
    let all = net.candidates(me, key, lk.shortlist);
    lemma_insert_sorted(lk.shortlist, target, me);
    lemma_live_first(ids, all, target, net.k);
    let chosen = net.holders(entry, key);
    assert(chosen == live_first(ids, all, net.k));
    assert forall|h: NodeId| #[trigger] chosen.contains(h) implies net.is_live(h) && all.contains(
        h,
    ) by {
        lemma_ids_live(net, h);
    }
    assert forall|x: NodeId|
        all.contains(x) && net.is_live(x) && !(#[trigger] chosen.contains(x)) implies chosen.len()
        == net.k && forall|h: NodeId| #[trigger]
        chosen.contains(h) ==> h.spec_dist(&target) < x.spec_dist(&target) by {
        lemma_ids_live(net, x);
    }
    if net.k > 0 {
        lemma_slot(net, entry);
        lemma_ids_live(net, me);
        assert(all.contains(me));
        if !chosen.contains(me) {
            assert(chosen.len() == net.k);
        } else {
            let p = choose|p: int| 0 <= p < chosen.len() && chosen[p] == me;
        }
    }
}

/// An insertion reaches the holders it has chosen. After `value` was stored
/// under `key` through the peer at index `entry`, every chosen holder is live
/// and keeps `value` under `key`, and every other peer keeps what it kept.
pub proof fn lemma_insert_reaches_holders<M>(net: NetView<M>, entry: int, key: u128, value: M)
    requires
        net.wf(),
        0 <= entry < net.nodes.len(),
    ensures
        net.insert_at(entry, key, value).wf(),
        ids_of(net.insert_at(entry, key, value).nodes) == ids_of(net.nodes),
        net.insert_at(entry, key, value).nodes.len() == net.nodes.len(),
        net.insert_at(entry, key, value).alpha == net.alpha,
        net.insert_at(entry, key, value).k == net.k,
        net.insert_at(entry, key, value).max_rounds == net.max_rounds,
        net.holders(entry, key).len() > 0,
        forall|h: NodeId| #[trigger]
            net.holders(entry, key).contains(h) ==> holds(
                net.insert_at(entry, key, value),
                h,
                key,
                value,
            ),
        forall|i: int|
            0 <= i < net.nodes.len() ==> (#[trigger] net.insert_at(entry, key, value).nodes[i]).store
                == if net.holders(entry, key).contains(net.nodes[i].id) {
                net.nodes[i].store.insert(key, value)
            } else {
                net.nodes[i].store
            },
{
    let target = NodeId(key);
    lemma_lookup_settles(net, entry, target);
    lemma_holders_are_closest_live(net, entry, key);
    let (found, lk, _) = net.lookup(entry, target, false);
    let me = net.nodes[entry].id;
    let chosen = net.holders(entry, key);
    assert(found.nodes[entry].id == me) by {
        assert(ids_of(found.nodes)[entry] == found.nodes[entry].id);
        assert(ids_of(net.nodes)[entry] == net.nodes[entry].id);
    }
    assert forall|i: int| 0 <= i < chosen.len() implies (#[trigger] chosen[i]) == me
        || found.is_live(chosen[i]) by {
        assert(chosen.contains(chosen[i]));
        lemma_same_registry(net, found, chosen[i]);
    }
    lemma_store_all_reaches(found, entry, chosen, key, value);
    let after = net.insert_at(entry, key, value);
    assert(after == found.store_all(entry, chosen, key, value));
    assert forall|i: int| 0 <= i < net.nodes.len() implies (#[trigger] after.nodes[i]).store
        == if chosen.contains(net.nodes[i].id) {
        net.nodes[i].store.insert(key, value)
    } else {
        net.nodes[i].store
    } by {
        assert(ids_of(found.nodes)[i] == found.nodes[i].id);
        assert(ids_of(net.nodes)[i] == net.nodes[i].id);
        assert(found.nodes[i].store == net.nodes[i].store);
    }
    assert forall|h: NodeId| #[trigger] chosen.contains(h) implies holds(after, h, key, value) by {
        lemma_same_registry(net, after, h);
        assert(net.is_live(h));
        let at = net.slot(h);
        assert(net.nodes[at].id == h);
        assert(after.nodes[at].store == net.nodes[at].store.insert(key, value));
    }
}

/// Whether no copy is left behind that differs: every live peer that keeps
/// under `key` anything but `value` is among the holders that an insertion
/// through the peer at index `entry` chooses, and so gets `value`.
pub open spec fn no_stale_copy<M>(net: NetView<M>, entry: int, key: u128, value: M) -> bool {
    forall|i: int|
        0 <= i < net.nodes.len() && (#[trigger] net.nodes[i]).store.contains_key(key)
            && net.nodes[i].store[key] != value ==> net.holders(entry, key).contains(
            net.nodes[i].id,
        )
}

/// After an insertion that leaves no differing copy behind, all live copies
/// agree on the inserted value.
pub proof fn lemma_insert_agrees<M>(net: NetView<M>, entry: int, key: u128, value: M)
    requires
        net.wf(),
        0 <= entry < net.nodes.len(),
        no_stale_copy(net, entry, key, value),
    ensures
        net.insert_at(entry, key, value).wf(),
        ids_of(net.insert_at(entry, key, value).nodes) == ids_of(net.nodes),
        net.insert_at(entry, key, value).nodes.len() == net.nodes.len(),
        agrees(net.insert_at(entry, key, value), key, value),
{
    lemma_insert_reaches_holders(net, entry, key, value);
    let after = net.insert_at(entry, key, value);
    lemma_same_registry(net, after, net.nodes[entry].id);
    assert forall|i: int|
        0 <= i < after.nodes.len() && (#[trigger] after.nodes[i]).store.contains_key(
            key,
        ) implies after.nodes[i].store[key] == value by {
        if !net.holders(entry, key).contains(net.nodes[i].id) {
            assert(net.nodes[i].store.contains_key(key));
        }
    }
}


/// Of the peers that a peer would ask first after its insertion, those that
/// are nearer to the key than the peer itself are gone, if no live peer that
/// its lookup has seen is nearer than it.
pub proof fn lemma_nearer_seeds_are_gone<M>(
    net: NetView<M>,
    from: int,
    known: Seq<NodeId>,
    lk: LookupView,
    alpha: nat,
    now: Seq<NodeId>,
    me: NodeId,
)
    requires
        net.wf(),
        lk.wf(),
        0 <= from < net.nodes.len(),
        settled(net, from, closest_to(known, lk.target, alpha), known, lk),
        known.no_duplicates(),
        now.no_duplicates(),
        forall|x: NodeId| known.contains(x) ==> #[trigger] now.contains(x),
        forall|x: NodeId| #[trigger]
            now.contains(x) ==> known.contains(x) || (lk.shortlist.contains(x) && net.is_live(x)),
        forall|x: NodeId|
            lk.shortlist.contains(x) && #[trigger] net.is_live(x) ==> me.spec_dist(&lk.target)
                < x.spec_dist(&lk.target),
    ensures
        forall|y: NodeId|
            closest_to(now, lk.target, alpha).contains(y) && y.spec_dist(&lk.target) < me.spec_dist(
                &lk.target,
            ) ==> !#[trigger] net.is_live(y),
{
    let target = lk.target;
    let seeds = closest_to(known, target, alpha);
    let near = closest_to(now, target, alpha);
    lemma_closest_to(now, target, alpha);
    lemma_closest_to(known, target, alpha);
    lemma_arrange(known, target);
    assert forall|y: NodeId|
        near.contains(y) && y.spec_dist(&target) < me.spec_dist(&target) implies !#[trigger] net.is_live(
            y,
        ) by {
        if net.is_live(y) {
            assert(now.contains(y));
            assert(known.contains(y));
            if seeds.contains(y) {
                assert(lk.shortlist.contains(y));
            }
            // `y` is known and no seed: the seeds are `alpha` many, all nearer than `y`
            if seeds.len() < alpha {
                assert(seeds == arrange(known, target));
                assert(arrange(known, target).contains(y));
            }
            assert forall|x: NodeId| seeds.contains(x) implies near.contains(x) by {
                assert(x.spec_dist(&target) < y.spec_dist(&target));
                assert(now.contains(x));
            }
            lemma_ascending_no_duplicates(near, target);
            lemma_ascending_no_duplicates(seeds, target);
            near.unique_seq_to_set();
            seeds.unique_seq_to_set();
            let more = seeds.to_set().insert(y);
            assert(!seeds.to_set().contains(y));
            assert(more.subset_of(near.to_set())) by {
                assert forall|x: NodeId| more.contains(x) implies near.to_set().contains(x) by {
                    if x != y {
                        assert(seeds.contains(x));
                    }
                }
            }
            lemma_len_subset(more, near.to_set());
            assert(false);
        }
    }
}

/// After an insertion through a peer, the value is in line for that peer.
/// If the nearest live peer that its lookup has seen is another peer, that
/// peer keeps the value, is nearer to the key than the entry peer, and every
/// peer that the entry peer would ask before it is gone. Otherwise the entry
/// peer keeps the value itself, and every peer it would ask that is nearer to
/// the key is gone.
pub proof fn lemma_insert_in_line<M>(net: NetView<M>, entry: int, key: u128, value: M)
    requires
        net.wf(),
        0 <= entry < net.nodes.len(),
    ensures
        in_line(net.insert_at(entry, key, value), entry, key, value),
{
    let target = NodeId(key);
    lemma_lookup_settles(net, entry, target);
    lemma_holders_are_closest_live(net, entry, key);
    lemma_insert_reaches_holders(net, entry, key, value);
    let (found, lk, _) = net.lookup(entry, target, false);
    let me = net.nodes[entry].id;
    let known = net.nodes[entry].routing.neighbors;
    let chosen = net.holders(entry, key);
    let all = net.candidates(me, key, lk.shortlist);
    let after = net.insert_at(entry, key, value);
    lemma_same_registry(net, after, me);
    lemma_insert_sorted(lk.shortlist, target, me);
    lemma_slot(net, entry);
    assert(net.nodes[entry].wf());
    let c = chosen[0];
    assert(chosen.contains(c));
    assert(found.nodes[entry].id == me) by {
        assert(ids_of(found.nodes)[entry] == found.nodes[entry].id);
        assert(ids_of(net.nodes)[entry] == net.nodes[entry].id);
    }
    assert forall|i: int| 0 <= i < chosen.len() implies (#[trigger] chosen[i]) == me
        || found.is_live(chosen[i]) by {
        assert(chosen.contains(chosen[i]));
        lemma_same_registry(net, found, chosen[i]);
    }
    lemma_store_all_reaches(found, entry, chosen, key, value);
    let node = after.nodes[entry];
    let now = node.routing.neighbors;
    assert(node.wf());
    assert(node.id == me);
    // no live peer that the lookup has seen is nearer than `c`
    assert forall|x: NodeId|
        lk.shortlist.contains(x) && #[trigger] found.is_live(x) implies c.spec_dist(&target)
        <= x.spec_dist(&target) && (c == me ==> me.spec_dist(&target) < x.spec_dist(&target)) by {
        lemma_same_registry(net, found, x);
        assert(all.contains(x));
        assert(x != me);
        if chosen.contains(x) {
            let p = choose|p: int| 0 <= p < chosen.len() && chosen[p] == x;
            if p > 0 {
                assert(chosen[0].spec_dist(&target) < chosen[p].spec_dist(&target));
            }
        }
    }
    assert forall|x: NodeId| #[trigger] now.contains(x) implies known.contains(x) || (
    lk.shortlist.contains(x) && found.is_live(x)) by {
        if found.nodes[entry].routing.neighbors.contains(x) {
            if lk.answered.contains(x) {
                assert(lk.shortlist.contains(x));
            }
        } else {
            assert(chosen.contains(x) && x != me);
            lemma_same_registry(net, found, x);
            assert(all.contains(x));
        }
    }
    let seeds = node.routing.closest(target, after.alpha);
    lemma_closest_to(now, target, after.alpha);
    lemma_start_wf(me, target, seeds, after.alpha, node.k, after.max_rounds);
    let start = node.begin_lookup(target, after.alpha, after.max_rounds);
    lemma_absorb(Seq::empty(), target, me, Seq::empty(), seeds);
    if c == me {
        assert forall|x: NodeId| known.contains(x) implies #[trigger] now.contains(x) by {
            assert(found.nodes[entry].routing.neighbors.contains(x));
        }
        lemma_nearer_seeds_are_gone(found, entry, known, lk, net.alpha, now, me);
        assert(holds(after, me, key, value));
        assert(after.slot(me) == entry) by {
            lemma_slot(after, entry);
        }
        assert forall|i: int|
            0 <= i < start.shortlist.len() && (#[trigger] start.shortlist[i]).spec_dist(
                &start.target,
            ) < after.nodes[entry].id.spec_dist(&start.target) implies !after.is_live(
            start.shortlist[i],
        ) by {
            let y = start.shortlist[i];
            assert(start.shortlist.contains(y));
            assert(seeds.contains(y));
            lemma_same_registry(net, found, y);
            lemma_same_registry(net, after, y);
        }
        assert(own_first(after, start, entry, key, value));
    } else {
        assert(lk.shortlist.contains(c));
        assert(holds(after, c, key, value));
        lemma_closest_seen_is_near(found, entry, known, lk, net.alpha, now, c);
        assert(seeds.contains(c));
        assert(start.shortlist.contains(c));
        let j = choose|j: int| 0 <= j < start.shortlist.len() && start.shortlist[j] == c;
        assert(holds(after, start.shortlist[j], key, value));
        assert forall|i: int| 0 <= i < j implies !after.is_live(#[trigger] start.shortlist[i]) by {
            let y = start.shortlist[i];
            assert(start.shortlist.contains(y));
            assert(seeds.contains(y));
            assert(now.contains(y));
            assert(y.spec_dist(&target) < c.spec_dist(&target));
            lemma_same_registry(net, found, y);
            lemma_same_registry(net, after, y);
        }
        assert(start.shortlist.len() <= net.alpha);
        assert(start.room() > 0);
        assert(j < start.room() || j < after.max_rounds);
        assert(comes_to(after, start, key, value, j));
        // the entry peer is live and a candidate, so it is no nearer than `c`
        assert(c.spec_dist(&target) < me.spec_dist(&target)) by {
            assert(all.contains(me));
            assert(net.is_live(me));
            if chosen.contains(me) {
                let p = choose|p: int| 0 <= p < chosen.len() && chosen[p] == me;
                assert(chosen[0].spec_dist(&target) < chosen[p].spec_dist(&target));
            }
        }
        assert(comes_first(after, start, entry, j));
    }
}


/// Round trip. A value that is stored under a key through a peer is
/// returned by a retrieval of that key through the same peer, whatever that
/// peer or other peers kept under the key before.
pub proof fn lemma_round_trip<M>(net: NetView<M>, entry: int, key: u128, value: M)
    requires
        net.wf(),
        0 <= entry < net.nodes.len(),
    ensures
        net.insert_at(entry, key, value).get_at(entry, key).1 == Some(value),
{
    lemma_insert_reaches_holders(net, entry, key, value);
    lemma_insert_in_line(net, entry, key, value);
    lemma_line_finds(net.insert_at(entry, key, value), entry, key, value);
}

/// A later insertion overwrites an earlier one, for the peer that made it.
/// After two insertions under one key through the same peer, a retrieval
/// through that peer returns the value of the second.
pub proof fn lemma_later_insertion_wins<M>(
    net: NetView<M>,
    entry: int,
    key: u128,
    first: M,
    second: M,
)
    requires
        net.wf(),
        0 <= entry < net.nodes.len(),
    ensures
        net.insert_at(entry, key, first).insert_at(entry, key, second).get_at(entry, key).1
            == Some(second),
{
    lemma_insert_reaches_holders(net, entry, key, first);
    lemma_round_trip(net.insert_at(entry, key, first), entry, key, second);
}

/// Round trip through another peer, for copies within reach. Once a value
/// is stored under a key through one peer, and no differing copy was left
/// behind, a retrieval through any peer that has a copy within reach, at
/// itself or at a live peer that it asks in its first round, returns that
/// value.
pub proof fn lemma_round_trip_within_reach<M>(
    net: NetView<M>,
    stored_at: int,
    asked_at: int,
    key: u128,
    value: M,
)
    requires
        net.wf(),
        0 <= stored_at < net.nodes.len(),
        0 <= asked_at < net.nodes.len(),
        no_stale_copy(net, stored_at, key, value),
        within_reach(net.insert_at(stored_at, key, value), asked_at, key),
    ensures
        net.insert_at(stored_at, key, value).get_at(asked_at, key).1 == Some(value),
{
    lemma_insert_agrees(net, stored_at, key, value);
    lemma_same_registry(net, net.insert_at(stored_at, key, value), net.nodes[stored_at].id);
    lemma_reach_finds(net.insert_at(stored_at, key, value), asked_at, key, value);
}

/// Round trip through another peer, for copies in line. Once a value is
/// stored under a key through one peer, a retrieval through any peer that has
/// the value in line returns it, in whichever round its lookup comes to the
/// copy, and whatever other peers keep.
pub proof fn lemma_round_trip_in_line<M>(
    net: NetView<M>,
    stored_at: int,
    asked_at: int,
    key: u128,
    value: M,
)
    requires
        net.wf(),
        0 <= stored_at < net.nodes.len(),
        0 <= asked_at < net.nodes.len(),
        in_line(net.insert_at(stored_at, key, value), asked_at, key, value),
    ensures
        net.insert_at(stored_at, key, value).get_at(asked_at, key).1 == Some(value),
{
    lemma_insert_reaches_holders(net, stored_at, key, value);
    lemma_line_finds(net.insert_at(stored_at, key, value), asked_at, key, value);
}

/// Round trip under churn. After a value was stored under a key through a
/// peer, the removal of another peer that keeps no copy does not change what
/// a retrieval through the first peer returns: it is the stored value.
pub proof fn lemma_round_trip_survives_removal<M>(
    net: NetView<M>,
    entry: int,
    gone: int,
    key: u128,
    value: M,
)
    requires
        net.wf(),
        0 <= entry < net.nodes.len(),
        0 <= gone < net.nodes.len(),
        gone != entry,
        !net.insert_at(entry, key, value).nodes[gone].store.contains_key(key),
    ensures
        net.insert_at(entry, key, value).get_at(entry, key).1 == Some(value),
        net.insert_at(entry, key, value).kill_at(gone).get_at(
            if entry < gone {
                entry
            } else {
                entry - 1
            },
            key,
        ).1 == Some(value),
{
    lemma_insert_reaches_holders(net, entry, key, value);
    lemma_insert_in_line(net, entry, key, value);
    let after = net.insert_at(entry, key, value);
    lemma_removal_keeps_line(after, gone, entry, key, value);
}

} // verus!
