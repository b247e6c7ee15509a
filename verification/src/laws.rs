//! What holds of the network as a whole: where a stored value can be found
//! again, and what the removal of a peer leaves untouched.

use vstd::prelude::*;
use crate::closest::{
    arrange, lemma_arrange, lemma_ascending_no_duplicates, lemma_closest_to, lemma_rank_counts,
    rank,
};
use crate::ident::NodeId;
use crate::lookup::{
    lemma_absorb, lemma_begin_round, lemma_report_wf, lemma_start_wf, lemma_unasked_all,
    lemma_unasked_none, LookupView,
};
use crate::message::Content;
use crate::network::{
    ids_of, lemma_fetch_keeps, lemma_kill_wf, lemma_request, lemma_request_keeps_stores,
    lemma_round_keeps, lemma_rounds_keep, listed, question, NetView,
};

verus! {

/// Whether the peer named `id` is live and keeps `value` under `key`.
pub open spec fn holds<M>(net: NetView<M>, id: NodeId, key: u128, value: M) -> bool {
    &&& net.is_live(id)
    &&& net.nodes[net.slot(id)].store.contains_key(key)
    &&& net.nodes[net.slot(id)].store[key] == value
}

/// Whether every live peer that keeps anything under `key` keeps `value`.
pub open spec fn agrees<M>(net: NetView<M>, key: u128, value: M) -> bool {
    forall|i: int|
        0 <= i < net.nodes.len() && (#[trigger] net.nodes[i]).store.contains_key(key)
            ==> net.nodes[i].store[key] == value
}

/// Whom the peer at index `entry` asks in the first round of a lookup for
/// `key`: the `alpha` peers closest to `key` that it knows.
pub open spec fn first_batch<M>(net: NetView<M>, entry: int, key: u128) -> Seq<NodeId> {
    net.nodes[entry].begin_lookup(NodeId(key), net.alpha, net.max_rounds).begin_round().1
}

/// Whether a retrieval of `key` through the peer at index `entry` meets a
/// copy at once: at the entry peer itself, or at a live peer that the entry
/// peer asks in its first round.
pub open spec fn within_reach<M>(net: NetView<M>, entry: int, key: u128) -> bool {
    ||| net.nodes[entry].store.contains_key(key)
    ||| exists|j: int|
        0 <= j < first_batch(net, entry, key).len() && net.is_live(
            #[trigger] first_batch(net, entry, key)[j],
        ) && net.nodes[net.slot(first_batch(net, entry, key)[j])].store.contains_key(key)
}

/// In a well-formed network an identifier names at most one peer.
pub proof fn lemma_slot<M>(net: NetView<M>, i: int)
    requires
        net.wf(),
        0 <= i < net.nodes.len(),
    ensures
        net.is_live(net.nodes[i].id),
        net.slot(net.nodes[i].id) == i,
{
    let id = net.nodes[i].id;
    let s = net.slot(id);
    if s < i {
        assert(net.nodes[s].id != net.nodes[i].id);
    } else if s > i {
        assert(net.nodes[i].id != net.nodes[s].id);
    }
}

/// Two networks with the same registry have the same live peers at the same
/// indices.
pub proof fn lemma_same_registry<M>(a: NetView<M>, b: NetView<M>, id: NodeId)
    requires
        a.wf(),
        ids_of(a.nodes) == ids_of(b.nodes),
    ensures
        a.is_live(id) == b.is_live(id),
        a.is_live(id) ==> a.slot(id) == b.slot(id),
        a.nodes.len() == b.nodes.len(),
{
    assert(a.nodes.len() == ids_of(a.nodes).len());
    assert(b.nodes.len() == ids_of(b.nodes).len());
    assert forall|i: int| 0 <= i < a.nodes.len() implies (#[trigger] a.nodes[i]).id
        == b.nodes[i].id by {
        assert(ids_of(a.nodes)[i] == a.nodes[i].id);
        assert(ids_of(b.nodes)[i] == b.nodes[i].id);
    }
    if a.is_live(id) {
        let s = a.slot(id);
        assert(b.nodes[s].id == id);
        let t = b.slot(id);
        assert(a.nodes[t].id == b.nodes[t].id);
        lemma_slot(a, s);
        lemma_slot(a, t);
    }
    if b.is_live(id) {
        let t = b.slot(id);
        assert(a.nodes[t].id == b.nodes[t].id);
    }
}

/// Whether some live peer keeps `value` under `key`.
pub open spec fn kept_somewhere<M>(net: NetView<M>, key: u128, value: M) -> bool {
    exists|i: int|
        0 <= i < net.nodes.len() && (#[trigger] net.nodes[i]).store.contains_key(key)
            && net.nodes[i].store[key] == value
}

/// A round of a lookup brings back only what some live peer keeps under the
/// key.
pub proof fn lemma_round_is_sound<M>(
    net: NetView<M>,
    lk: LookupView,
    from: int,
    batch: Seq<NodeId>,
    key: u128,
)
    requires
        net.wf(),
        lk.wf(),
        0 <= from < net.nodes.len(),
        lk.target == NodeId(key),
    ensures
        net.round(lk, from, batch, true).2 matches Some(v) ==> kept_somewhere(net, key, v),
    decreases batch.len(),
{
    if batch.len() > 0 {
        let ask = question::<M>(lk.target, true);
        let (next, answer) = net.request(from, batch[0], ask);
        lemma_request(net, from, batch[0], ask);
        lemma_request_keeps_stores(net, from, batch[0], ask);
        match answer {
            None => {
                lemma_report_wf(lk, batch[0], Seq::empty());
                lemma_round_is_sound(next, lk.silent(batch[0]), from, batch.drop_first(), key);
            },
            Some(Content::Found(v)) => {
                let at = net.slot(batch[0]);
                assert(net.nodes[at].store.contains_key(key) && net.nodes[at].store[key] == v);
            },
            Some(a) => {
                lemma_report_wf(lk, batch[0], listed(a));
                let told = lk.answered_by(batch[0], listed(a));
                lemma_round_is_sound(next, told, from, batch.drop_first(), key);
                if let Some(v) = next.round(told, from, batch.drop_first(), true).2 {
                    let i = choose|i: int|
                        0 <= i < next.nodes.len() && (#[trigger] next.nodes[i]).store.contains_key(
                            key,
                        ) && next.nodes[i].store[key] == v;
                    assert(net.nodes[i].store == next.nodes[i].store);
                }
            },
        }
    }
}

/// A lookup brings back only what some live peer keeps under the key.
pub proof fn lemma_rounds_are_sound<M>(net: NetView<M>, lk: LookupView, from: int, key: u128)
    requires
        net.wf(),
        lk.wf(),
        0 <= from < net.nodes.len(),
        lk.target == NodeId(key),
    ensures
        net.rounds(lk, from, true).2 matches Some(v) ==> kept_somewhere(net, key, v),
    decreases lk.max_rounds - lk.rounds,
{
    lemma_begin_round(lk);
    let (begun, batch) = lk.begin_round();
    if batch.len() > 0 {
        lemma_round_is_sound(net, begun, from, batch, key);
        lemma_round_keeps(net, begun, from, batch, true);
        let (next, told, value) = net.round(begun, from, batch, true);
        if value is None {
            lemma_report_wf(told, told.origin, Seq::empty());
            lemma_rounds_are_sound(next, told.end_round(), from, key);
            if let Some(v) = next.rounds(told.end_round(), from, true).2 {
                let i = choose|i: int|
                    0 <= i < next.nodes.len() && (#[trigger] next.nodes[i]).store.contains_key(key)
                        && next.nodes[i].store[key] == v;
                assert(net.nodes[i].store == next.nodes[i].store);
            }
        }
    }
}

/// A retrieval, from whatever state of its lookup, brings back only what
/// some live peer keeps under the key.
pub proof fn lemma_fetch_is_sound<M>(net: NetView<M>, lk: LookupView, from: int, key: u128)
    requires
        net.wf(),
        lk.wf(),
        0 <= from < net.nodes.len(),
        lk.target == NodeId(key),
    ensures
        net.fetch(lk, from, key).1 matches Some(v) ==> kept_somewhere(net, key, v),
    decreases lk.max_rounds - lk.rounds,
{
    lemma_begin_round(lk);
    let (begun, batch) = lk.begin_round();
    let mine = net.nodes[from].store;
    if mine.contains_key(key) {
        assert(net.nodes[from].store.contains_key(key) && net.nodes[from].store[key] == mine[key]);
    }
    if batch.len() > 0 {
        let near = net.before_own(from, batch, key);
        lemma_rank_counts(batch, NodeId(key), net.nodes[from].id);
        lemma_round_is_sound(net, begun, from, near, key);
        lemma_round_keeps(net, begun, from, near, true);
        let (next, told, value) = net.round(begun, from, near, true);
        if value is None && !(near.len() < batch.len()) {
            lemma_report_wf(told, told.origin, Seq::empty());
            lemma_fetch_is_sound(next, told.end_round(), from, key);
            if let Some(v) = next.fetch(told.end_round(), from, key).1 {
                let i = choose|i: int|
                    0 <= i < next.nodes.len() && (#[trigger] next.nodes[i]).store.contains_key(key)
                        && next.nodes[i].store[key] == v;
                assert(net.nodes[i].store == next.nodes[i].store);
            }
        }
    }
}

/// A retrieval invents nothing, and it changes no peer's part of the table.
/// Whatever it returns under `key` is kept under `key` by some live peer.
pub proof fn lemma_get_is_sound<M>(net: NetView<M>, entry: int, key: u128)
    requires
        net.wf(),
        0 <= entry < net.nodes.len(),
    ensures
        net.get_at(entry, key).1 matches Some(v) ==> kept_somewhere(net, key, v),
        net.get_at(entry, key).0.wf(),
        ids_of(net.get_at(entry, key).0.nodes) == ids_of(net.nodes),
        net.get_at(entry, key).0.nodes.len() == net.nodes.len(),
        forall|i: int|
            0 <= i < net.nodes.len() ==> (#[trigger] net.get_at(entry, key).0.nodes[i]).store
                == net.nodes[i].store,
{
    let node = net.nodes[entry];
    assert(node.wf());
    let target = NodeId(key);
    lemma_start_wf(
        node.id,
        target,
        node.routing.closest(target, net.alpha),
        net.alpha,
        node.k,
        net.max_rounds,
    );
    let lk = node.begin_lookup(target, net.alpha, net.max_rounds);
    lemma_fetch_is_sound(net, lk, entry, key);
    lemma_fetch_keeps(net, lk, entry, key);
}

/// A peer that keeps a copy itself gets a value back from its retrieval.
pub proof fn lemma_fetch_with_own<M>(net: NetView<M>, lk: LookupView, from: int, key: u128)
    requires
        net.wf(),
        lk.wf(),
        0 <= from < net.nodes.len(),
        net.nodes[from].store.contains_key(key),
    ensures
        net.fetch(lk, from, key).1 is Some,
    decreases lk.max_rounds - lk.rounds,
{
    lemma_begin_round(lk);
    let (begun, batch) = lk.begin_round();
    if batch.len() > 0 {
        let near = net.before_own(from, batch, key);
        lemma_rank_counts(batch, NodeId(key), net.nodes[from].id);
        lemma_round_keeps(net, begun, from, near, true);
        let (next, told, value) = net.round(begun, from, near, true);
        if value is None && !(near.len() < batch.len()) {
            lemma_report_wf(told, told.origin, Seq::empty());
            assert(next.nodes[from].store == net.nodes[from].store);
            lemma_fetch_with_own(next, told.end_round(), from, key);
        }
    }
}

/// The retrieval of a peer that keeps no copy itself is its lookup for the
/// value.
pub proof fn lemma_fetch_without_own<M>(net: NetView<M>, lk: LookupView, from: int, key: u128)
    requires
        net.wf(),
        lk.wf(),
        0 <= from < net.nodes.len(),
        !net.nodes[from].store.contains_key(key),
    ensures
        net.fetch(lk, from, key) == (net.rounds(lk, from, true).0, net.rounds(lk, from, true).2),
    decreases lk.max_rounds - lk.rounds,
{
    lemma_begin_round(lk);
    let (begun, batch) = lk.begin_round();
    if batch.len() > 0 {
        lemma_round_keeps(net, begun, from, batch, true);
        let (next, told, value) = net.round(begun, from, batch, true);
        if value is None {
            lemma_report_wf(told, told.origin, Seq::empty());
            assert(next.nodes[from].store == net.nodes[from].store);
            lemma_fetch_without_own(next, told.end_round(), from, key);
        }
    }
}


/// Whether the peer named `id` is live and keeps something under `key`.
pub open spec fn keeps<M>(net: NetView<M>, id: NodeId, key: u128) -> bool {
    net.is_live(id) && net.nodes[net.slot(id)].store.contains_key(key)
}

/// A request that stores nothing leaves every peer keeping what it kept.
pub proof fn lemma_request_keeps_copies<M>(
    net: NetView<M>,
    from: int,
    to: NodeId,
    request: Content<M>,
    key: u128,
)
    requires
        net.wf(),
        0 <= from < net.nodes.len(),
        !(request is Store),
    ensures
        forall|x: NodeId| #[trigger]
            keeps(net.request(from, to, request).0, x, key) <==> keeps(net, x, key),
{
    let next = net.request(from, to, request).0;
    lemma_request(net, from, to, request);
    lemma_request_keeps_stores(net, from, to, request);
    assert forall|x: NodeId| #[trigger] keeps(next, x, key) <==> keeps(net, x, key) by {
        lemma_same_registry(net, next, x);
        if net.is_live(x) {
            assert(next.nodes[net.slot(x)].store == net.nodes[net.slot(x)].store);
        }
    }
}

/// A round of a lookup for a value brings one back exactly when it asks a
/// live peer that keeps one.
pub proof fn lemma_round_finds_exactly<M>(
    net: NetView<M>,
    lk: LookupView,
    from: int,
    batch: Seq<NodeId>,
    key: u128,
)
    requires
        net.wf(),
        lk.wf(),
        0 <= from < net.nodes.len(),
        lk.target == NodeId(key),
    ensures
        net.round(lk, from, batch, true).1.asked == lk.asked,
        net.round(lk, from, batch, true).2 is Some <==> exists|i: int|
            0 <= i < batch.len() && keeps(net, #[trigger] batch[i], key),
        forall|x: NodeId| #[trigger]
            keeps(net.round(lk, from, batch, true).0, x, key) <==> keeps(net, x, key),
    decreases batch.len(),
{
    if batch.len() > 0 {
        let ask = question::<M>(lk.target, true);
        let rest = batch.drop_first();
        let (next, answer) = net.request(from, batch[0], ask);
        lemma_request(net, from, batch[0], ask);
        lemma_request_keeps_copies(net, from, batch[0], ask, key);
        assert forall|i: int| 0 <= i < rest.len() implies rest[i] == batch[i + 1] by {}
        if keeps(net, batch[0], key) {
            assert(answer is Some && answer->Some_0 is Found);
        } else {
            let told = match answer {
                None => lk.silent(batch[0]),
                Some(a) => lk.answered_by(batch[0], listed(a)),
            };
            match answer {
                None => {
                    lemma_report_wf(lk, batch[0], Seq::empty());
                },
                Some(a) => {
                    assert(!(a is Found));
                    lemma_report_wf(lk, batch[0], listed(a));
                },
            }
            lemma_round_finds_exactly(next, told, from, rest, key);
            let found = net.round(lk, from, batch, true).2 is Some;
            if found {
                let i = choose|i: int| 0 <= i < rest.len() && keeps(next, #[trigger] rest[i], key);
                assert(keeps(net, batch[i + 1], key));
            }
            if exists|i: int| 0 <= i < batch.len() && keeps(net, #[trigger] batch[i], key) {
                let i = choose|i: int| 0 <= i < batch.len() && keeps(net, #[trigger] batch[i], key);
                assert(i > 0);
                assert(keeps(next, rest[i - 1], key));
            }
        }
    }
}

/// A lookup for a value brings one back exactly when it asks a live peer
/// that keeps one, in whichever round.
pub proof fn lemma_rounds_find_exactly<M>(net: NetView<M>, lk: LookupView, from: int, key: u128)
    requires
        net.wf(),
        lk.wf(),
        0 <= from < net.nodes.len(),
        lk.target == NodeId(key),
    ensures
        net.rounds(lk, from, true).2 is Some <==> exists|x: NodeId|
            #![trigger keeps(net, x, key)]
            net.rounds(lk, from, true).1.asked.contains(x) && !lk.asked.contains(x) && keeps(
                net,
                x,
                key,
            ),
        forall|x: NodeId|
            lk.asked.contains(x) ==> #[trigger] net.rounds(lk, from, true).1.asked.contains(x),
    decreases lk.max_rounds - lk.rounds,
{
    lemma_begin_round(lk);
    let (begun, batch) = lk.begin_round();
    let last = net.rounds(lk, from, true).1;
    if batch.len() > 0 {
        lemma_round_finds_exactly(net, begun, from, batch, key);
        lemma_round_keeps(net, begun, from, batch, true);
        let (next, told, value) = net.round(begun, from, batch, true);
        assert(told.asked == lk.asked + batch);
        assert forall|x: NodeId| lk.asked.contains(x) implies told.asked.contains(x) by {
            let p = choose|p: int| 0 <= p < lk.asked.len() && lk.asked[p] == x;
            assert(told.asked[p] == x);
        }
        assert forall|i: int| 0 <= i < batch.len() implies told.asked.contains(
            #[trigger] batch[i],
        ) && !lk.asked.contains(batch[i]) by {
            assert(told.asked[lk.asked.len() + i] == batch[i]);
            assert(batch.contains(batch[i]));
        }
        if value is Some {
            let i = choose|i: int| 0 <= i < batch.len() && keeps(net, #[trigger] batch[i], key);
            assert(last.asked.contains(batch[i]) && !lk.asked.contains(batch[i]) && keeps(
                net,
                batch[i],
                key,
            ));
        } else {
            lemma_report_wf(told, told.origin, Seq::empty());
            let ended = told.end_round();
            lemma_rounds_find_exactly(next, ended, from, key);
            assert(last == next.rounds(ended, from, true).1);
            assert forall|x: NodeId| lk.asked.contains(x) implies #[trigger] last.asked.contains(
                x,
            ) by {
                assert(ended.asked.contains(x));
            }
            if net.rounds(lk, from, true).2 is Some {
                let x = choose|x: NodeId|
                    #![trigger keeps(next, x, key)]
                    last.asked.contains(x) && !ended.asked.contains(x) && keeps(next, x, key);
                assert(keeps(net, x, key));
                assert(!lk.asked.contains(x));
            }
            if exists|x: NodeId|
                #![trigger keeps(net, x, key)]
                last.asked.contains(x) && !lk.asked.contains(x) && keeps(net, x, key) {
                let x = choose|x: NodeId|
                    #![trigger keeps(net, x, key)]
                    last.asked.contains(x) && !lk.asked.contains(x) && keeps(net, x, key);
                assert(keeps(next, x, key));
                if ended.asked.contains(x) {
                    let p = choose|p: int| 0 <= p < ended.asked.len() && ended.asked[p] == x;
                    if p < lk.asked.len() {
                        assert(lk.asked[p] == x);
                    } else {
                        assert(batch[p - lk.asked.len()] == x);
                        assert(keeps(net, batch[p - lk.asked.len()], key));
                    }
                }
            }
        }
    }
}

/// A retrieval returns a value exactly when one is kept by the entry peer or
/// by a live peer that its lookup asks, in whichever round. With copies that
/// agree, the value returned is the one they agree on.
pub proof fn lemma_get_finds_exactly<M>(net: NetView<M>, entry: int, key: u128)
    requires
        net.wf(),
        0 <= entry < net.nodes.len(),
    ensures
        net.get_at(entry, key).1 is Some <==> net.nodes[entry].store.contains_key(key) || exists|
            x: NodeId,
        |
            #![trigger keeps(net, x, key)]
            net.lookup(entry, NodeId(key), true).1.asked.contains(x) && keeps(net, x, key),
        forall|value: M|
            agrees(net, key, value) && net.get_at(entry, key).1 is Some ==> net.get_at(
                entry,
                key,
            ).1 == Some(value),
{
    let node = net.nodes[entry];
    assert(node.wf());
    let target = NodeId(key);
    lemma_start_wf(
        node.id,
        target,
        node.routing.closest(target, net.alpha),
        net.alpha,
        node.k,
        net.max_rounds,
    );
    let lk = node.begin_lookup(target, net.alpha, net.max_rounds);
    lemma_rounds_find_exactly(net, lk, entry, key);
    if node.store.contains_key(key) {
        lemma_fetch_with_own(net, lk, entry, key);
    } else {
        lemma_fetch_without_own(net, lk, entry, key);
    }
    lemma_get_is_sound(net, entry, key);
    assert forall|value: M|
        agrees(net, key, value) && net.get_at(entry, key).1 is Some implies net.get_at(
            entry,
            key,
        ).1 == Some(value) by {
        let v = net.get_at(entry, key).1->Some_0;
        let i = choose|i: int|
            0 <= i < net.nodes.len() && (#[trigger] net.nodes[i]).store.contains_key(key)
                && net.nodes[i].store[key] == v;
        assert(net.nodes[i].store[key] == value);
    }
}


/// Two retrievals do not contradict each other. A retrieval changes no
/// peer's part of the table, so while all live copies of `key` agree on a
/// value, any two retrievals that return a value, through whichever peers,
/// return that same value.
pub proof fn lemma_retrievals_agree<M>(
    net: NetView<M>,
    first: int,
    second: int,
    key: u128,
    value: M,
)
    requires
        net.wf(),
        0 <= first < net.nodes.len(),
        0 <= second < net.nodes.len(),
        agrees(net, key, value),
    ensures
        net.get_at(first, key).1 is Some ==> net.get_at(first, key).1 == Some(value),
        agrees(net.get_at(first, key).0, key, value),
        net.get_at(first, key).0.get_at(second, key).1 is Some ==> net.get_at(
            first,
            key,
        ).0.get_at(second, key).1 == Some(value),
{
    lemma_get_is_sound(net, first, key);
    lemma_get_finds_exactly(net, first, key);
    let after = net.get_at(first, key).0;
    lemma_same_registry(net, after, net.nodes[first].id);
    assert(agrees(after, key, value)) by {
        assert forall|i: int|
            0 <= i < after.nodes.len() && (#[trigger] after.nodes[i]).store.contains_key(
                key,
            ) implies after.nodes[i].store[key] == value by {
            assert(after.nodes[i].store == net.nodes[i].store);
        }
    }
    lemma_get_finds_exactly(after, second, key);
}

/// A round of a lookup for the value under `key` brings the value back when
/// it asks a live peer that keeps it: whoever is asked before that peer is
/// silent, or answers with candidates, or answers with the same value.
pub proof fn lemma_round_finds<M>(
    net: NetView<M>,
    lk: LookupView,
    from: int,
    batch: Seq<NodeId>,
    key: u128,
    value: M,
    j: int,
)
    requires
        net.wf(),
        lk.wf(),
        0 <= from < net.nodes.len(),
        lk.target == NodeId(key),
        agrees(net, key, value),
        0 <= j < batch.len(),
        holds(net, batch[j], key, value),
    ensures
        net.round(lk, from, batch, true).2 == Some(value),
    decreases batch.len(),
{
    let ask = question::<M>(lk.target, true);
    let (next, answer) = net.request(from, batch[0], ask);
    lemma_request(net, from, batch[0], ask);
    lemma_request_keeps_stores(net, from, batch[0], ask);
    if net.is_live(batch[0]) {
        let at = net.slot(batch[0]);
        if net.nodes[at].store.contains_key(key) {
            assert(answer == Some(Content::Found(value)));
        } else {
            assert(j > 0);
            let a = net.nodes[at].answer(ask);
            assert(answer == Some(a));
            lemma_report_wf(lk, batch[0], listed(a));
            lemma_same_registry(net, next, batch[j]);
            assert(agrees(next, key, value)) by {
                assert forall|i: int|
                    0 <= i < next.nodes.len() && (#[trigger] next.nodes[i]).store.contains_key(
                        key,
                    ) implies next.nodes[i].store[key] == value by {
                    assert(next.nodes[i].store == net.nodes[i].store);
                }
            }
            assert(next.nodes[next.slot(batch[j])].store == net.nodes[net.slot(batch[j])].store);
            assert(batch.drop_first()[j - 1] == batch[j]);
            lemma_round_finds(
                next,
                lk.answered_by(batch[0], listed(a)),
                from,
                batch.drop_first(),
                key,
                value,
                j - 1,
            );
        }
    } else {
        assert(j > 0);
        assert(next == net);
        lemma_report_wf(lk, batch[0], Seq::empty());
        assert(batch.drop_first()[j - 1] == batch[j]);
        lemma_round_finds(net, lk.silent(batch[0]), from, batch.drop_first(), key, value, j - 1);
    }
}

/// A copy within reach is found. If the entry peer keeps a value under
/// `key`, or a live peer that it asks in its first round does, and all live
/// copies agree on `value`, the retrieval returns `value`.
pub proof fn lemma_reach_finds<M>(net: NetView<M>, entry: int, key: u128, value: M)
    requires
        net.wf(),
        0 <= entry < net.nodes.len(),
        agrees(net, key, value),
        within_reach(net, entry, key),
    ensures
        net.get_at(entry, key).1 == Some(value),
{
    let node = net.nodes[entry];
    let target = NodeId(key);
    assert(node.wf());
    lemma_start_wf(
        node.id,
        target,
        node.routing.closest(target, net.alpha),
        net.alpha,
        node.k,
        net.max_rounds,
    );
    let lk = node.begin_lookup(target, net.alpha, net.max_rounds);
    if node.store.contains_key(key) {
        lemma_fetch_with_own(net, lk, entry, key);
        lemma_get_finds_exactly(net, entry, key);
    } else {
        lemma_fetch_without_own(net, lk, entry, key);
        let batch = first_batch(net, entry, key);
        let j = choose|j: int|
            0 <= j < batch.len() && net.is_live(#[trigger] batch[j]) && net.nodes[net.slot(
                batch[j],
            )].store.contains_key(key);
        lemma_begin_round(lk);
        let (begun, asked) = lk.begin_round();
        assert(asked == batch);
        lemma_round_finds(net, begun, entry, batch, key, value, j);
    }
}


/// A round of a lookup for a value brings back what the first live peer
/// that it asks keeps.
pub proof fn lemma_round_first_live<M>(
    net: NetView<M>,
    lk: LookupView,
    from: int,
    batch: Seq<NodeId>,
    key: u128,
    value: M,
    j: int,
)
    requires
        lk.target == NodeId(key),
        0 <= j < batch.len(),
        holds(net, batch[j], key, value),
        forall|i: int| 0 <= i < j ==> !net.is_live(#[trigger] batch[i]),
    ensures
        net.round(lk, from, batch, true).2 == Some(value),
        net.round(lk, from, batch, true).0 == net.request(
            from,
            batch[j],
            question::<M>(lk.target, true),
        ).0,
    decreases j,
{
    if j > 0 {
        let rest = batch.drop_first();
        assert(!net.is_live(batch[0]));
        assert(rest[j - 1] == batch[j]);
        assert forall|i: int| 0 <= i < j - 1 implies !net.is_live(#[trigger] rest[i]) by {
            assert(rest[i] == batch[i + 1]);
        }
        lemma_round_first_live(net, lk.silent(batch[0]), from, rest, key, value, j - 1);
    }
}

/// A round that asks the first `n` peers of the shortlist, all of them gone,
/// changes nothing in the network, takes those peers off the shortlist, and
/// brings nothing back.
pub proof fn lemma_round_of_silent<M>(net: NetView<M>, lk: LookupView, from: int, n: int)
    requires
        net.wf(),
        lk.wf(),
        0 <= from < net.nodes.len(),
        0 <= n <= lk.shortlist.len(),
        forall|i: int|
            0 <= i < n ==> !net.is_live(#[trigger] lk.shortlist[i]) && lk.asked.contains(
                lk.shortlist[i],
            ) && !lk.answered.contains(lk.shortlist[i]),
    ensures
        net.round(lk, from, lk.shortlist.take(n), true) == (
            net,
            LookupView { shortlist: lk.shortlist.skip(n), ..lk },
            None::<M>,
        ),
    decreases n,
{
    let batch = lk.shortlist.take(n);
    if n == 0 {
        assert(lk.shortlist.skip(0) =~= lk.shortlist);
    } else {
        let b = lk.shortlist[0];
        assert(batch[0] == b);
        assert(!net.is_live(b));
        lemma_ascending_no_duplicates(lk.shortlist, lk.target);
        assert(lk.shortlist.contains(b));
        assert(lk.shortlist.index_of(b) == 0);
        let quiet = lk.silent(b);
        assert(lk.awaits(b));
        assert(quiet.shortlist =~= lk.shortlist.skip(1));
        lemma_report_wf(lk, b, Seq::empty());
        assert forall|i: int| 0 <= i < n - 1 implies !net.is_live(#[trigger] quiet.shortlist[i])
            && quiet.asked.contains(quiet.shortlist[i]) && !quiet.answered.contains(
            quiet.shortlist[i],
        ) by {
            assert(quiet.shortlist[i] == lk.shortlist[i + 1]);
        }
        lemma_round_of_silent(net, quiet, from, n - 1);
        assert(batch.drop_first() =~= quiet.shortlist.take(n - 1));
        assert(quiet.shortlist.skip(n - 1) =~= lk.shortlist.skip(n));
    }
}

/// A lookup for a value comes to the first live peer on its shortlist. Let
/// nobody have answered yet and nobody on the shortlist have been asked. If
/// the first live peer on the shortlist keeps `value`, and the rounds that
/// are left suffice to pass the peers before it, the lookup returns `value`.
pub proof fn lemma_rounds_come_to<M>(
    net: NetView<M>,
    lk: LookupView,
    from: int,
    key: u128,
    value: M,
    j: int,
)
    requires
        net.wf(),
        lk.wf(),
        0 <= from < net.nodes.len(),
        lk.target == NodeId(key),
        !lk.done,
        lk.answered.len() == 0,
        lk.room() > 0,
        lk.rounds < lk.max_rounds,
        0 <= j < lk.shortlist.len(),
        holds(net, lk.shortlist[j], key, value),
        forall|i: int| 0 <= i < j ==> !net.is_live(#[trigger] lk.shortlist[i]),
        forall|i: int| 0 <= i < lk.shortlist.len() ==> !lk.asked.contains(#[trigger] lk.shortlist[i]),
        j < lk.room() || lk.rounds + j < lk.max_rounds,
        net.nodes[from].store.contains_key(key) ==> lk.shortlist[j].spec_dist(&lk.target)
            < net.nodes[from].id.spec_dist(&lk.target),
    ensures
        net.fetch(lk, from, key).1 == Some(value),
        net.fetch(lk, from, key).0 == net.request(
            from,
            lk.shortlist[j],
            question::<M>(lk.target, true),
        ).0,
    decreases j,
{
    lemma_unasked_none(lk.shortlist, lk.asked);
    lemma_begin_round(lk);
    lemma_ascending_no_duplicates(lk.shortlist, lk.target);
    let room = lk.room() as int;
    let me = net.nodes[from].id;
    let (begun, batch) = lk.begin_round();
    assert(batch == lk.batch());
    let near = net.before_own(from, batch, key);
    lemma_rank_counts(batch, lk.target, me);
    let turn = rank(batch, lk.target, me);
    if j < room {
        assert(batch[j] == lk.shortlist[j]);
        if net.nodes[from].store.contains_key(key) {
            if turn <= j {
                assert(batch[turn] == lk.shortlist[turn]);
                if turn < j {
                    assert(lk.shortlist[turn].spec_dist(&lk.target) < lk.shortlist[j].spec_dist(
                        &lk.target,
                    ));
                }
            }
            assert(j < turn);
        }
        assert(near[j] == batch[j]);
        assert forall|i: int| 0 <= i < j implies !net.is_live(#[trigger] near[i]) by {
            assert(near[i] == lk.shortlist[i]);
        }
        lemma_round_first_live(net, begun, from, near, key, value, j);
    } else {
        assert(batch == lk.shortlist.take(room));
        assert(begun.shortlist == lk.shortlist);
        if net.nodes[from].store.contains_key(key) {
            if turn < batch.len() {
                assert(batch[turn] == lk.shortlist[turn]);
                assert(lk.shortlist[turn].spec_dist(&lk.target) < lk.shortlist[j].spec_dist(
                    &lk.target,
                ));
            }
            assert(turn == batch.len());
        }
        assert(near =~= batch);
        assert forall|i: int| 0 <= i < room implies !net.is_live(#[trigger] begun.shortlist[i])
            && begun.asked.contains(begun.shortlist[i]) && !begun.answered.contains(
            begun.shortlist[i],
        ) by {
            assert(batch[i] == lk.shortlist[i]);
            assert(begun.asked[lk.asked.len() + i] == batch[i]);
        }
        lemma_round_of_silent(net, begun, from, room);
        lemma_round_keeps(net, begun, from, batch, true);
        let told = LookupView { shortlist: lk.shortlist.skip(room), ..begun };
        assert(net.round(begun, from, batch, true) == (net, told, None::<M>));
        lemma_report_wf(told, told.origin, Seq::empty());
        let next = told.end_round();
        assert(!next.done);
        assert(next.shortlist[j - room] == lk.shortlist[j]);
        assert forall|i: int| 0 <= i < j - room implies !net.is_live(#[trigger] next.shortlist[i]) by {
            assert(next.shortlist[i] == lk.shortlist[i + room]);
        }
        assert forall|i: int| 0 <= i < next.shortlist.len() implies !next.asked.contains(
            #[trigger] next.shortlist[i],
        ) by {
            let x = next.shortlist[i];
            assert(x == lk.shortlist[i + room]);
            if next.asked.contains(x) {
                let p = choose|p: int| 0 <= p < next.asked.len() && next.asked[p] == x;
                if p < lk.asked.len() {
                    assert(lk.asked[p] == x);
                    assert(lk.asked.contains(x));
                } else {
                    assert(batch[p - lk.asked.len()] == x);
                    assert(lk.shortlist[p - lk.asked.len()] == lk.shortlist[i + room]);
                }
            }
        }
        lemma_rounds_come_to(net, next, from, key, value, j - room);
    }
}

/// A retrieval turns to the peer's own copy when nobody nearer is left. Let
/// the peer keep a copy, let nobody have answered its lookup yet and nobody
/// on the shortlist have been asked, and let every peer on the shortlist
/// that is nearer to the key than the peer itself be gone. Then the
/// retrieval returns the peer's own copy and changes nothing.
pub proof fn lemma_fetch_turns_to_own<M>(net: NetView<M>, lk: LookupView, from: int, key: u128)
    requires
        net.wf(),
        lk.wf(),
        0 <= from < net.nodes.len(),
        lk.target == NodeId(key),
        lk.answered.len() == 0,
        net.nodes[from].store.contains_key(key),
        forall|i: int| 0 <= i < lk.shortlist.len() ==> !lk.asked.contains(#[trigger] lk.shortlist[i]),
        forall|i: int|
            0 <= i < lk.shortlist.len() && (#[trigger] lk.shortlist[i]).spec_dist(&lk.target)
                < net.nodes[from].id.spec_dist(&lk.target) ==> !net.is_live(lk.shortlist[i]),
    ensures
        net.fetch(lk, from, key) == (net, Some(net.nodes[from].store[key])),
    decreases lk.max_rounds - lk.rounds,
{
    lemma_unasked_none(lk.shortlist, lk.asked);
    lemma_begin_round(lk);
    lemma_ascending_no_duplicates(lk.shortlist, lk.target);
    let me = net.nodes[from].id;
    let (begun, batch) = lk.begin_round();
    if batch.len() > 0 {
        assert(batch == lk.batch());
        let near = net.before_own(from, batch, key);
        lemma_rank_counts(batch, lk.target, me);
        let turn = rank(batch, lk.target, me);
        assert forall|i: int| 0 <= i < batch.len() implies batch[i] == lk.shortlist[i] by {}
        assert(near =~= lk.shortlist.take(turn));
        assert(begun.shortlist == lk.shortlist);
        assert forall|i: int| 0 <= i < turn implies !net.is_live(#[trigger] begun.shortlist[i])
            && begun.asked.contains(begun.shortlist[i]) && !begun.answered.contains(
            begun.shortlist[i],
        ) by {
            assert(batch[i] == lk.shortlist[i]);
            assert(begun.asked[lk.asked.len() + i] == batch[i]);
        }
        lemma_round_of_silent(net, begun, from, turn);
        let told = LookupView { shortlist: lk.shortlist.skip(turn), ..begun };
        assert(net.round(begun, from, near, true) == (net, told, None::<M>));
        if !(near.len() < batch.len()) {
            lemma_round_keeps(net, begun, from, near, true);
            lemma_report_wf(told, told.origin, Seq::empty());
            let next = told.end_round();
            assert forall|i: int| 0 <= i < next.shortlist.len() implies !next.asked.contains(
                #[trigger] next.shortlist[i],
            ) by {
                let x = next.shortlist[i];
                assert(x == lk.shortlist[i + turn]);
                if next.asked.contains(x) {
                    let p = choose|p: int| 0 <= p < next.asked.len() && next.asked[p] == x;
                    if p < lk.asked.len() {
                        assert(lk.asked[p] == x);
                        assert(lk.asked.contains(x));
                    } else {
                        assert(batch[p - lk.asked.len()] == x);
                        assert(lk.shortlist[p - lk.asked.len()] == lk.shortlist[i + turn]);
                    }
                }
            }
            assert forall|i: int|
                0 <= i < next.shortlist.len() && (#[trigger] next.shortlist[i]).spec_dist(
                    &next.target,
                ) < net.nodes[from].id.spec_dist(&next.target) implies !net.is_live(
                next.shortlist[i],
            ) by {
                assert(next.shortlist[i] == lk.shortlist[i + turn]);
            }
            lemma_fetch_turns_to_own(net, next, from, key);
        }
    }
}

/// Whether a retrieval of `key` through the peer at index `entry` has
/// `value` in line. Either, of the peers that the entry peer would ask,
/// nearest first, the first that is live keeps `value`, the lookup has rounds
/// enough to pass the peers before it, and the entry peer keeps no copy
/// itself or is farther from the key than that peer. Or the entry peer keeps
/// `value` itself and every peer that it would ask and that is nearer to the
/// key is gone.
pub open spec fn in_line<M>(net: NetView<M>, entry: int, key: u128, value: M) -> bool {
    let lk = net.nodes[entry].begin_lookup(NodeId(key), net.alpha, net.max_rounds);
    ||| exists|j: int| #[trigger] comes_to(net, lk, key, value, j) && comes_first(net, lk, entry, j)
    ||| own_first(net, lk, entry, key, value)
}

/// Whether the peer at index `j` of the shortlist of `lk` is the first live
/// one, keeps `value` under `key`, and is within the lookup's rounds.
pub open spec fn comes_to<M>(net: NetView<M>, lk: LookupView, key: u128, value: M, j: int) -> bool {
    &&& 0 <= j < lk.shortlist.len()
    &&& holds(net, lk.shortlist[j], key, value)
    &&& forall|i: int| 0 <= i < j ==> !net.is_live(#[trigger] lk.shortlist[i])
    &&& lk.room() > 0
    &&& lk.max_rounds > 0
    &&& (j < lk.room() || j < lk.max_rounds)
}

/// Whether the peer at index `j` of the shortlist of `lk` comes before the
/// own copy of the peer at index `entry`: that peer keeps none, or is
/// farther from the key.
pub open spec fn comes_first<M>(net: NetView<M>, lk: LookupView, entry: int, j: int) -> bool {
    net.nodes[entry].store.contains_key(lk.target.0) ==> lk.shortlist[j].spec_dist(&lk.target)
        < net.nodes[entry].id.spec_dist(&lk.target)
}

/// Whether the peer at index `entry` keeps `value` under `key` and nobody
/// live on the shortlist of `lk` is nearer to the key than it is.
pub open spec fn own_first<M>(
    net: NetView<M>,
    lk: LookupView,
    entry: int,
    key: u128,
    value: M,
) -> bool {
    &&& net.nodes[entry].store.contains_key(key)
    &&& net.nodes[entry].store[key] == value
    &&& forall|i: int|
        0 <= i < lk.shortlist.len() && (#[trigger] lk.shortlist[i]).spec_dist(&lk.target)
            < net.nodes[entry].id.spec_dist(&lk.target) ==> !net.is_live(lk.shortlist[i])
}

/// What is in line is found. If `value` is in line for the peer at index
/// `entry`, a retrieval of `key` through that peer returns `value`, in
/// whichever round it comes to the copy, and whatever other peers keep.
pub proof fn lemma_line_finds<M>(net: NetView<M>, entry: int, key: u128, value: M)
    requires
        net.wf(),
        0 <= entry < net.nodes.len(),
        in_line(net, entry, key, value),
    ensures
        net.get_at(entry, key).1 == Some(value),
{
    let node = net.nodes[entry];
    let target = NodeId(key);
    assert(node.wf());
    lemma_start_wf(
        node.id,
        target,
        node.routing.closest(target, net.alpha),
        net.alpha,
        node.k,
        net.max_rounds,
    );
    let lk = node.begin_lookup(target, net.alpha, net.max_rounds);
    if exists|j: int| #[trigger] comes_to(net, lk, key, value, j) && comes_first(net, lk, entry, j) {
        let j = choose|j: int| #[trigger]
            comes_to(net, lk, key, value, j) && comes_first(net, lk, entry, j);
        lemma_rounds_come_to(net, lk, entry, key, value, j);
    } else {
        lemma_fetch_turns_to_own(net, lk, entry, key);
    }
}

/// A retrieval takes nothing out of line, so it repeats. If `value` is in
/// line under `key` for the peer at index `entry`, a retrieval through that
/// peer returns `value`, leaves `value` in line, and so does every retrieval
/// through that peer that follows it.
pub proof fn lemma_retrieval_repeats<M>(net: NetView<M>, entry: int, key: u128, value: M)
    requires
        net.wf(),
        0 <= entry < net.nodes.len(),
        in_line(net, entry, key, value),
    ensures
        net.get_at(entry, key).1 == Some(value),
        net.get_at(entry, key).0.wf(),
        in_line(net.get_at(entry, key).0, entry, key, value),
        net.get_at(entry, key).0.get_at(entry, key).1 == Some(value),
{
    lemma_line_finds(net, entry, key, value);
    lemma_get_is_sound(net, entry, key);
    let node = net.nodes[entry];
    let after = net.get_at(entry, key).0;
    lemma_same_registry(net, after, node.id);
    let target = NodeId(key);
    assert(node.wf());
    let seeds = node.routing.closest(target, net.alpha);
    lemma_start_wf(node.id, target, seeds, net.alpha, node.k, net.max_rounds);
    lemma_absorb(Seq::empty(), target, node.id, Seq::empty(), seeds);
    lemma_closest_to(node.routing.neighbors, target, net.alpha);
    let lk = node.begin_lookup(target, net.alpha, net.max_rounds);
    if exists|j: int| #[trigger] comes_to(net, lk, key, value, j) && comes_first(net, lk, entry, j) {
        let j = choose|j: int| #[trigger]
            comes_to(net, lk, key, value, j) && comes_first(net, lk, entry, j);
        let c = lk.shortlist[j];
        lemma_rounds_come_to(net, lk, entry, key, value, j);
        let ask = question::<M>(target, true);
        lemma_request(net, entry, c, ask);
        lemma_request_keeps_stores(net, entry, c, ask);
        assert(after == net.request(entry, c, ask).0);
        assert(lk.shortlist.contains(c));
        assert(seeds.contains(c));
        assert(node.routing.neighbors.contains(c));
        assert(c != node.id);
        let at = net.slot(c);
        assert(at != entry);
        assert(after.nodes[entry] == node.heard(c));
        assert(after.nodes[entry].routing.neighbors == node.routing.neighbors);
        let again = after.nodes[entry].begin_lookup(target, after.alpha, after.max_rounds);
        assert(again == lk);
        lemma_same_registry(net, after, c);
        assert(after.nodes[at].store == net.nodes[at].store);
        assert forall|i: int| 0 <= i < j implies !after.is_live(#[trigger] again.shortlist[i]) by {
            lemma_same_registry(net, after, lk.shortlist[i]);
        }
        assert(comes_to(after, again, key, value, j) && comes_first(after, again, entry, j));
    } else {
        lemma_fetch_turns_to_own(net, lk, entry, key);
        assert(after == net);
    }
    assert(in_line(after, entry, key, value));
    lemma_line_finds(after, entry, key, value);
}

/// The peers that are left after a removal: each keeps its state, its place
/// moves up by one if it stood behind the removed peer, and nobody is live
/// afterwards who was not live before.
pub proof fn lemma_removal_keeps_others<M>(net: NetView<M>, gone: int, x: NodeId)
    requires
        net.wf(),
        0 <= gone < net.nodes.len(),
    ensures
        net.kill_at(gone).wf(),
        net.kill_at(gone).is_live(x) ==> net.is_live(x),
        net.is_live(x) && net.slot(x) != gone ==> net.kill_at(gone).is_live(x) && net.kill_at(
            gone,
        ).nodes[net.kill_at(gone).slot(x)] == net.nodes[net.slot(x)],
{
    let after = net.kill_at(gone);
    lemma_kill_wf(net, gone);
    if after.is_live(x) {
        let t = after.slot(x);
        if t < gone {
            assert(net.nodes[t].id == x);
        } else {
            assert(net.nodes[t + 1].id == x);
        }
    }
    if net.is_live(x) && net.slot(x) != gone {
        let s = net.slot(x);
        let t = if s < gone {
            s
        } else {
            s - 1
        };
        assert(after.nodes[t] == net.nodes[s]);
        lemma_slot(after, t);
    }
}

/// A removal leaves the first live holder on a shortlist where it is, if the
/// removed peer keeps no copy.
pub proof fn lemma_removal_keeps_comes_to<M>(
    net: NetView<M>,
    gone: int,
    lk: LookupView,
    key: u128,
    value: M,
    j: int,
)
    requires
        net.wf(),
        0 <= gone < net.nodes.len(),
        !net.nodes[gone].store.contains_key(key),
        comes_to(net, lk, key, value, j),
    ensures
        comes_to(net.kill_at(gone), lk, key, value, j),
{
    let after = net.kill_at(gone);
    let c = lk.shortlist[j];
    lemma_removal_keeps_others(net, gone, c);
    assert(net.slot(c) != gone);
    assert(holds(after, c, key, value));
    assert forall|i: int| 0 <= i < j implies !after.is_live(#[trigger] lk.shortlist[i]) by {
        lemma_removal_keeps_others(net, gone, lk.shortlist[i]);
    }
}

/// Removing a peer that keeps no copy takes nothing out of line. Let
/// `value` be in line under `key` for the peer at index `entry`. After the
/// removal of a peer that is neither the entry peer nor keeps anything under
/// `key`, the same holds of the entry peer at its new index, and a retrieval
/// through it returns `value` as before.
#[verifier::spinoff_prover]
pub proof fn lemma_removal_keeps_line<M>(
    net: NetView<M>,
    gone: int,
    entry: int,
    key: u128,
    value: M,
)
    requires
        net.wf(),
        0 <= gone < net.nodes.len(),
        0 <= entry < net.nodes.len(),
        entry != gone,
        !net.nodes[gone].store.contains_key(key),
        in_line(net, entry, key, value),
    ensures
        net.kill_at(gone).wf(),
        in_line(
            net.kill_at(gone),
            if entry < gone {
                entry
            } else {
                entry - 1
            },
            key,
            value,
        ),
        net.get_at(entry, key).1 == Some(value),
        net.kill_at(gone).get_at(
            if entry < gone {
                entry
            } else {
                entry - 1
            },
            key,
        ).1 == Some(value),
{
    let after = net.kill_at(gone);
    let moved = if entry < gone {
        entry
    } else {
        entry - 1
    };
    lemma_kill_wf(net, gone);
    assert(after.nodes[moved] == net.nodes[entry]);
    let lk = net.nodes[entry].begin_lookup(NodeId(key), net.alpha, net.max_rounds);
    let again = after.nodes[moved].begin_lookup(NodeId(key), after.alpha, after.max_rounds);
    assert(again == lk);
    if exists|j: int| #[trigger] comes_to(net, lk, key, value, j) && comes_first(net, lk, entry, j) {
        let j = choose|j: int| #[trigger]
            comes_to(net, lk, key, value, j) && comes_first(net, lk, entry, j);
        lemma_removal_keeps_comes_to(net, gone, lk, key, value, j);
        assert(comes_to(after, again, key, value, j) && comes_first(after, again, moved, j));
    } else {
        assert(own_first(net, lk, entry, key, value));
        assert forall|i: int|
            0 <= i < lk.shortlist.len() && (#[trigger] lk.shortlist[i]).spec_dist(&lk.target)
                < after.nodes[moved].id.spec_dist(&lk.target) implies !after.is_live(
            lk.shortlist[i],
        ) by {
            lemma_removal_keeps_others(net, gone, lk.shortlist[i]);
        }
        assert(own_first(after, again, moved, key, value));
    }
    assert(in_line(after, moved, key, value));
    lemma_line_finds(net, entry, key, value);
    lemma_line_finds(after, moved, key, value);
}



/// In a small neighbourhood every neighbour is asked first. If the peer at
/// index `entry` knows no more peers than a first round asks, `alpha` and no
/// more than `k`, and one of them is live and keeps a value under `key`, then
/// a copy is within reach.
pub proof fn lemma_small_neighbourhood_reaches<M>(
    net: NetView<M>,
    entry: int,
    key: u128,
    holder: NodeId,
)
    requires
        net.wf(),
        0 <= entry < net.nodes.len(),
        net.nodes[entry].routing.neighbors.len() <= net.alpha,
        net.nodes[entry].routing.neighbors.len() <= net.k,
        net.nodes[entry].routing.neighbors.contains(holder),
        net.is_live(holder),
        net.nodes[net.slot(holder)].store.contains_key(key),
    ensures
        within_reach(net, entry, key),
{
    let node = net.nodes[entry];
    let target = NodeId(key);
    assert(node.wf());
    let known = node.routing.neighbors;
    let seeds = node.routing.closest(target, net.alpha);
    lemma_arrange(known, target);
    assert(seeds == arrange(known, target));
    assert(seeds.contains(holder));
    lemma_start_wf(node.id, target, seeds, net.alpha, node.k, net.max_rounds);
    lemma_absorb(Seq::empty(), target, node.id, Seq::empty(), seeds);
    let start = node.begin_lookup(target, net.alpha, net.max_rounds);
    assert(holder != node.id);
    assert(start.shortlist.contains(holder));
    lemma_unasked_all(start.shortlist);
    let batch = first_batch(net, entry, key);
    assert(batch == start.shortlist);
    let j = choose|j: int| 0 <= j < batch.len() && batch[j] == holder;
    assert(net.is_live(batch[j]) && net.nodes[net.slot(batch[j])].store.contains_key(key));
}

/// Removing a peer that keeps no copy takes no copy out of reach. Let a
/// copy of `key` be within reach of the peer at index `entry`, and let all
/// live copies agree on `value`. After the removal of a peer that is neither
/// the entry peer nor keeps anything under `key`, the same holds of the entry
/// peer at its new index.
pub proof fn lemma_removal_keeps_reach<M>(
    net: NetView<M>,
    gone: int,
    entry: int,
    key: u128,
    value: M,
)
    requires
        net.wf(),
        0 <= gone < net.nodes.len(),
        0 <= entry < net.nodes.len(),
        entry != gone,
        !net.nodes[gone].store.contains_key(key),
        agrees(net, key, value),
        within_reach(net, entry, key),
    ensures
        net.kill_at(gone).wf(),
        agrees(net.kill_at(gone), key, value),
        within_reach(
            net.kill_at(gone),
            if entry < gone {
                entry
            } else {
                entry - 1
            },
            key,
        ),
{
    let after = net.kill_at(gone);
    let moved = if entry < gone {
        entry
    } else {
        entry - 1
    };
    lemma_kill_wf(net, gone);
    assert(after.nodes[moved] == net.nodes[entry]);
    assert(agrees(after, key, value)) by {
        assert forall|i: int|
            0 <= i < after.nodes.len() && (#[trigger] after.nodes[i]).store.contains_key(
                key,
            ) implies after.nodes[i].store[key] == value by {
            if i < gone {
                assert(after.nodes[i] == net.nodes[i]);
            } else {
                assert(after.nodes[i] == net.nodes[i + 1]);
            }
        }
    }
    assert(first_batch(after, moved, key) == first_batch(net, entry, key));
    if !net.nodes[entry].store.contains_key(key) {
        let batch = first_batch(net, entry, key);
        let j = choose|j: int|
            0 <= j < batch.len() && net.is_live(#[trigger] batch[j]) && net.nodes[net.slot(
                batch[j],
            )].store.contains_key(key);
        let s = net.slot(batch[j]);
        assert(s != gone);
        let t = if s < gone {
            s
        } else {
            s - 1
        };
        assert(after.nodes[t] == net.nodes[s]);
        lemma_slot(after, t);
        assert(after.is_live(batch[j]));
    }
}

/// Churn tolerance, for copies within reach. Let all live copies of `key`
/// agree on `value`, and let a copy be within reach of the peer at index
/// `entry`. Removing a peer that is neither the entry peer nor keeps anything
/// under `key` then changes nothing of what a retrieval through the entry
/// peer returns: it returns `value` before and after.
pub proof fn lemma_removal_keeps_answer<M>(
    net: NetView<M>,
    gone: int,
    entry: int,
    key: u128,
    value: M,
)
    requires
        net.wf(),
        0 <= gone < net.nodes.len(),
        0 <= entry < net.nodes.len(),
        entry != gone,
        !net.nodes[gone].store.contains_key(key),
        agrees(net, key, value),
        within_reach(net, entry, key),
    ensures
        net.get_at(entry, key).1 == Some(value),
        net.kill_at(gone).get_at(
            if entry < gone {
                entry
            } else {
                entry - 1
            },
            key,
        ).1 == Some(value),
{
    lemma_reach_finds(net, entry, key, value);
    lemma_removal_keeps_reach(net, gone, entry, key, value);
    lemma_reach_finds(
        net.kill_at(gone),
        if entry < gone {
            entry
        } else {
            entry - 1
        },
        key,
        value,
    );
}

/// A lookup is bounded. It begins no more rounds than the network's ceiling
/// allows, asks no more than `alpha` peers per round and nobody twice, so it
/// sends at most `alpha` times the ceiling requests in all. No round asks
/// more peers than are missing for `k` answers, so no more than `k` peers
/// answer; whoever is asked beyond that stayed silent. Every round asks
/// somebody who was not asked before, so the rounds are no more than the
/// peers that were asked, whether they answered or not.
pub proof fn lemma_lookup_bounded<M>(net: NetView<M>, entry: int, target: NodeId, want_value: bool)
    requires
        net.wf(),
        0 <= entry < net.nodes.len(),
    ensures
        net.lookup(entry, target, want_value).1.rounds <= net.max_rounds,
        net.lookup(entry, target, want_value).1.asked.len() <= net.alpha * net.lookup(
            entry,
            target,
            want_value,
        ).1.rounds,
        net.lookup(entry, target, want_value).1.asked.len() <= net.alpha * net.max_rounds,
        net.lookup(entry, target, want_value).1.asked.no_duplicates(),
        net.lookup(entry, target, want_value).1.rounds <= net.lookup(
            entry,
            target,
            want_value,
        ).1.asked.len(),
        net.lookup(entry, target, want_value).1.answered.len() <= net.k,
        net.lookup(entry, target, want_value).1.found().len() <= net.k,
{
    let node = net.nodes[entry];
    assert(node.wf());
    lemma_start_wf(
        node.id,
        target,
        node.routing.closest(target, net.alpha),
        net.alpha,
        node.k,
        net.max_rounds,
    );
    let lk = node.begin_lookup(target, net.alpha, net.max_rounds);
    lemma_rounds_keep(net, lk, entry, want_value);
    let last = net.lookup(entry, target, want_value).1;
    assert(last.alpha == net.alpha && last.k == net.k);
    assert(net.alpha * last.rounds <= net.alpha * net.max_rounds) by (nonlinear_arith)
        requires
            last.rounds <= net.max_rounds,
    ;
}

} // verus!
