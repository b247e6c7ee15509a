//! The orchestrator: a registry of live peers and the operations that join
//! peers, store values, fetch them and remove peers.
//!
//! The network delivers every envelope to the peer it is addressed to, which
//! it finds in a registry keyed by identifier, and a request to a peer that
//! is not in the registry ends at its deadline without an answer. Between two
//! operations no peer has anything queued or awaited.

use vstd::prelude::*;
use std::collections::HashMap;
use crate::chance::{random_index, random_u128};
use crate::closest::{
    insert_by_distance, insert_sorted, leading_closer, lemma_insert_sorted, lemma_rank_counts, rank,
};
use crate::fresh::pick_free;
use crate::ident::NodeId;
use crate::laws::{holds, kept_somewhere, lemma_get_is_sound};
use crate::lookup::{
    lemma_begin_round, lemma_report_wf, lemma_start_wf, Lookup, LookupView, DEFAULT_ALPHA,
    DEFAULT_MAX_ROUNDS,
};
use crate::message::{envelopes, Body, Content, Envelope, Payload, Reply};
use crate::node::{
    lemma_await_answer, lemma_await_nothing, lemma_closed_wf, lemma_heard_wf,
    lemma_receive_request, lemma_tokens_differ, Node, NodeView, DEFAULT_K,
};
use crate::round_trip::lemma_insert_reaches_holders;
use crate::value::Value;

verus! {

broadcast use vstd::std_specs::hash::group_hash_axioms;

/// The simulated network.
#[derive(Debug)]
pub struct Network<V> {
    /// The live peers, in the order in which they joined.
    nodes: Vec<Node<V>>,
    /// The registry: where in `nodes` the peer of each live identifier stands.
    index: HashMap<u128, usize>,
    alpha: usize,
    k: usize,
    max_rounds: usize,
}

/// Mathematical model of the network, over the view `M` of the values.
pub struct NetView<M> {
    /// The live peers, in the order in which they joined.
    pub nodes: Seq<NodeView<M>>,
    /// Requests per lookup round.
    pub alpha: nat,
    /// Replication factor, and the size of the candidate lists.
    pub k: nat,
    /// Ceiling on the rounds of one lookup.
    pub max_rounds: nat,
}

/// What a lookup asks of each candidate.
pub open spec fn question<M>(target: NodeId, want_value: bool) -> Content<M> {
    if want_value {
        Content::FindValue(target.0)
    } else {
        Content::FindNode(target)
    }
}

/// The candidates that an answer lists.
pub open spec fn listed<M>(answer: Content<M>) -> Seq<NodeId> {
    match answer {
        Content::Nodes(nodes) => nodes,
        _ => Seq::empty(),
    }
}

/// The view of an optional value.
pub open spec fn value_of<V: View>(v: Option<V>) -> Option<V::V> {
    match v {
        Some(v) => Some(v@),
        None => None,
    }
}

/// The view of an optional answer.
pub open spec fn content_of<V: View>(r: Option<Reply<V>>) -> Option<Content<V::V>> {
    match r {
        Some(r) => Some(r@),
        None => None,
    }
}

/// The first `copies` members of `candidates` that are among `ids`, in the
/// order of `candidates`.
pub open spec fn live_first(ids: Seq<NodeId>, candidates: Seq<NodeId>, copies: nat) -> Seq<NodeId>
    decreases candidates.len(),
{
    if copies == 0 || candidates.len() == 0 {
        Seq::empty()
    } else if ids.contains(candidates[0]) {
        seq![candidates[0]] + live_first(ids, candidates.drop_first(), (copies - 1) as nat)
    } else {
        live_first(ids, candidates.drop_first(), copies)
    }
}

/// The identifiers of `nodes`, in order.
pub open spec fn ids_of<M>(nodes: Seq<NodeView<M>>) -> Seq<NodeId> {
    nodes.map_values(|n: NodeView<M>| n.id)
}

/// The views of `nodes`, in order.
pub open spec fn views<V: View>(nodes: Seq<Node<V>>) -> Seq<NodeView<V::V>> {
    nodes.map_values(|n: Node<V>| n@)
}

impl<M> NetView<M> {
    /// A network without peers.
    pub open spec fn empty(alpha: nat, k: nat, max_rounds: nat) -> NetView<M> {
        NetView { nodes: Seq::empty(), alpha, k, max_rounds }
    }

    /// Whether the settings fit each other: lookups ask at least one peer per
    /// round in at least one round, every value is kept at least once, and a
    /// lookup that finds the `alpha` peers it knows best gone has room or
    /// rounds to pass them.
    pub open spec fn fit(self) -> bool {
        &&& self.alpha > 0
        &&& self.k > 0
        &&& self.max_rounds > 0
        &&& (self.alpha <= self.k || self.alpha <= self.max_rounds)
    }

    /// The network's invariant: the settings fit each other, every peer is
    /// well formed, has nothing queued and nothing awaited and lists as many candidates per answer as the
    /// network replicates, and no two peers share an identifier.
    pub open spec fn wf(self) -> bool {
        &&& self.fit()
        &&& forall|i: int|
            0 <= i < self.nodes.len() ==> (#[trigger] self.nodes[i]).wf() && self.nodes[i].quiet()
                && self.nodes[i].k == self.k
        &&& forall|i: int, j: int|
            0 <= i < j < self.nodes.len() ==> (#[trigger] self.nodes[i]).id != (
            #[trigger] self.nodes[j]).id
    }

    /// Whether a peer named `id` is live.
    pub open spec fn is_live(self, id: NodeId) -> bool {
        exists|i: int| 0 <= i < self.nodes.len() && (#[trigger] self.nodes[i]).id == id
    }

    /// Index of the live peer named `id`.
    pub open spec fn slot(self, id: NodeId) -> int {
        choose|i: int| 0 <= i < self.nodes.len() && (#[trigger] self.nodes[i]).id == id
    }

    /// The network with the peer at index `i` in state `n`.
    pub open spec fn with_node(self, i: int, n: NodeView<M>) -> NetView<M> {
        NetView { nodes: self.nodes.update(i, n), ..self }
    }

    /// One request from the peer at index `from` to the peer named `to`, and
    /// its outcome. A live peer serves the request and answers, and the asker
    /// has heard from it. A peer that is not live does not answer, and nothing
    /// changes.
    pub open spec fn request(self, from: int, to: NodeId, request: Content<M>) -> (
        NetView<M>,
        Option<Content<M>>,
    ) {
        if self.is_live(to) {
            let at = self.slot(to);
            let served = self.with_node(at, self.nodes[at].served(self.nodes[from].id, request));
            (
                served.with_node(from, served.nodes[from].heard(to)),
                Some(self.nodes[at].answer(request)),
            )
        } else {
            (self, None)
        }
    }

    /// The rest of a lookup round: the peer at index `from` asks the members
    /// of `batch` one after the other and reports each outcome to the lookup.
    /// A value that comes back, in a lookup that wants one, ends the round at
    /// once.
    pub open spec fn round(self, lk: LookupView, from: int, batch: Seq<NodeId>, want_value: bool) -> (
        NetView<M>,
        LookupView,
        Option<M>,
    )
        decreases batch.len(),
    {
        if batch.len() == 0 {
            (self, lk, None)
        } else {
            let (next, answer) = self.request(from, batch[0], question(lk.target, want_value));
            match answer {
                None => next.round(lk.silent(batch[0]), from, batch.drop_first(), want_value),
                Some(Content::Found(v)) if want_value => (next, lk, Some(v)),
                Some(a) => next.round(
                    lk.answered_by(batch[0], listed(a)),
                    from,
                    batch.drop_first(),
                    want_value,
                ),
            }
        }
    }

    /// A lookup from its present state on: round after round until the lookup
    /// is over or a wanted value has come back.
    pub open spec fn rounds(self, lk: LookupView, from: int, want_value: bool) -> (
        NetView<M>,
        LookupView,
        Option<M>,
    )
        decreases lk.max_rounds - lk.rounds,
    {
        let (begun, batch) = lk.begin_round();
        if batch.len() == 0 {
            (self, begun, None)
        } else {
            let (next, reported, value) = self.round(begun, from, batch, want_value);
            if value is Some {
                (next, reported, value)
            } else {
                proof {
                    lemma_round_counts(self, begun, from, batch, want_value);
                }
                next.rounds(reported.end_round(), from, want_value)
            }
        }
    }

    /// The lookup for `target` that the peer at index `from` runs: the network
    /// after it, the lookup's final state, and the value if one was wanted and
    /// found.
    pub open spec fn lookup(self, from: int, target: NodeId, want_value: bool) -> (
        NetView<M>,
        LookupView,
        Option<M>,
    ) {
        self.rounds(
            self.nodes[from].begin_lookup(target, self.alpha, self.max_rounds),
            from,
            want_value,
        )
    }

    /// Whom the peer named `me` considers as holders after its lookup for
    /// `key`: every peer that the lookup has seen and not found silent, and
    /// itself, closest to `key` first.
    pub open spec fn candidates(self, me: NodeId, key: u128, shortlist: Seq<NodeId>) -> Seq<NodeId> {
        insert_sorted(shortlist, NodeId(key), me)
    }

    /// The peer at index `entry` has `value` stored under `key` at each of
    /// `holders` in turn: at itself directly, at others by a `Store` request.
    pub open spec fn store_all(self, entry: int, holders: Seq<NodeId>, key: u128, value: M) -> NetView<
        M,
    >
        decreases holders.len(),
    {
        if holders.len() == 0 {
            self
        } else {
            let next = if holders[0] == self.nodes[entry].id {
                self.with_node(entry, self.nodes[entry].stored(key, value))
            } else {
                self.request(entry, holders[0], Content::Store { key, value }).0
            };
            next.store_all(entry, holders.drop_first(), key, value)
        }
    }

    /// Whom an insertion of `key` through the peer at index `entry` makes
    /// hold the value: the `k` closest live peers among those that its lookup
    /// has seen and itself.
    pub open spec fn holders(self, entry: int, key: u128) -> Seq<NodeId> {
        let (found, lk, _) = self.lookup(entry, NodeId(key), false);
        live_first(
            ids_of(self.nodes),
            self.candidates(self.nodes[entry].id, key, lk.shortlist),
            self.k,
        )
    }

    /// Insertion of `value` under `key` through the peer at index `entry`:
    /// that peer looks up the peers closest to `key` and has the value stored
    /// at the `k` closest live peers among those that the lookup has seen and
    /// itself.
    pub open spec fn insert_at(self, entry: int, key: u128, value: M) -> NetView<M> {
        let (found, lk, _) = self.lookup(entry, NodeId(key), false);
        found.store_all(entry, self.holders(entry, key), key, value)
    }

    /// What the peer at index `from` keeps itself under `key`.
    pub open spec fn own_copy(self, from: int, key: u128) -> Option<M> {
        if self.nodes[from].store.contains_key(key) {
            Some(self.nodes[from].store[key])
        } else {
            None
        }
    }

    /// Whom of `batch` the peer at index `from` asks for the value under
    /// `key` before it turns to its own copy: everybody, if it keeps none;
    /// else those that are nearer to the key than it is itself.
    pub open spec fn before_own(self, from: int, batch: Seq<NodeId>, key: u128) -> Seq<NodeId> {
        if self.nodes[from].store.contains_key(key) {
            batch.take(rank(batch, NodeId(key), self.nodes[from].id))
        } else {
            batch
        }
    }

    /// A retrieval from the present state of its lookup on. Round after
    /// round the peer asks the candidates of the lookup, nearest first. Its
    /// own copy takes its place by distance among them: the peer turns to it
    /// when the next candidate is farther from the key than it is itself, or
    /// when the lookup is over. The first copy that is met is returned.
    pub open spec fn fetch(self, lk: LookupView, from: int, key: u128) -> (NetView<M>, Option<M>)
        decreases lk.max_rounds - lk.rounds,
    {
        let (begun, batch) = lk.begin_round();
        if batch.len() == 0 {
            (self, self.own_copy(from, key))
        } else {
            let near = self.before_own(from, batch, key);
            let (next, told, value) = self.round(begun, from, near, true);
            if value is Some {
                (next, value)
            } else if near.len() < batch.len() {
                (next, self.own_copy(from, key))
            } else {
                proof {
                    lemma_round_counts(self, begun, from, near, true);
                }
                next.fetch(told.end_round(), from, key)
            }
        }
    }

    /// Retrieval of `key` through the peer at index `entry`: the first copy
    /// that the peer meets when it asks the peers it knows, nearest to the key
    /// first, with its own copy in its place among them.
    pub open spec fn get_at(self, entry: int, key: u128) -> (NetView<M>, Option<M>) {
        self.fetch(
            self.nodes[entry].begin_lookup(NodeId(key), self.alpha, self.max_rounds),
            entry,
            key,
        )
    }

    /// A new peer named `id` joins. With no peer to start from it joins
    /// knowing nobody. Otherwise it knows the peer at index `peer` and looks
    /// up its own identifier, which makes it known to whoever it asks.
    pub open spec fn join(self, id: NodeId, peer: Option<int>) -> NetView<M> {
        match peer {
            None => NetView { nodes: self.nodes.push(NodeView::fresh(id, self.k)), ..self },
            Some(p) => {
                let joined = NetView {
                    nodes: self.nodes.push(NodeView::fresh(id, self.k).heard(self.nodes[p].id)),
                    ..self
                };
                joined.lookup(self.nodes.len() as int, id, false).0
            },
        }
    }

    /// The network without the peer at index `i`.
    pub open spec fn kill_at(self, i: int) -> NetView<M> {
        NetView { nodes: self.nodes.remove(i), ..self }
    }

    /// Whether a peer that joins may start from `peer`: from no peer in a
    /// network without peers, from any live peer otherwise.
    pub open spec fn may_start_from(self, peer: Option<int>) -> bool {
        match peer {
            None => self.nodes.len() == 0,
            Some(p) => 0 <= p < self.nodes.len(),
        }
    }

    /// Whether `i` is the index of a live peer.
    pub open spec fn has_index(self, i: int) -> bool {
        0 <= i < self.nodes.len()
    }
}

/// A peer is live exactly when the registry lists its identifier.
pub proof fn lemma_ids_live<M>(net: NetView<M>, id: NodeId)
    ensures
        ids_of(net.nodes).contains(id) <==> net.is_live(id),
{
    let ids = ids_of(net.nodes);
    if ids.contains(id) {
        let i = choose|i: int| 0 <= i < ids.len() && ids[i] == id;
        assert(net.nodes[i].id == id);
    }
    if net.is_live(id) {
        let i = net.slot(id);
        assert(ids[i] == id);
    }
}

/// The rest of a round begins no round and leaves the lookup's ceiling alone.
pub proof fn lemma_round_counts<M>(
    net: NetView<M>,
    lk: LookupView,
    from: int,
    batch: Seq<NodeId>,
    want_value: bool,
)
    ensures
        net.round(lk, from, batch, want_value).1.rounds == lk.rounds,
        net.round(lk, from, batch, want_value).1.max_rounds == lk.max_rounds,
    decreases batch.len(),
{
    if batch.len() > 0 {
        let (next, answer) = net.request(from, batch[0], question(lk.target, want_value));
        match answer {
            None => {
                lemma_round_counts(next, lk.silent(batch[0]), from, batch.drop_first(), want_value);
            },
            Some(Content::Found(v)) if want_value => {},
            Some(a) => {
                lemma_round_counts(
                    next,
                    lk.answered_by(batch[0], listed(a)),
                    from,
                    batch.drop_first(),
                    want_value,
                );
            },
        }
    }
}

/// A request keeps the network's invariant, the registry and the settings,
/// and changes no peer but the two that take part.
pub proof fn lemma_request<M>(net: NetView<M>, from: int, to: NodeId, request: Content<M>)
    requires
        net.wf(),
        0 <= from < net.nodes.len(),
    ensures
        net.request(from, to, request).0.wf(),
        ids_of(net.request(from, to, request).0.nodes) == ids_of(net.nodes),
        net.request(from, to, request).0.nodes.len() == net.nodes.len(),
        net.request(from, to, request).0.alpha == net.alpha,
        net.request(from, to, request).0.k == net.k,
        net.request(from, to, request).0.max_rounds == net.max_rounds,
        net.request(from, to, request).1 is Some <==> net.is_live(to),
        forall|i: int|
            0 <= i < net.nodes.len() && i != from && net.nodes[i].id != to ==> net.request(
                from,
                to,
                request,
            ).0.nodes[i] == net.nodes[i],
{
    let after = net.request(from, to, request).0;
    if net.is_live(to) {
        let at = net.slot(to);
        let me = net.nodes[from].id;
        let served = net.with_node(at, net.nodes[at].served(me, request));
        match request {
            Content::Store { key, value } => {
                lemma_heard_wf(net.nodes[at].stored(key, value), me);
            },
            _ => {
                lemma_heard_wf(net.nodes[at], me);
            },
        }
        assert(net.nodes[at].served(me, request).wf());
        lemma_heard_wf(served.nodes[from], to);
        assert forall|i: int| 0 <= i < after.nodes.len() implies (#[trigger] after.nodes[i]).wf()
            && after.nodes[i].quiet() && after.nodes[i].k == after.k && after.nodes[i].id
            == net.nodes[i].id by {
            assert(net.nodes[i].wf());
        }
        assert forall|i: int, j: int| 0 <= i < j < after.nodes.len() implies (
        #[trigger] after.nodes[i]).id != (#[trigger] after.nodes[j]).id by {
            assert(net.nodes[i].id != net.nodes[j].id);
        }
    }
    assert(ids_of(after.nodes) =~= ids_of(net.nodes));
}

/// A request changes no peer's part of the table unless it is a `Store`.
pub proof fn lemma_request_keeps_stores<M>(
    net: NetView<M>,
    from: int,
    to: NodeId,
    request: Content<M>,
)
    requires
        net.wf(),
        0 <= from < net.nodes.len(),
        !(request is Store),
    ensures
        forall|i: int|
            0 <= i < net.nodes.len() ==> (#[trigger] net.request(from, to, request).0.nodes[i]).store
                == net.nodes[i].store,
{
}

/// The rest of a round keeps the network's invariant, the registry and the
/// settings, keeps the lookup's invariant, and begins no round.
pub proof fn lemma_round_keeps<M>(
    net: NetView<M>,
    lk: LookupView,
    from: int,
    batch: Seq<NodeId>,
    want_value: bool,
)
    requires
        net.wf(),
        lk.wf(),
        0 <= from < net.nodes.len(),
    ensures
        net.round(lk, from, batch, want_value).0.wf(),
        net.round(lk, from, batch, want_value).1.wf(),
        ids_of(net.round(lk, from, batch, want_value).0.nodes) == ids_of(net.nodes),
        net.round(lk, from, batch, want_value).0.nodes.len() == net.nodes.len(),
        net.round(lk, from, batch, want_value).0.alpha == net.alpha,
        net.round(lk, from, batch, want_value).0.k == net.k,
        net.round(lk, from, batch, want_value).0.max_rounds == net.max_rounds,
        net.round(lk, from, batch, want_value).1.rounds == lk.rounds,
        net.round(lk, from, batch, want_value).1.max_rounds == lk.max_rounds,
        net.round(lk, from, batch, want_value).1.target == lk.target,
        net.round(lk, from, batch, want_value).1.alpha == lk.alpha,
        net.round(lk, from, batch, want_value).1.k == lk.k,
        net.round(lk, from, batch, want_value).1.answered.len() <= lk.answered.len() + batch.len(),
        forall|i: int|
            0 <= i < net.nodes.len() ==> (#[trigger] net.round(
                lk,
                from,
                batch,
                want_value,
            ).0.nodes[i]).store == net.nodes[i].store,
    decreases batch.len(),
{
    if batch.len() > 0 {
        let ask = question::<M>(lk.target, want_value);
        lemma_request(net, from, batch[0], ask);
        lemma_request_keeps_stores(net, from, batch[0], ask);
        let (next, answer) = net.request(from, batch[0], ask);
        assert(next.nodes.len() == net.nodes.len());
        match answer {
            None => {
                lemma_report_wf(lk, batch[0], Seq::empty());
                lemma_round_keeps(next, lk.silent(batch[0]), from, batch.drop_first(), want_value);
            },
            Some(Content::Found(v)) if want_value => {},
            Some(a) => {
                lemma_report_wf(lk, batch[0], listed(a));
                lemma_insert_sorted(lk.answered, lk.target, batch[0]);
                lemma_round_keeps(
                    next,
                    lk.answered_by(batch[0], listed(a)),
                    from,
                    batch.drop_first(),
                    want_value,
                );
            },
        }
    }
}

/// A lookup keeps the network's invariant, the registry and the settings,
/// changes no peer's part of the table, and ends within its ceiling of
/// rounds.
pub proof fn lemma_rounds_keep<M>(net: NetView<M>, lk: LookupView, from: int, want_value: bool)
    requires
        net.wf(),
        lk.wf(),
        0 <= from < net.nodes.len(),
    ensures
        net.rounds(lk, from, want_value).0.wf(),
        net.rounds(lk, from, want_value).1.wf(),
        net.rounds(lk, from, want_value).1.rounds <= lk.max_rounds,
        net.rounds(lk, from, want_value).1.target == lk.target,
        net.rounds(lk, from, want_value).1.alpha == lk.alpha,
        net.rounds(lk, from, want_value).1.k == lk.k,
        lk.answered.len() <= lk.k ==> net.rounds(lk, from, want_value).1.answered.len() <= lk.k,
        ids_of(net.rounds(lk, from, want_value).0.nodes) == ids_of(net.nodes),
        net.rounds(lk, from, want_value).0.nodes.len() == net.nodes.len(),
        net.rounds(lk, from, want_value).0.alpha == net.alpha,
        net.rounds(lk, from, want_value).0.k == net.k,
        net.rounds(lk, from, want_value).0.max_rounds == net.max_rounds,
        forall|i: int|
            0 <= i < net.nodes.len() ==> (#[trigger] net.rounds(lk, from, want_value).0.nodes[i]).store
                == net.nodes[i].store,
    decreases lk.max_rounds - lk.rounds,
{
    lemma_begin_round(lk);
    let (begun, batch) = lk.begin_round();
    if batch.len() > 0 {
        lemma_round_keeps(net, begun, from, batch, want_value);
        let (next, reported, value) = net.round(begun, from, batch, want_value);
        if value is None {
            lemma_report_wf(reported, reported.origin, Seq::empty());
            lemma_rounds_keep(next, reported.end_round(), from, want_value);
        }
    }
}

/// A retrieval keeps the network's invariant, the registry and the settings,
/// and changes no peer's part of the table.
pub proof fn lemma_fetch_keeps<M>(net: NetView<M>, lk: LookupView, from: int, key: u128)
    requires
        net.wf(),
        lk.wf(),
        0 <= from < net.nodes.len(),
    ensures
        net.fetch(lk, from, key).0.wf(),
        ids_of(net.fetch(lk, from, key).0.nodes) == ids_of(net.nodes),
        net.fetch(lk, from, key).0.nodes.len() == net.nodes.len(),
        net.fetch(lk, from, key).0.alpha == net.alpha,
        net.fetch(lk, from, key).0.k == net.k,
        net.fetch(lk, from, key).0.max_rounds == net.max_rounds,
        forall|i: int|
            0 <= i < net.nodes.len() ==> (#[trigger] net.fetch(lk, from, key).0.nodes[i]).store
                == net.nodes[i].store,
    decreases lk.max_rounds - lk.rounds,
{
    lemma_begin_round(lk);
    let (begun, batch) = lk.begin_round();
    if batch.len() > 0 {
        let near = net.before_own(from, batch, key);
        lemma_rank_counts(batch, NodeId(key), net.nodes[from].id);
        lemma_round_keeps(net, begun, from, near, true);
        let (next, told, value) = net.round(begun, from, near, true);
        if value is None && !(near.len() < batch.len()) {
            lemma_report_wf(told, told.origin, Seq::empty());
            lemma_fetch_keeps(next, told.end_round(), from, key);
        }
    }
}

/// Storing at a list of holders keeps the network's invariant, the registry
/// and the settings.
pub proof fn lemma_store_all_keeps<M>(
    net: NetView<M>,
    entry: int,
    holders: Seq<NodeId>,
    key: u128,
    value: M,
)
    requires
        net.wf(),
        0 <= entry < net.nodes.len(),
    ensures
        net.store_all(entry, holders, key, value).wf(),
        ids_of(net.store_all(entry, holders, key, value).nodes) == ids_of(net.nodes),
        net.store_all(entry, holders, key, value).nodes.len() == net.nodes.len(),
        net.store_all(entry, holders, key, value).alpha == net.alpha,
        net.store_all(entry, holders, key, value).k == net.k,
        net.store_all(entry, holders, key, value).max_rounds == net.max_rounds,
    decreases holders.len(),
{
    if holders.len() > 0 {
        let next = if holders[0] == net.nodes[entry].id {
            net.with_node(entry, net.nodes[entry].stored(key, value))
        } else {
            net.request(entry, holders[0], Content::Store { key, value }).0
        };
        if holders[0] == net.nodes[entry].id {
            lemma_stored_keeps(net, entry, key, value);
            assert(ids_of(next.nodes) =~= ids_of(net.nodes));
        } else {
            lemma_request(net, entry, holders[0], Content::Store { key, value });
        }
        lemma_store_all_keeps(next, entry, holders.drop_first(), key, value);
    }
}

/// Keeping a value at one peer keeps the network's invariant.
pub proof fn lemma_stored_keeps<M>(net: NetView<M>, at: int, key: u128, value: M)
    requires
        net.wf(),
        0 <= at < net.nodes.len(),
    ensures
        net.with_node(at, net.nodes[at].stored(key, value)).wf(),
{
    let next = net.with_node(at, net.nodes[at].stored(key, value));
    assert forall|i: int| 0 <= i < next.nodes.len() implies (#[trigger] next.nodes[i]).wf()
        && next.nodes[i].quiet() && next.nodes[i].k == next.k && next.nodes[i].id
        == net.nodes[i].id by {
        assert(net.nodes[i].wf());
    }
    assert forall|i: int, j: int| 0 <= i < j < next.nodes.len() implies (#[trigger] next.nodes[i]).id
        != (#[trigger] next.nodes[j]).id by {
        assert(net.nodes[i].id != net.nodes[j].id);
    }
}

/// A peer that joins under an identifier that is not in use, knowing at most
/// one live peer, leaves the network well formed.
pub proof fn lemma_joined_wf<M>(net: NetView<M>, id: NodeId, peer: Option<int>)
    requires
        net.wf(),
        !net.is_live(id),
        net.may_start_from(peer),
    ensures
        (NetView {
            nodes: net.nodes.push(
                match peer {
                    None => NodeView::fresh(id, net.k),
                    Some(p) => NodeView::fresh(id, net.k).heard(net.nodes[p].id),
                },
            ),
            ..net
        }).wf(),
{
    let fresh = NodeView::<M>::fresh(id, net.k);
    assert(fresh.wf());
    let node = match peer {
        None => fresh,
        Some(p) => fresh.heard(net.nodes[p].id),
    };
    if let Some(p) = peer {
        lemma_heard_wf(fresh, net.nodes[p].id);
    }
    let next = NetView { nodes: net.nodes.push(node), ..net };
    assert forall|i: int| 0 <= i < next.nodes.len() implies (#[trigger] next.nodes[i]).wf()
        && next.nodes[i].quiet() && next.nodes[i].k == next.k by {
        if i < net.nodes.len() {
            assert(net.nodes[i].wf());
        }
    }
    assert forall|i: int, j: int| 0 <= i < j < next.nodes.len() implies (#[trigger] next.nodes[i]).id
        != (#[trigger] next.nodes[j]).id by {
        if j < net.nodes.len() {
            assert(net.nodes[i].id != net.nodes[j].id);
        } else {
            assert(net.nodes[i].id != id);
        }
    }
}

/// Removing a peer keeps the network's invariant.
pub proof fn lemma_kill_wf<M>(net: NetView<M>, at: int)
    requires
        net.wf(),
        0 <= at < net.nodes.len(),
    ensures
        net.kill_at(at).wf(),
        !net.kill_at(at).is_live(net.nodes[at].id),
{
    let next = net.kill_at(at);
    assert forall|i: int| 0 <= i < next.nodes.len() implies (#[trigger] next.nodes[i]).wf()
        && next.nodes[i].quiet() && next.nodes[i].k == next.k by {
        if i < at {
            assert(net.nodes[i].wf());
        } else {
            assert(net.nodes[i + 1].wf());
        }
    }
    assert forall|i: int, j: int| 0 <= i < j < next.nodes.len() implies (#[trigger] next.nodes[i]).id
        != (#[trigger] next.nodes[j]).id by {
        let a = if i < at {
            i
        } else {
            i + 1
        };
        let b = if j < at {
            j
        } else {
            j + 1
        };
        assert(net.nodes[a].id != net.nodes[b].id);
    }
    assert forall|i: int| 0 <= i < next.nodes.len() implies (#[trigger] next.nodes[i]).id
        != net.nodes[at].id by {
        if i < at {
            assert(net.nodes[i].id != net.nodes[at].id);
        } else {
            assert(net.nodes[at].id != net.nodes[i + 1].id);
        }
    }
}

impl<V: View> View for Network<V> {
    type V = NetView<V::V>;

    closed spec fn view(&self) -> NetView<V::V> {
        NetView {
            nodes: views(self.nodes@),
            alpha: self.alpha as nat,
            k: self.k as nat,
            max_rounds: self.max_rounds as nat,
        }
    }
}

impl<V: Value> Network<V> {
    /// Whether the registry lists exactly the live peers, each with its place.
    pub closed spec fn indexed(&self) -> bool {
        &&& forall|i: int|
            0 <= i < self@.nodes.len() ==> self.index@.contains_key(
                (#[trigger] self@.nodes[i]).id.0,
            ) && self.index@[self@.nodes[i].id.0] == i
        &&& forall|key: u128| #[trigger]
            self.index@.contains_key(key) ==> self.index@[key] < self@.nodes.len()
                && self@.nodes[self.index@[key] as int].id.0 == key
    }

    /// The network's invariant: that of its model, and a registry that lists
    /// exactly the live peers.
    pub open spec fn wf(&self) -> bool {
        self@.wf() && self.indexed()
    }

    /// The registry stays right while it and the identifiers stay as they are.
    proof fn lemma_index_kept(now: Network<V>, before: Network<V>)
        requires
            before.indexed(),
            now.index == before.index,
            ids_of(now@.nodes) == ids_of(before@.nodes),
        ensures
            now.indexed(),
    {
        assert(now@.nodes.len() == ids_of(now@.nodes).len());
        assert(before@.nodes.len() == ids_of(before@.nodes).len());
        assert forall|i: int| 0 <= i < now@.nodes.len() implies (#[trigger] now@.nodes[i]).id
            == before@.nodes[i].id by {
            assert(ids_of(now@.nodes)[i] == now@.nodes[i].id);
            assert(ids_of(before@.nodes)[i] == before@.nodes[i].id);
        }
        assert forall|i: int| 0 <= i < now@.nodes.len() implies now.index@.contains_key(
            (#[trigger] now@.nodes[i]).id.0,
        ) && now.index@[now@.nodes[i].id.0] == i by {
            assert(before@.nodes[i].id == now@.nodes[i].id);
        }
    }

    /// A network without peers, with the usual settings.
    pub fn new() -> (net: Network<V>)
        ensures
            net@ == NetView::<V::V>::empty(
                DEFAULT_ALPHA as nat,
                DEFAULT_K as nat,
                DEFAULT_MAX_ROUNDS as nat,
            ),
            net.wf(),
    {
        Network::with_settings(DEFAULT_ALPHA, DEFAULT_K, DEFAULT_MAX_ROUNDS)
    }

    /// A network without peers whose lookups ask `alpha` candidates per round
    /// and end after `max_rounds` rounds at the latest, and which keeps each
    /// value at `k` peers. The settings are positive, and `alpha` is no more
    /// than `k` or no more than `max_rounds`.
    pub fn with_settings(alpha: usize, k: usize, max_rounds: usize) -> (net: Network<V>)
        requires
            alpha > 0,
            k > 0,
            max_rounds > 0,
            alpha <= k || alpha <= max_rounds,
        ensures
            net@ == NetView::<V::V>::empty(alpha as nat, k as nat, max_rounds as nat),
            net.wf(),
    {
        let net = Network { nodes: Vec::new(), index: HashMap::new(), alpha, k, max_rounds };
        assert(net@.nodes =~= Seq::empty());
        net
    }

    /// How many peers are live.
    pub fn len(&self) -> (n: usize)
        ensures
            n == self@.nodes.len(),
    {
        self.nodes.len()
    }

    /// Whether no peer is live.
    pub fn is_empty(&self) -> (empty: bool)
        ensures
            empty == (self@.nodes.len() == 0),
    {
        self.nodes.len() == 0
    }

    /// The live peer at index `i`, counted in the order of joining.
    pub fn node(&self, i: usize) -> (node: &Node<V>)
        requires
            i < self@.nodes.len(),
        ensures
            node@ == self@.nodes[i as int],
    {
        &self.nodes[i]
    }

    /// The identifiers of the live peers, in the order of joining.
    pub fn ids(&self) -> (ids: Vec<NodeId>)
        ensures
            ids@ == ids_of(self@.nodes),
    {
        let mut ids: Vec<NodeId> = Vec::new();
        let mut i: usize = 0;
        while i < self.nodes.len()
            invariant
                i <= self.nodes.len(),
                ids@ == ids_of(self@.nodes).take(i as int),
            decreases self.nodes.len() - i,
        {
            ids.push(self.nodes[i].get_id());
            assert(ids@ =~= ids_of(self@.nodes).take(i + 1));
            i += 1;
        }
        assert(ids_of(self@.nodes).take(self.nodes.len() as int) =~= ids_of(self@.nodes));
        ids
    }

    /// Index of the live peer named `id`, as the registry has it.
    pub fn find(&self, id: NodeId) -> (at: Option<usize>)
        requires
            self.wf(),
        ensures
            at is Some <==> self@.is_live(id),
            at is Some ==> at->Some_0 == self@.slot(id) && at->Some_0 < self@.nodes.len(),
    {
        match self.find_unchecked(id) {
            Some(i) => {
                let ghost s = self@.slot(id);
                assert(s == i) by {
                    if s < i {
                        assert(self@.nodes[s].id != self@.nodes[i as int].id);
                    } else if s > i {
                        assert(self@.nodes[i as int].id != self@.nodes[s].id);
                    }
                }
                Some(i)
            },
            None => None,
        }
    }

    /// One request from the peer at index `from` to the peer named `to`. The
    /// asker opens the request under a fresh token. If `to` is live, it
    /// receives the envelope, serves it in its drain pass, and its reply
    /// reaches the asker, which takes it as the answer. If `to` is not live,
    /// nothing arrives and the request ends at its deadline without an answer.
    pub fn request(&mut self, from: usize, to: NodeId, payload: Payload<V>) -> (answer: Option<
        Reply<V>,
    >)
        requires
            old(self).wf(),
            from < old(self)@.nodes.len(),
        ensures
            final(self)@ == old(self)@.request(from as int, to, payload@).0,
            content_of(answer) == old(self)@.request(from as int, to, payload@).1,
            answer is Some <==> old(self)@.is_live(to),
            ids_of(final(self)@.nodes) == ids_of(old(self)@.nodes),
            final(self)@.nodes.len() == old(self)@.nodes.len(),
            final(self).wf(),
    {
        proof {
            lemma_request(self@, from as int, to, payload@);
        }
        let ghost before = self@;
        let ghost asker = self@.nodes[from as int];
        assert(asker.wf() && asker.quiet());
        let outbound = self.nodes[from].send_message(to, payload);
        let ghost token = outbound.cookie;
        assert(self@.nodes =~= before.nodes.update(from as int, asker.opened(token)));
        assert(asker.open =~= Seq::empty());
        proof {
            assert(ids_of(self@.nodes) =~= ids_of(before.nodes));
            Self::lemma_index_kept(*self, *old(self));
        }
        let arrivals = match self.find_unchecked(to) {
            None => {
                assert(!before.is_live(to)) by {
                    if before.is_live(to) {
                        let j = before.slot(to);
                        assert(self@.nodes[j].id == before.nodes[j].id);
                    }
                }
                Vec::new()
            },
            Some(at) => {
                let ghost open_net = self@;
                let ghost peer = self@.nodes[at as int];
                assert(peer.id == to);
                assert(before.nodes[at as int].id == to);
                assert(before.slot(to) == at) by {
                    let s = before.slot(to);
                    if s < at {
                        assert(before.nodes[s].id != before.nodes[at as int].id);
                    } else if s > at {
                        assert(before.nodes[at as int].id != before.nodes[s].id);
                    }
                }
                assert(peer.answer(payload@) == before.nodes[at as int].answer(payload@));
                assert(peer.pending.len() == 0) by {
                    if at == from {
                    } else {
                        assert(peer == before.nodes[at as int]);
                        assert(before.nodes[at as int].quiet());
                    }
                }
                assert(peer.wf()) by {
                    if at == from {
                        lemma_tokens_differ(asker, token.0);
                    } else {
                        assert(before.nodes[at as int].wf());
                    }
                }
                proof {
                    lemma_receive_request(peer, outbound@);
                }
                let delivered = outbound.duplicate();
                let replies = self.nodes[at].receive_message(delivered);
                assert(self@.nodes =~= open_net.nodes.update(
                    at as int,
                    peer.served(asker.id, payload@),
                ));
                assert(envelopes(replies@) == seq![
                    Envelope {
                        src: to,
                        dst: asker.id,
                        cookie: token,
                        content: before.nodes[at as int].answer(payload@),
                    },
                ]);
                replies
            },
        };
        let ghost mid = self@;
        let ghost waiting = self@.nodes[from as int];
        assert(waiting.wf()) by {
            lemma_tokens_differ(asker, token.0);
            if before.is_live(to) {
                let at = before.slot(to);
                if at == from {
                    match payload@ {
                        Content::Store { key, value } => {
                            lemma_heard_wf(asker.opened(token).stored(key, value), asker.id);
                        },
                        _ => {
                            lemma_heard_wf(asker.opened(token), asker.id);
                        },
                    }
                }
            }
        }
        proof {
            if before.is_live(to) {
                let at = before.slot(to);
                let reply = Envelope {
                    src: to,
                    dst: asker.id,
                    cookie: token,
                    content: before.nodes[at].answer(payload@),
                };
                assert(envelopes(arrivals@) =~= seq![reply]);
                lemma_await_answer(waiting, outbound@, reply);
            } else {
                assert(envelopes(arrivals@) =~= Seq::empty());
                lemma_await_nothing(asker, outbound@);
            }
        }
        let answer = self.nodes[from].get_response(&outbound, arrivals);
        assert(self@.nodes =~= mid.nodes.update(from as int, self@.nodes[from as int]));
        proof {
            lemma_closed_wf(asker, token);
            if before.is_live(to) {
                let at = before.slot(to);
                if at == from {
                    assert(waiting.closed(token) == asker.served(asker.id, payload@));
                } else {
                    assert(waiting.closed(token) == asker);
                }
                assert(self@.nodes =~= before.request(from as int, to, payload@).0.nodes);
            } else {
                assert(self@.nodes =~= before.nodes);
            }
            Self::lemma_index_kept(*self, *old(self));
        }
        match answer {
            Some(m) => match m.body {
                Body::Reply(reply) => Some(reply),
                Body::Request(request) => {
                    assert(request@.is_request());
                    None
                },
            },
            None => None,
        }
    }

    /// Index of the peer named `id` as the registry has it, also while peers
    /// have requests open.
    fn find_unchecked(&self, id: NodeId) -> (at: Option<usize>)
        requires
            self.indexed(),
        ensures
            match at {
                Some(i) => i < self@.nodes.len() && self@.nodes[i as int].id == id,
                None => forall|j: int|
                    0 <= j < self@.nodes.len() ==> (#[trigger] self@.nodes[j]).id != id,
            },
    {
        match self.index.get(&id.0) {
            Some(i) => Some(*i),
            None => {
                assert forall|j: int| 0 <= j < self@.nodes.len() implies (#[trigger] self@.nodes[j]).id
                    != id by {
                    if self@.nodes[j].id == id {
                        assert(self.index@.contains_key(self@.nodes[j].id.0));
                    }
                }
                None
            },
        }
    }

    /// The iterative lookup for `target` that the peer at index `from` runs.
    /// Each round asks the closest candidates not asked before, one request
    /// each, and merges what they answer into the shortlist. A lookup that
    /// wants the value under `target` ends as soon as a candidate returns it.
    /// Returns the lookup's final state and the value, if one was wanted and
    /// found.
    pub fn lookup(&mut self, from: usize, target: NodeId, want_value: bool) -> (out: (
        Lookup,
        Option<V>,
    ))
        requires
            old(self).wf(),
            from < old(self)@.nodes.len(),
        ensures
            final(self)@ == old(self)@.lookup(from as int, target, want_value).0,
            out.0@ == old(self)@.lookup(from as int, target, want_value).1,
            value_of(out.1) == old(self)@.lookup(from as int, target, want_value).2,
            ids_of(final(self)@.nodes) == ids_of(old(self)@.nodes),
            final(self)@.nodes.len() == old(self)@.nodes.len(),
            final(self).wf(),
            out.0.wf(),
    {
        let ghost goal = self@.lookup(from as int, target, want_value);
        let mut lk = self.nodes[from].find_node(target, self.alpha, self.max_rounds);
        loop
            invariant
                self.wf(),
                lk.wf(),
                from < self@.nodes.len(),
                lk@.target == target,
                goal == old(self)@.lookup(from as int, target, want_value),
                self@.rounds(lk@, from as int, want_value) == goal,
                ids_of(self@.nodes) == ids_of(old(self)@.nodes),
                self@.nodes.len() == old(self)@.nodes.len(),
            decreases lk@.max_rounds - lk@.rounds,
        {
            let ghost net0 = self@;
            let ghost lk0 = lk@;
            proof {
                lemma_begin_round(lk0);
            }
            let batch = lk.next_round();
            if batch.len() == 0 {
                return (lk, None);
            }
            let ghost begun = lk@;
            assert(batch@.skip(0) =~= batch@);
            let mut i: usize = 0;
            while i < batch.len()
                invariant
                    i <= batch.len(),
                    batch@.len() > 0,
                    self.wf(),
                    lk.wf(),
                    from < self@.nodes.len(),
                    lk@.target == target,
                    lk@.rounds == begun.rounds,
                    lk@.max_rounds == begun.max_rounds,
                    begun.rounds == lk0.rounds + 1,
                    begun.max_rounds == lk0.max_rounds,
                    begun.rounds <= begun.max_rounds,
                    lk0.begin_round() == (begun, batch@),
                    goal == old(self)@.lookup(from as int, target, want_value),
                    ids_of(self@.nodes) == ids_of(old(self)@.nodes),
                    self@.nodes.len() == old(self)@.nodes.len(),
                    net0.rounds(lk0, from as int, want_value) == goal,
                    self@.round(lk@, from as int, batch@.skip(i as int), want_value) == net0.round(
                        begun,
                        from as int,
                        batch@,
                        want_value,
                    ),
                decreases batch.len() - i,
            {
                let to = batch[i];
                let ghost rest = batch@.skip(i as int);
                assert(rest[0] == to);
                assert(rest.drop_first() =~= batch@.skip(i + 1));
                let payload = if want_value {
                    Payload::FindValue(target.0)
                } else {
                    Payload::FindNode(target)
                };
                assert(payload@ == question::<V::V>(target, want_value));
                let ghost asked_net = self@;
                let ghost asking = lk@;
                match self.request(from, to, payload) {
                    None => {
                        lk.record_timeout(to);
                    },
                    Some(Reply::Found(v)) => {
                        if want_value {
                            return (lk, Some(v));
                        } else {
                            let none: Vec<NodeId> = Vec::new();
                            lk.record_response(to, &none);
                        }
                    },
                    Some(Reply::Nodes(list)) => {
                        lk.record_response(to, &list);
                    },
                    Some(Reply::Ack) => {
                        let none: Vec<NodeId> = Vec::new();
                        lk.record_response(to, &none);
                    },
                }
                i += 1;
            }
            lk.finish_round();
        }
    }

    /// Insertion through the peer at index `entry`: that peer looks up the
    /// peers closest to `key`, then offers `value` to the peers that the lookup
    /// has seen and to itself, closest first, until `k` of them keep it. A peer
    /// that does not answer the `Store` request keeps nothing and is passed
    /// over.
    pub fn insert_value_at(&mut self, entry: usize, key: u128, value: V)
        requires
            old(self).wf(),
            entry < old(self)@.nodes.len(),
        ensures
            final(self)@ == old(self)@.insert_at(entry as int, key, value@),
            ids_of(final(self)@.nodes) == ids_of(old(self)@.nodes),
            final(self)@.nodes.len() == old(self)@.nodes.len(),
            forall|h: NodeId| #[trigger]
                old(self)@.holders(entry as int, key).contains(h) ==> holds(
                    final(self)@,
                    h,
                    key,
                    value@,
                ),
            forall|i: int|
                0 <= i < old(self)@.nodes.len() && !old(self)@.holders(entry as int, key).contains(
                    old(self)@.nodes[i].id,
                ) ==> (#[trigger] final(self)@.nodes[i]).store == old(self)@.nodes[i].store,
            final(self).wf(),
    {
        let ghost before = self@;
        proof {
            lemma_insert_reaches_holders(before, entry as int, key, value@);
        }
        proof {
            lemma_start_wf(
                before.nodes[entry as int].id,
                NodeId(key),
                before.nodes[entry as int].routing.closest(NodeId(key), before.alpha),
                before.alpha,
                before.nodes[entry as int].k,
                before.max_rounds,
            );
            lemma_rounds_keep(
                before,
                before.nodes[entry as int].begin_lookup(NodeId(key), before.alpha, before.max_rounds),
                entry as int,
                false,
            );
        }
        let (lk, _) = self.lookup(entry, NodeId(key), false);
        assert(lk@.target == NodeId(key));
        let ghost found = self@;
        let me = self.nodes[entry].get_id();
        assert(me == before.nodes[entry as int].id) by {
            assert(ids_of(found.nodes)[entry as int] == ids_of(before.nodes)[entry as int]);
        }
        let target = NodeId(key);
        let k = self.k;
        let mut candidates = lk.shortlist();
        insert_by_distance(&mut candidates, &target, me);
        let ghost ids = ids_of(before.nodes);
        let ghost holders = before.holders(entry as int, key);
        assert(holders == live_first(ids, candidates@, k as nat));
        assert(candidates@.skip(0) =~= candidates@);
        proof {
            lemma_store_all_keeps(found, entry as int, holders, key, value@);
        }
        let mut placed: usize = 0;
        let mut i: usize = 0;
        while i < candidates.len() && placed < k
            invariant
                i <= candidates.len(),
                placed <= k,
                self.wf(),
                entry < self@.nodes.len(),
                self@.nodes[entry as int].id == me,
                ids_of(self@.nodes) == ids,
                self@.store_all(
                    entry as int,
                    live_first(ids, candidates@.skip(i as int), (k - placed) as nat),
                    key,
                    value@,
                ) == found.store_all(entry as int, holders, key, value@),
            decreases candidates.len() - i,
        {
            let ghost rest = candidates@.skip(i as int);
            assert(rest[0] == candidates@[i as int]);
            assert(rest.drop_first() =~= candidates@.skip(i + 1));
            let ghost net = self@;
            let ghost more = live_first(ids, candidates@.skip(i + 1), (k - placed - 1) as nat);
            let to = candidates[i];
            proof {
                lemma_ids_live(net, to);
                assert((seq![to] + more).drop_first() =~= more);
            }
            if to == me {
                proof {
                    lemma_stored_keeps(net, entry as int, key, value@);
                    assert(net.is_live(me));
                }
                let ghost was = *self;
                self.nodes[entry].store(key, value.duplicate());
                assert(self@.nodes =~= net.nodes.update(
                    entry as int,
                    net.nodes[entry as int].stored(key, value@),
                ));
                assert(ids_of(self@.nodes) =~= ids);
                proof {
                    Self::lemma_index_kept(*self, was);
                }
                placed += 1;
            } else {
                proof {
                    lemma_request(net, entry as int, to, Content::Store { key, value: value@ });
                    assert(ids_of(self@.nodes)[entry as int] == me);
                }
                let ack = self.request(entry, to, Payload::Store { key, value: value.duplicate() });
                assert(ids_of(self@.nodes)[entry as int] == ids_of(net.nodes)[entry as int]);
                if ack.is_some() {
                    placed += 1;
                }
            }
            i += 1;
        }
    }

    /// Retrieval through the peer at index `entry`. The peer asks the peers
    /// of its lookup for the value, nearest to the key first, and returns the
    /// first copy that it meets. Its own copy takes its place by distance:
    /// the peer turns to it when the next peer to ask is farther from the key
    /// than it is itself, or when the lookup is over.
    pub fn get_value_at(&mut self, entry: usize, key: u128) -> (value: Option<V>)
        requires
            old(self).wf(),
            entry < old(self)@.nodes.len(),
        ensures
            final(self)@ == old(self)@.get_at(entry as int, key).0,
            value_of(value) == old(self)@.get_at(entry as int, key).1,
            ids_of(final(self)@.nodes) == ids_of(old(self)@.nodes),
            final(self)@.nodes.len() == old(self)@.nodes.len(),
            value matches Some(v) ==> kept_somewhere(old(self)@, key, v@),
            forall|i: int|
                0 <= i < old(self)@.nodes.len() ==> (#[trigger] final(self)@.nodes[i]).store == old(
                    self,
                )@.nodes[i].store,
            final(self).wf(),
    {
        proof {
            lemma_get_is_sound(self@, entry as int, key);
        }
        let ghost goal = self@.get_at(entry as int, key);
        let target = NodeId(key);
        let me = self.nodes[entry].get_id();
        let mut lk = self.nodes[entry].find_node(target, self.alpha, self.max_rounds);
        proof {
            lemma_fetch_keeps(self@, lk@, entry as int, key);
        }
        loop
            invariant
                self.wf(),
                lk.wf(),
                entry < self@.nodes.len(),
                lk@.target == target,
                target == NodeId(key),
                self@.nodes[entry as int].id == me,
                goal == old(self)@.get_at(entry as int, key),
                ids_of(goal.0.nodes) == ids_of(old(self)@.nodes),
                goal.0.nodes.len() == old(self)@.nodes.len(),
                goal.1 matches Some(v) ==> kept_somewhere(old(self)@, key, v),
                forall|n: int|
                    0 <= n < old(self)@.nodes.len() ==> (#[trigger] goal.0.nodes[n]).store == old(
                        self,
                    )@.nodes[n].store,
                self@.fetch(lk@, entry as int, key) == goal,
            decreases lk@.max_rounds - lk@.rounds,
        {
            let ghost net0 = self@;
            let ghost lk0 = lk@;
            proof {
                lemma_begin_round(lk0);
            }
            let batch = lk.next_round();
            let own = self.nodes[entry].get(key);
            assert(value_of(own) == net0.own_copy(entry as int, key));
            if batch.len() == 0 {
                return own;
            }
            let ghost begun = lk@;
            let turn = match &own {
                Some(_) => leading_closer(&batch, &target, me),
                None => batch.len(),
            };
            let ghost near = net0.before_own(entry as int, batch@, key);
            assert(near == batch@.take(turn as int)) by {
                assert(batch@.take(batch@.len() as int) =~= batch@);
            }
            assert(near.skip(0) =~= near);
            let mut i: usize = 0;
            while i < turn
                invariant
                    i <= turn <= batch.len(),
                    near == batch@.take(turn as int),
                    self.wf(),
                    lk.wf(),
                    entry < self@.nodes.len(),
                    lk@.target == target,
                    target == NodeId(key),
                    self@.nodes[entry as int].id == me,
                    lk@.rounds == begun.rounds,
                    lk@.max_rounds == begun.max_rounds,
                    begun.rounds == lk0.rounds + 1,
                    begun.max_rounds == lk0.max_rounds,
                    begun.rounds <= begun.max_rounds,
                    lk0.begin_round() == (begun, batch@),
                    batch@.len() > 0,
                    near == net0.before_own(entry as int, batch@, key),
                    value_of(own) == net0.own_copy(entry as int, key),
                    goal == old(self)@.get_at(entry as int, key),
                    ids_of(goal.0.nodes) == ids_of(old(self)@.nodes),
                    goal.0.nodes.len() == old(self)@.nodes.len(),
                    goal.1 matches Some(v) ==> kept_somewhere(old(self)@, key, v),
                    forall|n: int|
                        0 <= n < old(self)@.nodes.len() ==> (#[trigger] goal.0.nodes[n]).store == old(
                            self,
                        )@.nodes[n].store,
                    net0.fetch(lk0, entry as int, key) == goal,
                    self@.round(lk@, entry as int, near.skip(i as int), true) == net0.round(
                        begun,
                        entry as int,
                        near,
                        true,
                    ),
                decreases turn - i,
            {
                let to = batch[i];
                let ghost rest = near.skip(i as int);
                assert(rest[0] == to);
                assert(rest.drop_first() =~= near.skip(i + 1));
                let ghost asked_net = self@;
                proof {
                    lemma_request(asked_net, entry as int, to, question::<V::V>(target, true));
                }
                match self.request(entry, to, Payload::FindValue(key)) {
                    None => {
                        lk.record_timeout(to);
                    },
                    Some(Reply::Found(v)) => {
                        return Some(v);
                    },
                    Some(Reply::Nodes(list)) => {
                        lk.record_response(to, &list);
                    },
                    Some(Reply::Ack) => {
                        let none: Vec<NodeId> = Vec::new();
                        lk.record_response(to, &none);
                    },
                }
                assert(self@.nodes[entry as int].id == me) by {
                    assert(ids_of(self@.nodes)[entry as int] == ids_of(asked_net.nodes)[entry as int]);
                }
                i += 1;
            }
            assert(near.skip(turn as int).len() == 0);
            if turn < batch.len() {
                return own;
            }
            lk.finish_round();
        }
    }

    /// Puts `node` last in the list of live peers and into the registry.
    fn register(&mut self, node: Node<V>)
        requires
            old(self).indexed(),
            forall|i: int|
                0 <= i < old(self)@.nodes.len() ==> (#[trigger] old(self)@.nodes[i]).id != node@.id,
        ensures
            final(self)@ == (NetView { nodes: old(self)@.nodes.push(node@), ..old(self)@ }),
            final(self).indexed(),
    {
        let at = self.nodes.len();
        let id = node.get_id();
        self.nodes.push(node);
        self.index.insert(id.0, at);
        assert(self@.nodes =~= old(self)@.nodes.push(node@));
        assert forall|i: int| 0 <= i < self@.nodes.len() implies self.index@.contains_key(
            (#[trigger] self@.nodes[i]).id.0,
        ) && self.index@[self@.nodes[i].id.0] == i by {
            if i < at {
                assert(self@.nodes[i] == old(self)@.nodes[i]);
                assert(old(self)@.nodes[i].id != id);
            }
        }
        assert forall|key: u128| #[trigger] self.index@.contains_key(key) implies self.index@[key]
            < self@.nodes.len() && self@.nodes[self.index@[key] as int].id.0 == key by {
            if key != id.0 {
                assert(old(self).index@.contains_key(key));
                assert(self@.nodes[old(self).index@[key] as int] == old(self)@.nodes[old(
                    self,
                ).index@[key] as int]);
            }
        }
    }

    /// A new peer named `id` joins, starting from the live peer at index
    /// `peer` if there is one: it gets to know that peer and looks up its own
    /// identifier.
    pub fn join(&mut self, id: NodeId, peer: Option<usize>)
        requires
            old(self).wf(),
            !old(self)@.is_live(id),
            match peer {
                None => old(self)@.nodes.len() == 0,
                Some(p) => p < old(self)@.nodes.len(),
            },
        ensures
            final(self)@ == old(self)@.join(
                id,
                match peer {
                    None => None,
                    Some(p) => Some(p as int),
                },
            ),
            final(self).wf(),
            final(self)@.is_live(id),
            final(self)@.nodes.len() == old(self)@.nodes.len() + 1,
            ids_of(final(self)@.nodes) == ids_of(old(self)@.nodes).push(id),
    {
        let ghost before = self@;
        let ghost start: Option<int> = match peer {
            None => None,
            Some(p) => Some(p as int),
        };
        proof {
            lemma_joined_wf(before, id, start);
        }
        let mut node: Node<V> = Node::with_id(id, self.k);
        match peer {
            None => {
                self.register(node);
                assert(self@.nodes =~= before.nodes.push(NodeView::fresh(id, before.k)));
                assert(self@.nodes[before.nodes.len() as int].id == id);
            },
            Some(p) => {
                node.hear(self.nodes[p].get_id());
                self.register(node);
                assert(self@.nodes =~= before.nodes.push(
                    NodeView::fresh(id, before.k).heard(before.nodes[p as int].id),
                ));
                let ghost joined = self@;
                let at = self.nodes.len() - 1;
                assert(joined.nodes[at as int].id == id);
                proof {
                    assert(joined.nodes[at as int].wf());
                    lemma_start_wf(
                        id,
                        id,
                        joined.nodes[at as int].routing.closest(id, joined.alpha),
                        joined.alpha,
                        joined.nodes[at as int].k,
                        joined.max_rounds,
                    );
                    lemma_rounds_keep(
                        joined,
                        joined.nodes[at as int].begin_lookup(id, joined.alpha, joined.max_rounds),
                        at as int,
                        false,
                    );
                }
                let _ = self.lookup(at, id, false);
                assert(ids_of(self@.nodes)[at as int] == ids_of(joined.nodes)[at as int]);
                assert(self@.nodes[at as int].id == id);
            },
        }
    }

    /// Removes the live peer at index `i` and returns its identifier. What
    /// other peers know of it stays; requests to it will find nobody.
    pub fn kill_node_at(&mut self, i: usize) -> (id: NodeId)
        requires
            old(self).wf(),
            i < old(self)@.nodes.len(),
        ensures
            id == old(self)@.nodes[i as int].id,
            final(self)@ == old(self)@.kill_at(i as int),
            final(self)@.nodes.len() == old(self)@.nodes.len() - 1,
            final(self).wf(),
            !final(self)@.is_live(id),
    {
        proof {
            lemma_kill_wf(self@, i as int);
        }
        let node = self.nodes.remove(i);
        assert(self@.nodes =~= old(self)@.nodes.remove(i as int));
        let mut index: HashMap<u128, usize> = HashMap::new();
        let mut j: usize = 0;
        while j < self.nodes.len()
            invariant
                j <= self.nodes.len(),
                self@ == old(self)@.kill_at(i as int),
                self@.wf(),
                forall|p: int|
                    0 <= p < j ==> index@.contains_key((#[trigger] self@.nodes[p]).id.0)
                        && index@[self@.nodes[p].id.0] == p,
                forall|key: u128| #[trigger]
                    index@.contains_key(key) ==> index@[key] < j && self@.nodes[index@[key] as int].id.0
                        == key,
            decreases self.nodes.len() - j,
        {
            let id = self.nodes[j].get_id();
            let ghost had = index@;
            index.insert(id.0, j);
            assert forall|p: int| 0 <= p < j + 1 implies index@.contains_key(
                (#[trigger] self@.nodes[p]).id.0,
            ) && index@[self@.nodes[p].id.0] == p by {
                if p < j {
                    assert(self@.nodes[p].id != self@.nodes[j as int].id);
                }
            }
            j += 1;
        }
        self.index = index;
        node.get_id()
    }

    /// The values of the identifiers in use.
    fn taken(&self) -> (taken: Vec<u128>)
        ensures
            taken@.len() == self@.nodes.len(),
            forall|i: int| 0 <= i < taken@.len() ==> taken@[i] == (#[trigger] self@.nodes[i]).id.0,
    {
        let mut taken: Vec<u128> = Vec::new();
        let mut i: usize = 0;
        while i < self.nodes.len()
            invariant
                i <= self.nodes.len(),
                taken@.len() == i,
                forall|j: int| 0 <= j < i ==> taken@[j] == (#[trigger] self@.nodes[j]).id.0,
            decreases self.nodes.len() - i,
        {
            taken.push(self.nodes[i].get_id().0);
            i += 1;
        }
        taken
    }

    /// Adds a peer. It gets a random identifier that no live peer uses. If
    /// the network has peers, the new one starts from one of them, picked at
    /// random: it gets to know that peer and looks up its own identifier.
    /// Returns the new identifier.
    pub fn add_node(&mut self) -> (id: NodeId)
        requires
            old(self).wf(),
        ensures
            !old(self)@.is_live(id),
            final(self)@.is_live(id),
            exists|peer: Option<int>| #[trigger]
                old(self)@.may_start_from(peer) && final(self)@ == old(self)@.join(id, peer),
            final(self)@.nodes.len() == old(self)@.nodes.len() + 1,
            ids_of(final(self)@.nodes) == ids_of(old(self)@.nodes).push(id),
            final(self).wf(),
    {
        let nonce = random_u128();
        let taken = self.taken();
        let id = NodeId(pick_free(&taken, nonce));
        assert(!self@.is_live(id)) by {
            if self@.is_live(id) {
                let i = self@.slot(id);
                assert(taken@[i] == self@.nodes[i].id.0);
            }
        }
        let peer = random_index(self.nodes.len());
        let ghost start: Option<int> = match peer {
            None => None,
            Some(p) => Some(p as int),
        };
        assert(self@.may_start_from(start));
        self.join(id, peer);
        id
    }

    /// Stores `value` under `key`, through a live peer picked at random: that
    /// peer looks up the peers closest to `key` and has the value stored at
    /// the `k` closest live peers among those that the lookup has seen and
    /// itself.
    pub fn insert_value(&mut self, key: u128, value: V)
        requires
            old(self).wf(),
            old(self)@.nodes.len() > 0,
        ensures
            exists|entry: int| #[trigger]
                old(self)@.has_index(entry) && final(self)@ == old(self)@.insert_at(
                    entry,
                    key,
                    value@,
                ) && forall|h: NodeId| #[trigger]
                    old(self)@.holders(entry, key).contains(h) ==> holds(
                        final(self)@,
                        h,
                        key,
                        value@,
                    ),
            ids_of(final(self)@.nodes) == ids_of(old(self)@.nodes),
            final(self)@.nodes.len() == old(self)@.nodes.len(),
            final(self).wf(),
    {
        match random_index(self.nodes.len()) {
            Some(entry) => {
                assert(self@.has_index(entry as int));
                self.insert_value_at(entry, key, value);
            },
            None => {},
        }
    }

    /// Fetches the value under `key`, through a live peer picked at random:
    /// the first copy that this peer meets when it asks the peers of its
    /// lookup, nearest to the key first, with its own copy in its place among
    /// them; `None` if it meets none.
    pub fn get_value(&mut self, key: u128) -> (value: Option<V>)
        requires
            old(self).wf(),
            old(self)@.nodes.len() > 0,
        ensures
            exists|entry: int| #[trigger]
                old(self)@.has_index(entry) && final(self)@ == old(self)@.get_at(entry, key).0
                    && value_of(value) == old(self)@.get_at(entry, key).1,
            ids_of(final(self)@.nodes) == ids_of(old(self)@.nodes),
            final(self)@.nodes.len() == old(self)@.nodes.len(),
            value matches Some(v) ==> kept_somewhere(old(self)@, key, v@),
            forall|i: int|
                0 <= i < old(self)@.nodes.len() ==> (#[trigger] final(self)@.nodes[i]).store == old(
                    self,
                )@.nodes[i].store,
            final(self).wf(),
    {
        match random_index(self.nodes.len()) {
            Some(entry) => {
                assert(self@.has_index(entry as int));
                self.get_value_at(entry, key)
            },
            None => None,
        }
    }

    /// Removes a live peer picked at random and returns its identifier.
    pub fn kill_node(&mut self) -> (id: NodeId)
        requires
            old(self).wf(),
            old(self)@.nodes.len() > 0,
        ensures
            exists|i: int| #[trigger]
                old(self)@.has_index(i) && id == old(self)@.nodes[i].id && final(self)@ == old(
                    self,
                )@.kill_at(i),
            !final(self)@.is_live(id),
            final(self)@.nodes.len() == old(self)@.nodes.len() - 1,
            final(self).wf(),
    {
        match random_index(self.nodes.len()) {
            Some(i) => {
                assert(self@.has_index(i as int));
                self.kill_node_at(i)
            },
            None => NodeId(0),
        }
    }
}

} // verus!
