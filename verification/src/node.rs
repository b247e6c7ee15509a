//! The engine of one peer: its local part of the table, what it knows of
//! others, the envelopes it has queued, and the requests it has open.
//!
//! Every step is a function from the peer's state and one event to the next
//! state and what the peer publishes; whoever runs the peer supplies the
//! events: envelopes that arrive, deadlines that pass.

use vstd::prelude::*;
use std::collections::HashMap;
use crate::fresh::{first_free, holds, lemma_first_free, pick_free};
use crate::chance::random_u128;
use crate::ident::{Cookie, NodeId};
use crate::message::{envelopes, Body, Content, Envelope, Message, Payload, Reply};
use crate::lookup::{Lookup, LookupView};
use crate::lists::{lemma_without, without};
use crate::routing::{lemma_touch, Routing, RoutingView};
use crate::value::Value;

verus! {

broadcast use vstd::std_specs::hash::group_hash_axioms;

/// How many candidates an answer lists, unless the peer is told otherwise.
pub const DEFAULT_K: usize = 20;

/// One peer.
#[derive(Debug)]
pub struct Node<V> {
    id: NodeId,
    k: usize,
    /// Local part of the table.
    data: HashMap<u128, V>,
    /// Whom this peer knows.
    routing: Routing,
    /// Envelopes queued for the next drain pass, in order of arrival.
    pending: Vec<Message<V>>,
    /// Tokens of the requests that still await their answer.
    open: Vec<u128>,
}

/// Mathematical model of a peer, over the view `M` of its values.
pub struct NodeView<M> {
    pub id: NodeId,
    pub k: nat,
    pub store: Map<u128, M>,
    pub routing: RoutingView,
    pub pending: Seq<Envelope<M>>,
    pub open: Seq<u128>,
}

/// How a peer disposed of one queued envelope.
#[derive(Debug)]
pub enum Handled<V> {
    /// A request was served; the reply is to be published.
    Replied(Message<V>),
    /// An answer to a request that is still open: it stays queued until that
    /// request claims it.
    Deferred,
    /// Not for this peer, or an answer that no open request waits for.
    Dropped,
}

/// Model of `Handled`.
pub enum Outcome<M> {
    Replied(Envelope<M>),
    Deferred,
    Dropped,
}

/// What an awaiting request makes of one envelope that arrived.
#[derive(Debug)]
pub enum Verdict<V> {
    /// The request itself, seen again on a shared medium: ignored.
    Echo,
    /// The answer.
    Matched(Message<V>),
    /// Something else: queued for the next drain pass.
    Queued,
}

/// Model of `Verdict`.
pub enum Ruling<M> {
    Echo,
    Matched(Envelope<M>),
    Queued,
}

impl<V: View> View for Handled<V> {
    type V = Outcome<V::V>;

    open spec fn view(&self) -> Outcome<V::V> {
        match *self {
            Handled::Replied(reply) => Outcome::Replied(reply@),
            Handled::Deferred => Outcome::Deferred,
            Handled::Dropped => Outcome::Dropped,
        }
    }
}

impl<V: View> View for Verdict<V> {
    type V = Ruling<V::V>;

    open spec fn view(&self) -> Ruling<V::V> {
        match *self {
            Verdict::Echo => Ruling::Echo,
            Verdict::Matched(answer) => Ruling::Matched(answer@),
            Verdict::Queued => Ruling::Queued,
        }
    }
}

/// The view of an optional message.
pub open spec fn envelope_of<V: View>(m: Option<Message<V>>) -> Option<Envelope<V::V>> {
    match m {
        Some(m) => Some(m@),
        None => None,
    }
}

/// The acceptance rule: `e` answers the request `outbound` when it carries the
/// token of `outbound` and is not `outbound` itself.
pub open spec fn answers<M>(outbound: Envelope<M>, e: Envelope<M>) -> bool {
    e.cookie == outbound.cookie && e != outbound
}

/// Index of the last envelope in `queue` that answers `outbound`, or -1.
pub open spec fn last_answer<M>(queue: Seq<Envelope<M>>, outbound: Envelope<M>) -> int
    decreases queue.len(),
{
    if queue.len() == 0 {
        -1
    } else if answers(outbound, queue.last()) {
        queue.len() - 1
    } else {
        last_answer(queue.drop_last(), outbound)
    }
}

impl<M> NodeView<M> {
    /// A peer that holds nothing, knows nobody and awaits nothing.
    pub open spec fn fresh(id: NodeId, k: nat) -> NodeView<M> {
        NodeView {
            id,
            k,
            store: Map::empty(),
            routing: RoutingView::empty(),
            pending: Seq::empty(),
            open: Seq::empty(),
        }
    }

    /// The peer's invariant: its routing knowledge is well formed and does not
    /// list the peer itself, and no two open requests share a token.
    pub open spec fn wf(self) -> bool {
        &&& self.routing.wf()
        &&& !self.routing.neighbors.contains(self.id)
        &&& self.open.no_duplicates()
    }

    /// Nothing queued and nothing awaited.
    pub open spec fn quiet(self) -> bool {
        self.pending.len() == 0 && self.open.len() == 0
    }

    /// The state after hearing from `from`. A peer does not list itself.
    pub open spec fn heard(self, from: NodeId) -> NodeView<M> {
        if from == self.id {
            self
        } else {
            NodeView { routing: self.routing.touch(from), ..self }
        }
    }

    /// The lookup for `target` that this peer begins from what it knows.
    pub open spec fn begin_lookup(self, target: NodeId, alpha: nat, max_rounds: nat) -> LookupView {
        LookupView::start(
            self.id,
            target,
            self.routing.closest(target, alpha),
            alpha,
            self.k,
            max_rounds,
        )
    }

    /// The state with `value` kept under `key`.
    pub open spec fn stored(self, key: u128, value: M) -> NodeView<M> {
        NodeView { store: self.store.insert(key, value), ..self }
    }

    /// What this peer answers to a request.
    pub open spec fn answer(self, request: Content<M>) -> Content<M> {
        match request {
            Content::FindNode(target) => Content::Nodes(self.routing.closest(target, self.k)),
            Content::FindValue(key) => if self.store.contains_key(key) {
                Content::Found(self.store[key])
            } else {
                Content::Nodes(self.routing.closest(NodeId(key), self.k))
            },
            _ => Content::Ack,
        }
    }

    /// The state after serving `request` for `from`: a `Store` is applied, and
    /// `from` has been heard from.
    pub open spec fn served(self, from: NodeId, request: Content<M>) -> NodeView<M> {
        match request {
            Content::Store { key, value } => self.stored(key, value).heard(from),
            _ => self.heard(from),
        }
    }

    /// Handling of one envelope: the next state and what became of the
    /// envelope.
    pub open spec fn handle(self, e: Envelope<M>) -> (NodeView<M>, Outcome<M>) {
        if e.dst != self.id {
            (self, Outcome::Dropped)
        } else if e.content.is_request() {
            (
                self.served(e.src, e.content),
                Outcome::Replied(
                    Envelope {
                        src: self.id,
                        dst: e.src,
                        cookie: e.cookie,
                        content: self.answer(e.content),
                    },
                ),
            )
        } else if self.open.contains(e.cookie.0) {
            (self, Outcome::Deferred)
        } else {
            (self, Outcome::Dropped)
        }
    }

    /// A drain pass over `queue`, oldest first, with what it has kept and
    /// published so far: the final state, whose queue is what was kept, and
    /// the replies.
    pub open spec fn drain_step(
        self,
        queue: Seq<Envelope<M>>,
        kept: Seq<Envelope<M>>,
        out: Seq<Envelope<M>>,
    ) -> (NodeView<M>, Seq<Envelope<M>>)
        decreases queue.len(),
    {
        if queue.len() == 0 {
            (NodeView { pending: kept, ..self }, out)
        } else {
            let (next, outcome) = self.handle(queue[0]);
            match outcome {
                Outcome::Replied(reply) => next.drain_step(queue.drop_first(), kept, out.push(reply)),
                Outcome::Deferred => next.drain_step(queue.drop_first(), kept.push(queue[0]), out),
                Outcome::Dropped => next.drain_step(queue.drop_first(), kept, out),
            }
        }
    }

    /// A drain pass over everything queued: the next state and the replies to
    /// publish, in the order of the requests they answer.
    pub open spec fn drain(self) -> (NodeView<M>, Seq<Envelope<M>>) {
        (NodeView { pending: Seq::empty(), ..self }).drain_step(
            self.pending,
            Seq::empty(),
            Seq::empty(),
        )
    }

    /// Arrival of one envelope in the message loop: it is queued, then
    /// everything queued is drained.
    pub open spec fn receive(self, e: Envelope<M>) -> (NodeView<M>, Seq<Envelope<M>>) {
        (NodeView { pending: self.pending.push(e), ..self }).drain()
    }

    /// The token a new request gets when `nonce` was drawn for it.
    pub open spec fn token_for(self, nonce: u128) -> Cookie {
        Cookie(first_free(self.open, nonce))
    }

    /// The state with one more open request, under `token`.
    pub open spec fn opened(self, token: Cookie) -> NodeView<M> {
        NodeView { open: self.open.push(token.0), ..self }
    }

    /// The state with the request under `token` no longer open.
    pub open spec fn closed(self, token: Cookie) -> NodeView<M> {
        NodeView { open: without(self.open, token.0), ..self }
    }

    /// The acceptance rule of a request that awaits its answer.
    pub open spec fn accept(self, outbound: Envelope<M>, received: Envelope<M>) -> (
        NodeView<M>,
        Ruling<M>,
    ) {
        if received == outbound {
            (self, Ruling::Echo)
        } else if received.cookie == outbound.cookie {
            (self.closed(outbound.cookie).heard(received.src), Ruling::Matched(received))
        } else {
            (NodeView { pending: self.pending.push(received), ..self }, Ruling::Queued)
        }
    }

    /// The deadline of the request `outbound` has passed: the request is
    /// closed, and the envelope queued last that answers it, if there is one,
    /// is taken from the queue as its late answer. The request's own echo is
    /// no answer.
    pub open spec fn give_up(self, outbound: Envelope<M>) -> (NodeView<M>, Option<Envelope<M>>) {
        let at = last_answer(self.pending, outbound);
        if at < 0 {
            (self.closed(outbound.cookie), None)
        } else {
            (
                (NodeView {
                    pending: self.pending.remove(at),
                    ..self.closed(outbound.cookie)
                }).heard(self.pending[at].src),
                Some(self.pending[at]),
            )
        }
    }

    /// A request and everything that arrived before its deadline, oldest
    /// first: the first envelope that matches is the answer and the rest is
    /// queued; without a match the request gives up.
    pub open spec fn await_response(self, outbound: Envelope<M>, arrivals: Seq<Envelope<M>>) -> (
        NodeView<M>,
        Option<Envelope<M>>,
    )
        decreases arrivals.len(),
    {
        if arrivals.len() == 0 {
            self.give_up(outbound)
        } else {
            let (next, ruling) = self.accept(outbound, arrivals[0]);
            match ruling {
                Ruling::Matched(answer) => (
                    NodeView { pending: next.pending + arrivals.drop_first(), ..next },
                    Some(answer),
                ),
                _ => next.await_response(outbound, arrivals.drop_first()),
            }
        }
    }
}

/// Hearing from a peer keeps a peer's invariant.
pub proof fn lemma_heard_wf<M>(n: NodeView<M>, from: NodeId)
    requires
        n.wf(),
    ensures
        n.heard(from).wf(),
{
    if from != n.id {
        lemma_touch(n.routing, from);
    }
}

/// Handling an envelope keeps a peer's invariant, its identity, its queue and
/// its open requests.
pub proof fn lemma_handle_wf<M>(n: NodeView<M>, e: Envelope<M>)
    requires
        n.wf(),
    ensures
        n.handle(e).0.wf(),
        n.handle(e).0.id == n.id,
        n.handle(e).0.k == n.k,
        n.handle(e).0.open == n.open,
        n.handle(e).0.pending == n.pending,
{
    if e.dst == n.id && e.content.is_request() {
        match e.content {
            Content::Store { key, value } => {
                lemma_heard_wf(n.stored(key, value), e.src);
            },
            _ => {
                lemma_heard_wf(n, e.src);
            },
        }
    }
}

/// A drain pass keeps a peer's invariant, its identity and its open requests.
pub proof fn lemma_drain_step_wf<M>(
    n: NodeView<M>,
    queue: Seq<Envelope<M>>,
    kept: Seq<Envelope<M>>,
    out: Seq<Envelope<M>>,
)
    requires
        n.wf(),
    ensures
        n.drain_step(queue, kept, out).0.wf(),
        n.drain_step(queue, kept, out).0.id == n.id,
        n.drain_step(queue, kept, out).0.k == n.k,
        n.drain_step(queue, kept, out).0.open == n.open,
    decreases queue.len(),
{
    if queue.len() > 0 {
        lemma_handle_wf(n, queue[0]);
        let (next, outcome) = n.handle(queue[0]);
        match outcome {
            Outcome::Replied(reply) => lemma_drain_step_wf(
                next,
                queue.drop_first(),
                kept,
                out.push(reply),
            ),
            Outcome::Deferred => lemma_drain_step_wf(
                next,
                queue.drop_first(),
                kept.push(queue[0]),
                out,
            ),
            Outcome::Dropped => lemma_drain_step_wf(next, queue.drop_first(), kept, out),
        }
    }
}

/// No two requests that are open at the same time share a token: the token
/// given to a new request differs from that of every request still open, and
/// the open requests stay pairwise different.
pub proof fn lemma_tokens_differ<M>(n: NodeView<M>, nonce: u128)
    requires
        n.wf(),
        n.open.len() <= usize::MAX,
    ensures
        !n.open.contains(n.token_for(nonce).0),
        n.opened(n.token_for(nonce)).wf(),
        !n.open.contains(nonce) ==> n.token_for(nonce) == Cookie(nonce),
{
    assert(usize::MAX <= u64::MAX);
    lemma_first_free(n.open, nonce);
}

/// A peer with an empty queue that receives a request addressed to it serves
/// the request and publishes one reply, under the token of the request.
pub proof fn lemma_receive_request<M>(n: NodeView<M>, e: Envelope<M>)
    requires
        n.pending.len() == 0,
        e.dst == n.id,
        e.content.is_request(),
    ensures
        n.receive(e) == (
            n.served(e.src, e.content),
            seq![
                Envelope {
                    src: n.id,
                    dst: e.src,
                    cookie: e.cookie,
                    content: n.answer(e.content),
                },
            ],
        ),
        n.served(e.src, e.content).pending.len() == 0,
        n.served(e.src, e.content).open == n.open,
        n.served(e.src, e.content).id == n.id,
        n.served(e.src, e.content).k == n.k,
        !n.answer(e.content).is_request(),
{
    let queued = NodeView { pending: n.pending.push(e), ..n };
    let start = NodeView { pending: Seq::<Envelope<M>>::empty(), ..queued };
    assert(n.pending =~= Seq::empty());
    assert(start == n);
    let (next, outcome) = start.handle(e);
    let reply = Envelope { src: n.id, dst: e.src, cookie: e.cookie, content: n.answer(e.content) };
    assert(outcome == Outcome::Replied(reply));
    assert(queued.pending[0] == e);
    assert(queued.pending.drop_first() =~= Seq::empty());
    assert(Seq::<Envelope<M>>::empty().push(reply) =~= seq![reply]);
    reveal_with_fuel(NodeView::drain_step, 3);
    assert(next.pending =~= Seq::empty());
    assert((NodeView { pending: Seq::<Envelope<M>>::empty(), ..next }) == next);
}

/// A request whose only arrival is its answer takes it: the request is
/// closed and the answerer heard from.
pub proof fn lemma_await_answer<M>(n: NodeView<M>, outbound: Envelope<M>, answer: Envelope<M>)
    requires
        answer.cookie == outbound.cookie,
        answer != outbound,
    ensures
        n.await_response(outbound, seq![answer]) == (
            n.closed(outbound.cookie).heard(answer.src),
            Some(answer),
        ),
{
    let next = n.closed(outbound.cookie).heard(answer.src);
    assert(seq![answer].drop_first() =~= Seq::empty());
    assert(next.pending + Seq::<Envelope<M>>::empty() =~= next.pending);
    assert((NodeView { pending: next.pending + seq![answer].drop_first(), ..next }) == next);
}

/// A request that nothing arrives for, at a peer with an empty queue, ends
/// without an answer and leaves the peer as it was before the request.
pub proof fn lemma_await_nothing<M>(n: NodeView<M>, outbound: Envelope<M>)
    requires
        n.wf(),
        n.pending.len() == 0,
        !n.open.contains(outbound.cookie.0),
    ensures
        n.opened(outbound.cookie).await_response(outbound, Seq::empty()) == (n, None::<Envelope<M>>),
{
    lemma_closed_wf(n, outbound.cookie);
}

/// `last_answer` finds an answer exactly when the queue holds one.
pub proof fn lemma_last_answer<M>(queue: Seq<Envelope<M>>, outbound: Envelope<M>)
    ensures
        -1 <= last_answer(queue, outbound) < queue.len(),
        last_answer(queue, outbound) >= 0 ==> answers(outbound, queue[last_answer(queue, outbound)]),
        last_answer(queue, outbound) < 0 <==> forall|i: int|
            0 <= i < queue.len() ==> !answers(outbound, #[trigger] queue[i]),
    decreases queue.len(),
{
    if queue.len() > 0 {
        let front = queue.drop_last();
        lemma_last_answer(front, outbound);
        if !answers(outbound, queue.last()) {
            assert forall|i: int| 0 <= i < front.len() implies front[i] == queue[i] by {}
            if last_answer(front, outbound) < 0 {
                assert forall|i: int| 0 <= i < queue.len() implies !answers(
                    outbound,
                    #[trigger] queue[i],
                ) by {
                    if i < front.len() {
                        assert(front[i] == queue[i]);
                    }
                }
            } else {
                assert(queue[last_answer(front, outbound)] == front[last_answer(front, outbound)]);
            }
        }
    }
}

/// Where a scan from the newest end of the queue stops. If nothing from index
/// `i` on answers the request, the last answer in the queue is the last
/// answer among the first `i` envelopes; and it is the envelope just before
/// `i` if that one answers.
pub proof fn lemma_last_answer_scan<M>(queue: Seq<Envelope<M>>, outbound: Envelope<M>, i: int)
    requires
        0 <= i <= queue.len(),
        forall|j: int| i <= j < queue.len() ==> !answers(outbound, #[trigger] queue[j]),
    ensures
        last_answer(queue, outbound) == last_answer(queue.take(i), outbound),
        i > 0 && answers(outbound, queue[i - 1]) ==> last_answer(queue, outbound) == i - 1,
        i == 0 ==> last_answer(queue, outbound) == -1,
    decreases queue.len() - i,
{
    if i < queue.len() {
        let front = queue.drop_last();
        assert(!answers(outbound, queue[queue.len() - 1]));
        assert forall|j: int| i <= j < front.len() implies !answers(outbound, #[trigger] front[j]) by {
            assert(front[j] == queue[j]);
        }
        lemma_last_answer_scan(front, outbound, i);
        assert(front.take(i) =~= queue.take(i));
    } else {
        assert(queue.take(i) =~= queue);
    }
    if i > 0 {
        assert(queue.take(i).last() == queue[i - 1]);
    }
}

/// What a request gets back. The answer carries the request's token and is
/// never the request itself. There is no answer exactly when nothing that
/// arrived answers the request and nothing that was queued does.
pub proof fn lemma_await_response<M>(
    n: NodeView<M>,
    outbound: Envelope<M>,
    arrivals: Seq<Envelope<M>>,
)
    ensures
        n.await_response(outbound, arrivals).1 matches Some(r) ==> answers(outbound, r),
        n.await_response(outbound, arrivals).1 is None <==> (forall|i: int|
            0 <= i < arrivals.len() ==> !answers(outbound, #[trigger] arrivals[i])) && (forall|
            j: int,
        | 0 <= j < n.pending.len() ==> !answers(outbound, #[trigger] n.pending[j])),
    decreases arrivals.len(),
{
    if arrivals.len() == 0 {
        lemma_last_answer(n.pending, outbound);
    } else {
        let first = arrivals[0];
        let rest = arrivals.drop_first();
        let (next, ruling) = n.accept(outbound, first);
        assert forall|i: int| 0 <= i < rest.len() implies rest[i] == arrivals[i + 1] by {}
        match ruling {
            Ruling::Matched(answer) => {
                assert(answers(outbound, arrivals[0]));
            },
            _ => {
                lemma_await_response(next, outbound, rest);
                let none_in_rest = forall|i: int|
                    0 <= i < rest.len() ==> !answers(outbound, #[trigger] rest[i]);
                let none_arrived = forall|i: int|
                    0 <= i < arrivals.len() ==> !answers(outbound, #[trigger] arrivals[i]);
                let none_next = forall|j: int|
                    0 <= j < next.pending.len() ==> !answers(outbound, #[trigger] next.pending[j]);
                let none_queued = forall|j: int|
                    0 <= j < n.pending.len() ==> !answers(outbound, #[trigger] n.pending[j]);
                assert(!answers(outbound, first));
                if none_arrived {
                    assert forall|i: int| 0 <= i < rest.len() implies !answers(
                        outbound,
                        #[trigger] rest[i],
                    ) by {
                        assert(rest[i] == arrivals[i + 1]);
                    }
                }
                if none_in_rest {
                    assert forall|i: int| 0 <= i < arrivals.len() implies !answers(
                        outbound,
                        #[trigger] arrivals[i],
                    ) by {
                        if i > 0 {
                            assert(rest[i - 1] == arrivals[i]);
                        }
                    }
                }
                if none_queued {
                    assert forall|j: int| 0 <= j < next.pending.len() implies !answers(
                        outbound,
                        #[trigger] next.pending[j],
                    ) by {
                        if j < n.pending.len() {
                            assert(next.pending[j] == n.pending[j]);
                        }
                    }
                }
                if none_next {
                    assert forall|j: int| 0 <= j < n.pending.len() implies !answers(
                        outbound,
                        #[trigger] n.pending[j],
                    ) by {
                        assert(next.pending[j] == n.pending[j]);
                    }
                }
            },
        }
    }
}

/// The invariant does not depend on what is queued.
pub proof fn lemma_pending_keeps_wf<M>(n: NodeView<M>, queue: Seq<Envelope<M>>)
    requires
        n.wf(),
    ensures
        (NodeView { pending: queue, ..n }).wf(),
{
}

/// Closing a request keeps a peer's invariant.
pub proof fn lemma_closed_wf<M>(n: NodeView<M>, token: Cookie)
    requires
        n.wf(),
    ensures
        n.closed(token).wf(),
        !n.closed(token).open.contains(token.0),
        !n.open.contains(token.0) ==> n.opened(token).closed(token) == n,
{
    lemma_without(n.open, token.0);
}

impl<V: View> View for Node<V> {
    type V = NodeView<V::V>;

    closed spec fn view(&self) -> NodeView<V::V> {
        NodeView {
            id: self.id,
            k: self.k as nat,
            store: self.data@.map_values(|v: V| v@),
            routing: self.routing@,
            pending: envelopes(self.pending@),
            open: self.open@,
        }
    }
}

impl<V: Value> Node<V> {
    /// The peer's invariant.
    pub open spec fn wf(&self) -> bool {
        self@.wf()
    }

    /// A peer with a freshly drawn random identifier that holds nothing and
    /// knows nobody.
    pub fn new() -> (node: Node<V>)
        ensures
            node@ == NodeView::<V::V>::fresh(node@.id, DEFAULT_K as nat),
            node.wf(),
    {
        Node::with_id(NodeId(random_u128()), DEFAULT_K)
    }

    /// A peer named `id` that lists `k` candidates per answer, holds nothing
    /// and knows nobody.
    pub fn with_id(id: NodeId, k: usize) -> (node: Node<V>)
        ensures
            node@ == NodeView::<V::V>::fresh(id, k as nat),
            node.wf(),
    {
        let node = Node {
            id,
            k,
            data: HashMap::new(),
            routing: Routing::new(),
            pending: Vec::new(),
            open: Vec::new(),
        };
        assert(node@.store =~= Map::empty());
        assert(node@.pending =~= Seq::empty());
        node
    }

    /// The peer's identifier.
    pub fn get_id(&self) -> (id: NodeId)
        ensures
            id == self@.id,
    {
        self.id
    }

    /// How many candidates this peer lists per answer.
    pub fn k(&self) -> (k: usize)
        ensures
            k == self@.k,
    {
        self.k
    }

    /// Keeps `value` under `key` in the local part of the table, in place of
    /// what was there.
    pub fn store(&mut self, key: u128, value: V)
        ensures
            final(self)@ == old(self)@.stored(key, value@),
    {
        self.data.insert(key, value);
        assert(self@.store =~= old(self)@.store.insert(key, value@));
    }

    /// A copy of the value kept locally under `key`.
    pub fn get(&self, key: u128) -> (value: Option<V>)
        ensures
            match value {
                Some(v) => self@.store.contains_key(key) && v@ == self@.store[key],
                None => !self@.store.contains_key(key),
            },
    {
        match self.data.get(&key) {
            Some(v) => Some(v.duplicate()),
            None => None,
        }
    }

    /// Records that `from` was heard from.
    pub fn hear(&mut self, from: NodeId)
        requires
            old(self).wf(),
        ensures
            final(self)@ == old(self)@.heard(from),
            final(self).wf(),
    {
        proof {
            lemma_heard_wf(self@, from);
        }
        if from != self.id {
            self.routing.touch(from);
        }
    }

    /// Every known neighbour, from the first met to the last.
    pub fn neighbors(&self) -> (ids: Vec<NodeId>)
        ensures
            ids@ == self@.routing.neighbors,
    {
        self.routing.neighbors()
    }

    /// The recent contacts, from the oldest to the newest.
    pub fn recent(&self) -> (ids: Vec<NodeId>)
        ensures
            ids@ == self@.routing.recent,
    {
        self.routing.recent()
    }

    /// The `n` known identifiers closest to `target`, closest first.
    pub fn closest(&self, target: &NodeId, n: usize) -> (ids: Vec<NodeId>)
        ensures
            ids@ == self@.routing.closest(*target, n as nat),
    {
        self.routing.closest(target, n)
    }

    /// Begins a lookup for `target`: its shortlist starts from the `alpha`
    /// identifiers closest to `target` that this peer knows. Whoever runs the
    /// peer sends the requests that the lookup asks for.
    pub fn find_node(&self, target: NodeId, alpha: usize, max_rounds: usize) -> (lk: Lookup)
        ensures
            lk@ == self@.begin_lookup(target, alpha as nat, max_rounds as nat),
            lk.wf(),
    {
        let seeds = self.routing.closest(&target, alpha);
        Lookup::start(self.id, target, &seeds, alpha, self.k, max_rounds)
    }

    /// How many envelopes are queued.
    pub fn pending_len(&self) -> (n: usize)
        ensures
            n == self@.pending.len(),
    {
        self.pending.len()
    }

    /// How many requests are open.
    pub fn open_len(&self) -> (n: usize)
        ensures
            n == self@.open.len(),
    {
        self.open.len()
    }

    /// Whether a request is open under `token`.
    pub fn awaits(&self, token: Cookie) -> (open: bool)
        ensures
            open == self@.open.contains(token.0),
    {
        holds(&self.open, token.0)
    }

    /// Handles one envelope. One that is addressed to another peer is
    /// dropped. A request is served: a `Store` is applied, the sender is
    /// merged into the routing knowledge, and the reply goes back under the
    /// request's token. An answer stays queued while the request it belongs to
    /// is open, and is dropped otherwise.
    pub fn handle_message(&mut self, msg: &Message<V>) -> (out: Handled<V>)
        requires
            old(self).wf(),
        ensures
            final(self)@ == old(self)@.handle(msg@).0,
            out@ == old(self)@.handle(msg@).1,
            final(self).wf(),
    {
        proof {
            lemma_handle_wf(self@, msg@);
        }
        if msg.dst != self.id {
            return Handled::Dropped;
        }
        match &msg.body {
            Body::Request(request) => {
                assert(request@.is_request());
                let reply = match request {
                    Payload::Ping => Reply::Ack,
                    Payload::Store { key, value } => {
                        self.data.insert(*key, value.duplicate());
                        assert(self@.store =~= old(self)@.store.insert(*key, value@));
                        Reply::Ack
                    },
                    Payload::FindNode(target) => Reply::Nodes(self.routing.closest(target, self.k)),
                    Payload::FindValue(key) => match self.data.get(key) {
                        Some(v) => Reply::Found(v.duplicate()),
                        None => Reply::Nodes(self.routing.closest(&NodeId(*key), self.k)),
                    },
                };
                if msg.src != self.id {
                    self.routing.touch(msg.src);
                }
                Handled::Replied(msg.answer(reply))
            },
            Body::Reply(reply) => {
                assert(!reply@.is_request());
                if holds(&self.open, msg.cookie.0) {
                    Handled::Deferred
                } else {
                    Handled::Dropped
                }
            },
        }
    }

    /// One drain pass: handles every queued envelope, oldest first. What was
    /// handled leaves the queue; an answer that its request has yet to claim
    /// stays. Returns the replies to publish.
    pub fn drain_messages(&mut self) -> (replies: Vec<Message<V>>)
        requires
            old(self).wf(),
        ensures
            final(self)@ == old(self)@.drain().0,
            envelopes(replies@) == old(self)@.drain().1,
            final(self).wf(),
    {
        let mut queue: Vec<Message<V>> = Vec::new();
        std::mem::swap(&mut self.pending, &mut queue);
        let mut kept: Vec<Message<V>> = Vec::new();
        let mut replies: Vec<Message<V>> = Vec::new();
        assert(self@.pending =~= Seq::empty());
        assert(self@ == (NodeView { pending: Seq::empty(), ..old(self)@ }));
        assert(envelopes(queue@) == old(self)@.pending);
        assert(envelopes(kept@) =~= Seq::empty());
        assert(envelopes(replies@) =~= Seq::empty());
        while queue.len() > 0
            invariant
                self.wf(),
                self@.pending.len() == 0,
                self@.drain_step(envelopes(queue@), envelopes(kept@), envelopes(replies@)) == old(
                    self,
                )@.drain(),
            decreases queue.len(),
        {
            let ghost before = envelopes(queue@);
            let ghost kept_before = envelopes(kept@);
            let ghost out_before = envelopes(replies@);
            let msg = queue.remove(0);
            assert(envelopes(queue@) =~= before.drop_first());
            assert(msg@ == before[0]);
            proof {
                lemma_handle_wf(self@, msg@);
            }
            match self.handle_message(&msg) {
                Handled::Replied(reply) => {
                    replies.push(reply);
                    assert(envelopes(replies@) =~= out_before.push(reply@));
                },
                Handled::Deferred => {
                    kept.push(msg);
                    assert(envelopes(kept@) =~= kept_before.push(msg@));
                },
                Handled::Dropped => {},
            }
        }
        proof {
            lemma_drain_step_wf(
                NodeView { pending: Seq::empty(), ..old(self)@ },
                old(self)@.pending,
                Seq::empty(),
                Seq::empty(),
            );
        }
        self.pending = kept;
        assert(self@.pending =~= envelopes(kept@));
        replies
    }

    /// The step of the message loop: queues `msg` and runs a drain pass.
    /// Returns the replies to publish.
    pub fn receive_message(&mut self, msg: Message<V>) -> (replies: Vec<Message<V>>)
        requires
            old(self).wf(),
        ensures
            final(self)@ == old(self)@.receive(msg@).0,
            envelopes(replies@) == old(self)@.receive(msg@).1,
            final(self).wf(),
    {
        self.pending.push(msg);
        assert(self@.pending =~= old(self)@.pending.push(msg@));
        assert(self@ == (NodeView { pending: old(self)@.pending.push(msg@), ..old(self)@ }));
        self.drain_messages()
    }

    /// Opens a request for `payload` to `dst`, given the random `nonce` drawn
    /// for it. The token is `nonce`, or the first value after it that no open
    /// request uses. Returns the envelope to publish.
    pub fn send_message_with(&mut self, dst: NodeId, payload: Payload<V>, nonce: u128) -> (m:
        Message<V>)
        requires
            old(self).wf(),
        ensures
            m@ == (Envelope {
                src: old(self)@.id,
                dst,
                cookie: old(self)@.token_for(nonce),
                content: payload@,
            }),
            m.body == Body::Request(payload),
            final(self)@ == old(self)@.opened(old(self)@.token_for(nonce)),
            !old(self)@.open.contains(m.cookie.0),
            final(self)@.open.contains(m.cookie.0),
            final(self).wf(),
    {
        proof {
            assert(self.open.len() == self@.open.len());
            lemma_tokens_differ(self@, nonce);
        }
        let token = Cookie(pick_free(&self.open, nonce));
        self.open.push(token.0);
        assert(self.open@.last() == token.0);
        Message::request(self.id, dst, token, payload)
    }

    /// Opens a request for `payload` to `dst` under a freshly drawn token that
    /// no other open request of this peer uses. Returns the envelope to
    /// publish.
    pub fn send_message(&mut self, dst: NodeId, payload: Payload<V>) -> (m: Message<V>)
        requires
            old(self).wf(),
        ensures
            m@.src == old(self)@.id,
            m@.dst == dst,
            m@.content == payload@,
            m.body == Body::Request(payload),
            !old(self)@.open.contains(m.cookie.0),
            final(self)@.open.contains(m.cookie.0),
            final(self)@ == old(self)@.opened(m.cookie),
            final(self).wf(),
    {
        let nonce = random_u128();
        self.send_message_with(dst, payload, nonce)
    }

    /// The acceptance rule. `received` is ignored when it is the request
    /// `outbound` itself. It is the answer when it carries the token of
    /// `outbound`: the request is then closed and the answerer merged into the
    /// routing knowledge. Anything else is queued for the next drain pass.
    pub fn accept(&mut self, outbound: &Message<V>, received: Message<V>) -> (verdict: Verdict<V>)
        requires
            old(self).wf(),
        ensures
            final(self)@ == old(self)@.accept(outbound@, received@).0,
            verdict@ == old(self)@.accept(outbound@, received@).1,
            verdict matches Verdict::Matched(answer) ==> answer == received,
            final(self).wf(),
    {
        if received.same(outbound) {
            Verdict::Echo
        } else if received.cookie == outbound.cookie {
            self.close(outbound.cookie);
            self.hear(received.src);
            Verdict::Matched(received)
        } else {
            self.pending.push(received);
            assert(self@.pending =~= old(self)@.pending.push(received@));
            Verdict::Queued
        }
    }

    /// Closes the request under `token`, if one is open.
    fn close(&mut self, token: Cookie)
        requires
            old(self).wf(),
        ensures
            final(self)@ == old(self)@.closed(token),
            final(self).wf(),
    {
        proof {
            lemma_closed_wf(self@, token);
        }
        let mut i: usize = 0;
        while i < self.open.len() && self.open[i] != token.0
            invariant
                i <= self.open.len(),
                *self == *old(self),
                forall|j: int| 0 <= j < i ==> self.open@[j] != token.0,
            decreases self.open.len() - i,
        {
            i += 1;
        }
        if i < self.open.len() {
            assert(self.open@.contains(token.0));
            assert(self.open@.index_of(token.0) == i);
            self.open.remove(i);
        }
    }

    /// The deadline of the request `outbound` has passed. The request is
    /// closed. If an envelope that answers it sits in the queue, one that
    /// carries its token and is not the request itself, the one queued last
    /// is taken as the late answer, and its sender is merged into the routing
    /// knowledge.
    #[verifier::spinoff_prover]
    pub fn give_up(&mut self, outbound: &Message<V>) -> (late: Option<Message<V>>)
        requires
            old(self).wf(),
        ensures
            final(self)@ == old(self)@.give_up(outbound@).0,
            envelope_of(late) == old(self)@.give_up(outbound@).1,
            late matches Some(r) ==> answers(outbound@, r@),
            late is None <==> forall|j: int|
                0 <= j < old(self)@.pending.len() ==> !answers(
                    outbound@,
                    #[trigger] old(self)@.pending[j],
                ),
            final(self).wf(),
    {
        let ghost queue = self@.pending;
        let mut i: usize = self.pending.len();
        while i > 0 && !self.pending[i - 1].answers(outbound)
            invariant
                i <= self.pending.len(),
                *self == *old(self),
                queue == self@.pending,
                forall|j: int| i <= j < queue.len() ==> !answers(outbound@, #[trigger] queue[j]),
            decreases i,
        {
            i -= 1;
        }
        proof {
            lemma_last_answer(queue, outbound@);
            lemma_last_answer_scan(queue, outbound@, i as int);
            lemma_closed_wf(old(self)@, outbound.cookie);
        }
        self.close(outbound.cookie);
        if i == 0 {
            None
        } else {
            let late = self.pending.remove(i - 1);
            assert(self@.pending =~= queue.remove(i - 1));
            self.hear(late.src);
            Some(late)
        }
    }

    /// A request and everything that arrived before its deadline, oldest
    /// first. The first arrival that the acceptance rule takes as the answer
    /// is returned, and what arrived after it is queued. Without such an
    /// arrival the request gives up, which may still find a late answer in the
    /// queue.
    pub fn get_response(&mut self, outbound: &Message<V>, arrivals: Vec<Message<V>>) -> (answer:
        Option<Message<V>>)
        requires
            old(self).wf(),
        ensures
            final(self)@ == old(self)@.await_response(outbound@, envelopes(arrivals@)).0,
            envelope_of(answer) == old(self)@.await_response(outbound@, envelopes(arrivals@)).1,
            answer matches Some(r) ==> r@.cookie == outbound@.cookie && r@ != outbound@,
            answer is None <==> (forall|i: int|
                0 <= i < arrivals@.len() ==> !answers(outbound@, (#[trigger] arrivals@[i])@)) && (
            forall|j: int|
                0 <= j < old(self)@.pending.len() ==> !answers(
                    outbound@,
                    #[trigger] old(self)@.pending[j],
                )),
            final(self).wf(),
    {
        proof {
            let all = envelopes(arrivals@);
            lemma_await_response(old(self)@, outbound@, all);
            assert forall|i: int| 0 <= i < arrivals@.len() implies all[i] == arrivals@[i]@ by {}
            if forall|i: int| 0 <= i < all.len() ==> !answers(outbound@, #[trigger] all[i]) {
                assert forall|i: int| 0 <= i < arrivals@.len() implies !answers(
                    outbound@,
                    (#[trigger] arrivals@[i])@,
                ) by {
                    assert(all[i] == arrivals@[i]@);
                }
            }
            if forall|i: int|
                0 <= i < arrivals@.len() ==> !answers(outbound@, (#[trigger] arrivals@[i])@) {
                assert forall|i: int| 0 <= i < all.len() implies !answers(
                    outbound@,
                    #[trigger] all[i],
                ) by {
                    assert(all[i] == arrivals@[i]@);
                }
            }
        }
        let mut queue = arrivals;
        
        while queue.len() > 0
            invariant
                self.wf(),
                self@.await_response(outbound@, envelopes(queue@)) == old(self)@.await_response(
                    outbound@,
                    envelopes(arrivals@),
                ),
                old(self)@.await_response(outbound@, envelopes(arrivals@)).1 matches Some(r)
                    ==> answers(outbound@, r),
                old(self)@.await_response(outbound@, envelopes(arrivals@)).1 is None <==> (forall|
                    i: int,
                |
                    0 <= i < arrivals@.len() ==> !answers(outbound@, (#[trigger] arrivals@[i])@))
                    && (forall|j: int|
                    0 <= j < old(self)@.pending.len() ==> !answers(
                        outbound@,
                        #[trigger] old(self)@.pending[j],
                    )),
            decreases queue.len(),
        {
            let ghost before = envelopes(queue@);
            let ghost state = self@;
            let received = queue.remove(0);
            assert(envelopes(queue@) =~= before.drop_first());
            assert(received@ == before[0]);
            match self.accept(outbound, received) {
                Verdict::Matched(answer) => {
                    let ghost next = self@;
                    self.pending.append(&mut queue);
                    assert(self@.pending =~= next.pending + before.drop_first());
                    assert(self@ == (NodeView {
                        pending: next.pending + before.drop_first(),
                        ..next
                    }));
                    assert(state.accept(outbound@, before[0]) == (next, Ruling::Matched(answer@)));
                    assert(state.await_response(outbound@, before) == (self@, Some(answer@)));
                    proof {
                        lemma_pending_keeps_wf(next, next.pending + before.drop_first());
                    }
                    return Some(answer);
                },
                _ => {},
            }
        }
        self.give_up(outbound)
    }
}

} // verus!
