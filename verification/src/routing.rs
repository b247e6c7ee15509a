//! What a peer knows of other peers: a bounded list of those it heard from
//! most recently, and an unbounded list of every neighbour it ever met.

use vstd::prelude::*;
use std::collections::VecDeque;
use crate::ident::NodeId;
use crate::closest::{closest, closest_to};
use crate::lists::{copy_ids, lemma_without, without};

verus! {

/// How many identifiers the recency list keeps.
pub const RECENT_CAPACITY: usize = 16;

/// Routing knowledge of one peer.
#[derive(Debug)]
pub struct Routing {
    recent: VecDeque<NodeId>,
    neighbors: Vec<NodeId>,
}

/// Mathematical model of `Routing`. `recent` runs from the oldest contact to
/// the newest, `neighbors` from the first met to the last.
pub struct RoutingView {
    pub recent: Seq<NodeId>,
    pub neighbors: Seq<NodeId>,
}

/// `s` with `id` at its end, if `s` does not hold it yet.
pub open spec fn with_new(s: Seq<NodeId>, id: NodeId) -> Seq<NodeId> {
    if s.contains(id) {
        s
    } else {
        s.push(id)
    }
}

/// `s` with `id` moved or added to its newest end; the oldest member leaves
/// when that makes more than `RECENT_CAPACITY`.
pub open spec fn refreshed(s: Seq<NodeId>, id: NodeId) -> Seq<NodeId> {
    let moved = without(s, id).push(id);
    if moved.len() > RECENT_CAPACITY {
        moved.drop_first()
    } else {
        moved
    }
}

impl RoutingView {
    /// Knowledge of nobody.
    pub open spec fn empty() -> RoutingView {
        RoutingView { recent: Seq::empty(), neighbors: Seq::empty() }
    }

    /// No identifier is listed twice, the recency list keeps to its bound, and
    /// whoever is recent is also a neighbour.
    pub open spec fn wf(self) -> bool {
        &&& self.recent.no_duplicates()
        &&& self.recent.len() <= RECENT_CAPACITY
        &&& self.neighbors.no_duplicates()
        &&& forall|x: NodeId| self.recent.contains(x) ==> self.neighbors.contains(x)
    }

    /// The knowledge after hearing from `id`.
    pub open spec fn touch(self, id: NodeId) -> RoutingView {
        RoutingView { recent: refreshed(self.recent, id), neighbors: with_new(self.neighbors, id) }
    }

    /// Whether `id` is known, as a recent contact or as a neighbour.
    pub open spec fn knows(self, id: NodeId) -> bool {
        self.recent.contains(id) || self.neighbors.contains(id)
    }

    /// The `n` known identifiers closest to `target`, closest first. In
    /// well-formed knowledge every recent contact is a neighbour too, so the
    /// neighbours are all that is known.
    pub open spec fn closest(self, target: NodeId, n: nat) -> Seq<NodeId> {
        closest_to(self.neighbors, target, n)
    }
}

/// Hearing from a peer keeps the knowledge well formed, makes that peer known,
/// and forgets no neighbour.
pub proof fn lemma_touch(r: RoutingView, id: NodeId)
    requires
        r.wf(),
    ensures
        r.touch(id).wf(),
        r.touch(id).neighbors.contains(id),
        r.touch(id).recent.len() > 0,
        r.touch(id).recent.last() == id,
        forall|x: NodeId| r.neighbors.contains(x) ==> r.touch(id).neighbors.contains(x),
        forall|x: NodeId| r.touch(id).neighbors.contains(x) ==> r.neighbors.contains(x) || x == id,
{
    let kept = without(r.recent, id);
    lemma_without(r.recent, id);
    let moved = kept.push(id);
    assert(moved.no_duplicates());
    assert forall|x: NodeId| moved.contains(x) implies x == id || r.recent.contains(x) by {
        let p = choose|p: int| 0 <= p < moved.len() && moved[p] == x;
        if p < kept.len() {
            assert(kept[p] == x);
        }
    }
    let after = r.touch(id);
    assert(after.recent.last() == id);
    assert forall|x: NodeId| after.recent.contains(x) implies moved.contains(x) by {
        let p = choose|p: int| 0 <= p < after.recent.len() && after.recent[p] == x;
        if moved.len() > RECENT_CAPACITY {
            assert(moved[p + 1] == x);
        }
    }
    assert(after.recent.no_duplicates()) by {
        if moved.len() > RECENT_CAPACITY {
            assert forall|i: int, j: int|
                0 <= i < after.recent.len() && 0 <= j < after.recent.len() && i != j implies after.recent[i]
                != after.recent[j] by {
                assert(after.recent[i] == moved[i + 1] && after.recent[j] == moved[j + 1]);
            }
        }
    }
    if !r.neighbors.contains(id) {
        assert(after.neighbors.last() == id);
        assert forall|x: NodeId| r.neighbors.contains(x) implies after.neighbors.contains(x) by {
            let p = choose|p: int| 0 <= p < r.neighbors.len() && r.neighbors[p] == x;
            assert(after.neighbors[p] == x);
        }
        assert forall|x: NodeId| after.neighbors.contains(x) implies r.neighbors.contains(x) || x
            == id by {
            let p = choose|p: int| 0 <= p < after.neighbors.len() && after.neighbors[p] == x;
            if p < r.neighbors.len() {
                assert(r.neighbors[p] == x);
            }
        }
    }
    assert(after.neighbors.contains(id));
}

impl View for Routing {
    type V = RoutingView;

    closed spec fn view(&self) -> RoutingView {
        RoutingView { recent: self.recent@, neighbors: self.neighbors@ }
    }
}

impl Routing {
    /// Knowledge of nobody.
    pub fn new() -> (r: Routing)
        ensures
            r@ == RoutingView::empty(),
            r@.wf(),
    {
        Routing { recent: VecDeque::new(), neighbors: Vec::new() }
    }

    /// Records that `id` was heard from: `id` becomes the newest recent
    /// contact, the oldest one leaves if the recency list is full, and `id`
    /// joins the neighbours if it is new.
    pub fn touch(&mut self, id: NodeId)
        requires
            old(self)@.wf(),
        ensures
            final(self)@ == old(self)@.touch(id),
            final(self)@.wf(),
    {
        proof {
            lemma_touch(self@, id);
        }
        let ghost before = self.recent@;
        let mut i: usize = 0;
        while i < self.recent.len() && self.recent[i] != id
            invariant
                i <= self.recent.len(),
                self.recent@ == before,
                self.neighbors == old(self).neighbors,
                forall|j: int| 0 <= j < i ==> before[j] != id,
            decreases self.recent.len() - i,
        {
            i += 1;
        }
        if i < self.recent.len() {
            assert(before.contains(id));
            assert(before.index_of(id) == i);
            self.recent.remove(i);
        }
        self.recent.push_back(id);
        if self.recent.len() > RECENT_CAPACITY {
            self.recent.pop_front();
            assert(self.recent@ == without(before, id).push(id).drop_first());
        }
        let mut j: usize = 0;
        let mut met: bool = false;
        while j < self.neighbors.len()
            invariant
                j <= self.neighbors.len(),
                self.neighbors == old(self).neighbors,
                self.recent@ == refreshed(before, id),
                met == exists|p: int| 0 <= p < j && self.neighbors@[p] == id,
            decreases self.neighbors.len() - j,
        {
            if self.neighbors[j] == id {
                met = true;
            }
            j += 1;
        }
        if !met {
            self.neighbors.push(id);
        }
    }

    /// Whether `id` is a known neighbour.
    pub fn knows(&self, id: NodeId) -> (known: bool)
        requires
            self@.wf(),
        ensures
            known == self@.knows(id),
    {
        let mut j: usize = 0;
        while j < self.neighbors.len()
            invariant
                j <= self.neighbors.len(),
                forall|p: int| 0 <= p < j ==> self.neighbors@[p] != id,
            decreases self.neighbors.len() - j,
        {
            if self.neighbors[j] == id {
                return true;
            }
            j += 1;
        }
        false
    }

    /// Every known neighbour, from the first met to the last.
    pub fn neighbors(&self) -> (ids: Vec<NodeId>)
        ensures
            ids@ == self@.neighbors,
    {
        copy_ids(&self.neighbors)
    }

    /// The recent contacts, from the oldest to the newest.
    pub fn recent(&self) -> (ids: Vec<NodeId>)
        ensures
            ids@ == self@.recent,
    {
        let mut ids: Vec<NodeId> = Vec::new();
        let mut i: usize = 0;
        while i < self.recent.len()
            invariant
                i <= self.recent.len(),
                ids@ == self.recent@.take(i as int),
            decreases self.recent.len() - i,
        {
            ids.push(self.recent[i]);
            i += 1;
        }
        assert(self.recent@.take(self.recent.len() as int) == self.recent@);
        ids
    }

    /// The `n` known identifiers closest to `target`, closest first.
    pub fn closest(&self, target: &NodeId, n: usize) -> (ids: Vec<NodeId>)
        ensures
            ids@ == self@.closest(*target, n as nat),
    {
        closest(&self.neighbors, target, n)
    }
}

} // verus!
