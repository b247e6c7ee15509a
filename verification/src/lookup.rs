//! The coordinator of an iterative lookup.
//!
//! A lookup keeps a shortlist of candidates in ascending distance to its
//! target. Round after round it asks the closest candidates that it has not
//! asked yet, never more than are missing for `k` answers, merges what they
//! answer into the shortlist, and stops when a round brings the closest known
//! candidate no nearer, when `k` candidates have answered, when nobody is left
//! to ask, or at its ceiling of rounds.
//! The coordinator decides; whoever runs it sends the requests and reports
//! what came back.

use vstd::prelude::*;
use crate::closest::{
    ascending, insert_by_distance, insert_sorted, lemma_ascending_no_duplicates,
    lemma_insert_sorted, lemma_without_ascending, prefix,
};
use crate::ident::NodeId;
use crate::lists::{contains_id, copy_ids, lemma_without, remove_id, without};

verus! {

/// How many candidates a round asks at once, unless told otherwise.
pub const DEFAULT_ALPHA: usize = 3;

/// After how many rounds a lookup ends whatever it has found, unless told
/// otherwise.
pub const DEFAULT_MAX_ROUNDS: usize = 32;

/// State of one lookup.
#[derive(Debug)]
pub struct Lookup {
    origin: NodeId,
    target: NodeId,
    alpha: usize,
    k: usize,
    max_rounds: usize,
    shortlist: Vec<NodeId>,
    asked: Vec<NodeId>,
    answered: Vec<NodeId>,
    rounds: usize,
    mark: u128,
    heard: bool,
    done: bool,
}

/// Mathematical model of a lookup.
pub struct LookupView {
    /// The peer that runs the lookup; it is never a candidate.
    pub origin: NodeId,
    pub target: NodeId,
    /// Requests per round.
    pub alpha: nat,
    /// How many answers are enough.
    pub k: nat,
    /// Ceiling on the number of rounds.
    pub max_rounds: nat,
    /// Candidates not known to be unresponsive, closest first.
    pub shortlist: Seq<NodeId>,
    /// Candidates that were sent a request, in the order asked.
    pub asked: Seq<NodeId>,
    /// Candidates that answered, closest first.
    pub answered: Seq<NodeId>,
    /// Rounds begun.
    pub rounds: nat,
    /// Distance of the closest candidate when the running round began.
    pub mark: u128,
    /// Whether anybody answered in the running round.
    pub heard: bool,
    pub done: bool,
}

/// `list` with every member of `ids` put in its place by distance to
/// `target`, but for `origin` and for those in `asked`.
pub open spec fn absorb(
    list: Seq<NodeId>,
    target: NodeId,
    origin: NodeId,
    asked: Seq<NodeId>,
    ids: Seq<NodeId>,
) -> Seq<NodeId>
    decreases ids.len(),
{
    if ids.len() == 0 {
        list
    } else {
        let before = absorb(list, target, origin, asked, ids.drop_last());
        if ids.last() == origin || asked.contains(ids.last()) {
            before
        } else {
            insert_sorted(before, target, ids.last())
        }
    }
}

/// The members of `list` that are not in `asked`, in the order of `list`.
pub open spec fn unasked(list: Seq<NodeId>, asked: Seq<NodeId>) -> Seq<NodeId>
    decreases list.len(),
{
    if list.len() == 0 {
        Seq::empty()
    } else if asked.contains(list.last()) {
        unasked(list.drop_last(), asked)
    } else {
        unasked(list.drop_last(), asked).push(list.last())
    }
}

/// Absorbing keeps the order, and adds nothing but members of `ids`.
pub proof fn lemma_absorb(
    list: Seq<NodeId>,
    target: NodeId,
    origin: NodeId,
    asked: Seq<NodeId>,
    ids: Seq<NodeId>,
)
    requires
        ascending(list, target),
    ensures
        ascending(absorb(list, target, origin, asked, ids), target),
        forall|x: NodeId|
            #![trigger absorb(list, target, origin, asked, ids).contains(x)]
            #![trigger list.contains(x)]
            #![trigger ids.contains(x)]
            absorb(list, target, origin, asked, ids).contains(x) <==> (list.contains(x) || (
            ids.contains(x) && x != origin && !asked.contains(x))),
        absorb(list, target, origin, asked, ids).len() <= list.len() + ids.len(),
    decreases ids.len(),
{
    if ids.len() > 0 {
        let front = ids.drop_last();
        lemma_absorb(list, target, origin, asked, front);
        let before = absorb(list, target, origin, asked, front);
        lemma_insert_sorted(before, target, ids.last());
        assert forall|x: NodeId|
            absorb(list, target, origin, asked, ids).contains(x) <==> (list.contains(x) || (
            ids.contains(x) && x != origin && !asked.contains(x))) by {
            if ids.contains(x) {
                let p = choose|p: int| 0 <= p < ids.len() && ids[p] == x;
                if p < ids.len() - 1 {
                    assert(front[p] == x);
                }
            }
            if front.contains(x) {
                let p = choose|p: int| 0 <= p < front.len() && front[p] == x;
                assert(ids[p] == x);
            }
        }
    }
}

/// While nobody has been asked, everybody is unasked.
pub proof fn lemma_unasked_all(list: Seq<NodeId>)
    ensures
        unasked(list, Seq::empty()) == list,
    decreases list.len(),
{
    if list.len() > 0 {
        lemma_unasked_all(list.drop_last());
        assert(list.drop_last().push(list.last()) =~= list);
    }
}

/// A list of which nobody has been asked is unasked as a whole.
pub proof fn lemma_unasked_none(list: Seq<NodeId>, asked: Seq<NodeId>)
    requires
        forall|i: int| 0 <= i < list.len() ==> !asked.contains(#[trigger] list[i]),
    ensures
        unasked(list, asked) == list,
    decreases list.len(),
{
    if list.len() > 0 {
        let front = list.drop_last();
        assert forall|i: int| 0 <= i < front.len() implies !asked.contains(#[trigger] front[i]) by {
            assert(front[i] == list[i]);
        }
        lemma_unasked_none(front, asked);
        assert(!asked.contains(list[list.len() - 1]));
        assert(front.push(list.last()) =~= list);
    }
}

/// The unasked members of an ascending list are ascending, belong to the list
/// and have not been asked.
pub proof fn lemma_unasked(list: Seq<NodeId>, target: NodeId, asked: Seq<NodeId>)
    requires
        ascending(list, target),
    ensures
        ascending(unasked(list, asked), target),
        unasked(list, asked).len() <= list.len(),
        forall|x: NodeId|
            #![trigger unasked(list, asked).contains(x)]
            #![trigger list.contains(x)]
            unasked(list, asked).contains(x) <==> (list.contains(x) && !asked.contains(x)),
    decreases list.len(),
{
    if list.len() > 0 {
        let front = list.drop_last();
        lemma_unasked(front, target, asked);
        let u = unasked(front, asked);
        let r = unasked(list, asked);
        assert forall|x: NodeId| r.contains(x) <==> (list.contains(x) && !asked.contains(x)) by {
            if r.contains(x) {
                let p = choose|p: int| 0 <= p < r.len() && r[p] == x;
                if p < u.len() {
                    assert(u[p] == x);
                    assert(u.contains(x));
                    assert(front.contains(x) && !asked.contains(x));
                    let q = choose|q: int| 0 <= q < front.len() && front[q] == x;
                    assert(list[q] == x);
                } else {
                    assert(x == list.last());
                    assert(list[list.len() - 1] == x);
                }
            }
            if list.contains(x) && !asked.contains(x) {
                let q = choose|q: int| 0 <= q < list.len() && list[q] == x;
                if q < front.len() {
                    assert(front[q] == x);
                    assert(u.contains(x));
                    let p = choose|p: int| 0 <= p < u.len() && u[p] == x;
                    assert(r[p] == x);
                } else {
                    assert(r[r.len() - 1] == x);
                }
            }
        }
        if !asked.contains(list.last()) {
            assert forall|i: int, j: int| 0 <= i < j < r.len() implies (#[trigger] r[i]).spec_dist(
                &target,
            ) < (#[trigger] r[j]).spec_dist(&target) by {
                if j < u.len() {
                    assert(r[i] == u[i] && r[j] == u[j]);
                } else {
                    assert(r[i] == u[i]);
                    assert(u.contains(u[i]));
                    assert(front.contains(u[i]));
                    let q = choose|q: int| 0 <= q < front.len() && front[q] == u[i];
                    assert(list[q] == u[i]);
                    assert(list[q].spec_dist(&target) < list[list.len() - 1].spec_dist(&target));
                }
            }
        }
    }
}

impl LookupView {
    /// A lookup by `origin` for `target` that starts from `seeds`.
    pub open spec fn start(
        origin: NodeId,
        target: NodeId,
        seeds: Seq<NodeId>,
        alpha: nat,
        k: nat,
        max_rounds: nat,
    ) -> LookupView {
        LookupView {
            origin,
            target,
            alpha,
            k,
            max_rounds,
            shortlist: absorb(Seq::empty(), target, origin, Seq::empty(), seeds),
            asked: Seq::empty(),
            answered: Seq::empty(),
            rounds: 0,
            mark: 0,
            heard: false,
            done: false,
        }
    }

    /// The lookup's invariant: both lists are in ascending distance to the
    /// target, nobody is asked twice, whoever answered was asked and is still
    /// on the shortlist, the origin
    /// is no candidate, no more rounds were begun than the ceiling allows, no
    /// round asked more than `alpha` candidates, and every round asked
    /// somebody.
    pub open spec fn wf(self) -> bool {
        &&& ascending(self.shortlist, self.target)
        &&& ascending(self.answered, self.target)
        &&& self.asked.no_duplicates()
        &&& forall|x: NodeId| self.answered.contains(x) ==> self.asked.contains(x)
        &&& forall|x: NodeId| self.answered.contains(x) ==> self.shortlist.contains(x)
        &&& !self.shortlist.contains(self.origin)
        &&& self.rounds <= self.max_rounds
        &&& self.asked.len() <= self.alpha * self.rounds
        &&& self.rounds <= self.asked.len()
    }

    /// How many candidates the next round may ask: `alpha`, but no more than
    /// are missing for `k` answers.
    pub open spec fn room(self) -> nat {
        if self.answered.len() >= self.k {
            0
        } else if self.k - self.answered.len() < self.alpha {
            (self.k - self.answered.len()) as nat
        } else {
            self.alpha
        }
    }

    /// Whom the next round asks: the closest candidates that have not been
    /// asked yet, as many as there is room for.
    pub open spec fn batch(self) -> Seq<NodeId> {
        prefix(unasked(self.shortlist, self.asked), self.room())
    }

    /// Beginning of a round: the next state and whom to ask. Nobody is
    /// asked, and the lookup is over, when it was over before, when the
    /// ceiling of rounds is reached, when `k` candidates have answered, or
    /// when no candidate is left to ask.
    pub open spec fn begin_round(self) -> (LookupView, Seq<NodeId>) {
        if self.done || self.rounds >= self.max_rounds || self.batch().len() == 0 {
            (LookupView { done: true, ..self }, Seq::empty())
        } else {
            (
                LookupView {
                    asked: self.asked + self.batch(),
                    rounds: self.rounds + 1,
                    mark: self.shortlist[0].spec_dist(&self.target),
                    heard: false,
                    ..self
                },
                self.batch(),
            )
        }
    }

    /// Whether an answer or a silence of `from` is awaited.
    pub open spec fn awaits(self, from: NodeId) -> bool {
        self.asked.contains(from) && !self.answered.contains(from) && self.shortlist.contains(
            from,
        )
    }

    /// `from` answered with the candidates `nodes`: `from` is counted among
    /// those that answered and `nodes` are merged into the shortlist. An
    /// answer that is not awaited changes nothing.
    pub open spec fn answered_by(self, from: NodeId, nodes: Seq<NodeId>) -> LookupView {
        if self.awaits(from) {
            LookupView {
                answered: insert_sorted(self.answered, self.target, from),
                shortlist: absorb(self.shortlist, self.target, self.origin, self.asked, nodes),
                heard: true,
                ..self
            }
        } else {
            self
        }
    }

    /// `from` did not answer in time: it leaves the shortlist.
    pub open spec fn silent(self, from: NodeId) -> LookupView {
        if self.awaits(from) {
            LookupView { shortlist: without(self.shortlist, from), ..self }
        } else {
            self
        }
    }

    /// Whether the closest candidate is nearer than when the round began.
    pub open spec fn improved(self) -> bool {
        self.shortlist.len() > 0 && self.shortlist[0].spec_dist(&self.target) < self.mark
    }

    /// End of a round: the lookup is over when enough candidates have
    /// answered, or when somebody answered in this round and still the
    /// closest candidate is no nearer than when the round began.
    pub open spec fn end_round(self) -> LookupView {
        LookupView {
            done: self.done || self.answered.len() >= self.k || (self.heard && !self.improved()),
            ..self
        }
    }

    /// What the lookup found: the `k` closest candidates that answered,
    /// closest first.
    pub open spec fn found(self) -> Seq<NodeId> {
        prefix(self.answered, self.k)
    }
}

/// A lookup starts well formed.
pub proof fn lemma_start_wf(
    origin: NodeId,
    target: NodeId,
    seeds: Seq<NodeId>,
    alpha: nat,
    k: nat,
    max_rounds: nat,
)
    ensures
        LookupView::start(origin, target, seeds, alpha, k, max_rounds).wf(),
{
    lemma_absorb(Seq::empty(), target, origin, Seq::empty(), seeds);
    let lk = LookupView::start(origin, target, seeds, alpha, k, max_rounds);
    assert(!lk.shortlist.contains(origin));
    assert(alpha * 0 == 0) by (nonlinear_arith);
}

/// A lookup is bounded: beginning a round keeps the invariant, so never more
/// rounds are begun than the ceiling allows, no round asks more than `alpha`
/// candidates, nobody is asked twice, and each round asks somebody new and
/// uses up one of the rounds that are left. The number of rounds is thus at
/// most the number of candidates that were asked.
pub proof fn lemma_begin_round(lk: LookupView)
    requires
        lk.wf(),
    ensures
        lk.begin_round().0.wf(),
        lk.begin_round().1.len() <= lk.alpha,
        lk.begin_round().1.len() + lk.answered.len() <= lk.k || lk.begin_round().1.len() == 0,
        lk.begin_round().1.no_duplicates(),
        lk.begin_round().1.len() == 0 <==> lk.begin_round().0.done,
        lk.begin_round().1.len() > 0 ==> lk.begin_round().0.rounds == lk.rounds + 1,
        lk.begin_round().0.rounds <= lk.max_rounds,
        lk.begin_round().0.asked.len() <= lk.alpha * lk.begin_round().0.rounds,
        forall|x: NodeId| #[trigger]
            lk.begin_round().1.contains(x) ==> lk.shortlist.contains(x) && !lk.asked.contains(x),
        forall|x: NodeId| #[trigger]
            lk.begin_round().1.contains(x) ==> lk.begin_round().0.awaits(x),
{
    lemma_unasked(lk.shortlist, lk.target, lk.asked);
    let fresh = unasked(lk.shortlist, lk.asked);
    let batch = lk.batch();
    let after = lk.begin_round().0;
    assert forall|x: NodeId| batch.contains(x) implies fresh.contains(x) by {
        let p = choose|p: int| 0 <= p < batch.len() && batch[p] == x;
        assert(fresh[p] == x);
    }
    if !(lk.done || lk.rounds >= lk.max_rounds || batch.len() == 0) {
        assert(ascending(batch, lk.target)) by {
            assert forall|i: int, j: int| 0 <= i < j < batch.len() implies (#[trigger] batch[i]).spec_dist(
                &lk.target,
            ) < (#[trigger] batch[j]).spec_dist(&lk.target) by {
                assert(batch[i] == fresh[i] && batch[j] == fresh[j]);
            }
        }
        lemma_ascending_no_duplicates(batch, lk.target);
        let all = lk.asked + batch;
        assert forall|i: int, j: int| 0 <= i < all.len() && 0 <= j < all.len() && i != j implies all[i]
            != all[j] by {
            if i < lk.asked.len() && j >= lk.asked.len() {
                assert(batch.contains(batch[j - lk.asked.len()]));
                assert(lk.asked.contains(lk.asked[i]));
            } else if j < lk.asked.len() && i >= lk.asked.len() {
                assert(batch.contains(batch[i - lk.asked.len()]));
                assert(lk.asked.contains(lk.asked[j]));
            } else if i >= lk.asked.len() {
                assert(all[i] == batch[i - lk.asked.len()] && all[j] == batch[j - lk.asked.len()]);
            }
        }
        assert forall|x: NodeId| lk.answered.contains(x) implies all.contains(x) by {
            let p = choose|p: int| 0 <= p < lk.asked.len() && lk.asked[p] == x;
            assert(all[p] == x);
        }
        assert(lk.alpha * (lk.rounds + 1) == lk.alpha * lk.rounds + lk.alpha) by (nonlinear_arith);
        assert forall|x: NodeId| #[trigger] batch.contains(x) implies after.awaits(x) by {
            let p = choose|p: int| 0 <= p < batch.len() && batch[p] == x;
            assert(all[lk.asked.len() + p] == x);
            assert(fresh.contains(x));
        }
    }
}

/// Recording an answer keeps the invariant, and so does recording a silence
/// and ending a round.
pub proof fn lemma_report_wf(lk: LookupView, from: NodeId, nodes: Seq<NodeId>)
    requires
        lk.wf(),
    ensures
        lk.answered_by(from, nodes).wf(),
        lk.silent(from).wf(),
        lk.end_round().wf(),
        lk.answered_by(from, nodes).rounds == lk.rounds,
        lk.silent(from).rounds == lk.rounds,
        lk.end_round().rounds == lk.rounds,
{
    lemma_insert_sorted(lk.answered, lk.target, from);
    lemma_absorb(lk.shortlist, lk.target, lk.origin, lk.asked, nodes);
    lemma_without_ascending(lk.shortlist, lk.target, from);
    lemma_ascending_no_duplicates(lk.shortlist, lk.target);
    lemma_without(lk.shortlist, from);
}

impl View for Lookup {
    type V = LookupView;

    closed spec fn view(&self) -> LookupView {
        LookupView {
            origin: self.origin,
            target: self.target,
            alpha: self.alpha as nat,
            k: self.k as nat,
            max_rounds: self.max_rounds as nat,
            shortlist: self.shortlist@,
            asked: self.asked@,
            answered: self.answered@,
            rounds: self.rounds as nat,
            mark: self.mark,
            heard: self.heard,
            done: self.done,
        }
    }
}

impl Lookup {
    /// The lookup's invariant.
    pub open spec fn wf(&self) -> bool {
        self@.wf()
    }

    /// Merges `ids` into the shortlist, but for the origin and for those that
    /// were asked already.
    fn absorb(&mut self, ids: &Vec<NodeId>)
        requires
            ascending(old(self).shortlist@, old(self).target),
        ensures
            final(self).shortlist@ == absorb(
                old(self).shortlist@,
                old(self).target,
                old(self).origin,
                old(self).asked@,
                ids@,
            ),
            ascending(final(self).shortlist@, old(self).target),
            final(self).origin == old(self).origin,
            final(self).target == old(self).target,
            final(self).alpha == old(self).alpha,
            final(self).k == old(self).k,
            final(self).max_rounds == old(self).max_rounds,
            final(self).asked == old(self).asked,
            final(self).answered == old(self).answered,
            final(self).rounds == old(self).rounds,
            final(self).mark == old(self).mark,
            final(self).heard == old(self).heard,
            final(self).done == old(self).done,
    {
        let mut i: usize = 0;
        while i < ids.len()
            invariant
                i <= ids.len(),
                self.shortlist@ == absorb(
                    old(self).shortlist@,
                    self.target,
                    self.origin,
                    self.asked@,
                    ids@.take(i as int),
                ),
                ascending(self.shortlist@, self.target),
                self.origin == old(self).origin,
                self.target == old(self).target,
                self.alpha == old(self).alpha,
                self.k == old(self).k,
                self.max_rounds == old(self).max_rounds,
                self.asked == old(self).asked,
                self.answered == old(self).answered,
                self.rounds == old(self).rounds,
                self.mark == old(self).mark,
                self.heard == old(self).heard,
                self.done == old(self).done,
            decreases ids.len() - i,
        {
            assert(ids@.take(i + 1).drop_last() == ids@.take(i as int));
            let id = ids[i];
            if id != self.origin && !contains_id(&self.asked, id) {
                let target = self.target;
                insert_by_distance(&mut self.shortlist, &target, id);
            }
            i += 1;
        }
        assert(ids@.take(ids.len() as int) == ids@);
    }

    /// A lookup by `origin` for `target` that starts from `seeds`, asks
    /// `alpha` candidates per round, is content with `k` answers and ends
    /// after `max_rounds` rounds at the latest.
    pub fn start(
        origin: NodeId,
        target: NodeId,
        seeds: &Vec<NodeId>,
        alpha: usize,
        k: usize,
        max_rounds: usize,
    ) -> (lk: Lookup)
        ensures
            lk@ == LookupView::start(
                origin,
                target,
                seeds@,
                alpha as nat,
                k as nat,
                max_rounds as nat,
            ),
            lk.wf(),
    {
        let mut lk = Lookup {
            origin,
            target,
            alpha,
            k,
            max_rounds,
            shortlist: Vec::new(),
            asked: Vec::new(),
            answered: Vec::new(),
            rounds: 0,
            mark: 0,
            heard: false,
            done: false,
        };
        lk.absorb(seeds);
        proof {
            lemma_start_wf(origin, target, seeds@, alpha as nat, k as nat, max_rounds as nat);
        }
        lk
    }

    /// Begins a round and returns whom to ask, closest first. An empty
    /// answer means that the lookup is over.
    pub fn next_round(&mut self) -> (batch: Vec<NodeId>)
        requires
            old(self).wf(),
        ensures
            final(self)@ == old(self)@.begin_round().0,
            batch@ == old(self)@.begin_round().1,
            final(self).wf(),
            batch@.len() <= old(self)@.alpha,
            batch@.len() + old(self)@.answered.len() <= old(self)@.k || batch@.len() == 0,
            batch@.no_duplicates(),
            forall|x: NodeId| #[trigger]
                batch@.contains(x) ==> old(self)@.shortlist.contains(x) && !old(self)@.asked.contains(
                    x,
                ),
            batch@.len() == 0 <==> final(self)@.done,
    {
        proof {
            lemma_begin_round(self@);
        }
        if self.done || self.rounds >= self.max_rounds {
            self.done = true;
            return Vec::new();
        }
        let mut batch: Vec<NodeId> = Vec::new();
        let mut i: usize = 0;
        while i < self.shortlist.len()
            invariant
                i <= self.shortlist.len(),
                *self == *old(self),
                batch@ == unasked(self.shortlist@.take(i as int), self.asked@),
            decreases self.shortlist.len() - i,
        {
            assert(self.shortlist@.take(i + 1).drop_last() == self.shortlist@.take(i as int));
            if !contains_id(&self.asked, self.shortlist[i]) {
                batch.push(self.shortlist[i]);
            }
            i += 1;
        }
        assert(self.shortlist@.take(self.shortlist.len() as int) == self.shortlist@);
        let room = if self.answered.len() >= self.k {
            0
        } else if self.k - self.answered.len() < self.alpha {
            self.k - self.answered.len()
        } else {
            self.alpha
        };
        if room < batch.len() {
            batch.truncate(room);
        }
        if batch.len() == 0 {
            self.done = true;
            return batch;
        }
        let mut asked = copy_ids(&batch);
        self.asked.append(&mut asked);
        self.rounds = self.rounds + 1;
        self.mark = self.shortlist[0].dist(&self.target);
        self.heard = false;
        batch
    }

    /// Records that `from` answered with the candidates `nodes`.
    pub fn record_response(&mut self, from: NodeId, nodes: &Vec<NodeId>)
        requires
            old(self).wf(),
        ensures
            final(self)@ == old(self)@.answered_by(from, nodes@),
            final(self).wf(),
    {
        proof {
            lemma_report_wf(self@, from, nodes@);
        }
        if self.awaits(from) {
            let target = self.target;
            insert_by_distance(&mut self.answered, &target, from);
            self.absorb(nodes);
            self.heard = true;
        }
    }

    /// Records that `from` did not answer in time.
    pub fn record_timeout(&mut self, from: NodeId)
        requires
            old(self).wf(),
        ensures
            final(self)@ == old(self)@.silent(from),
            final(self).wf(),
    {
        proof {
            lemma_report_wf(self@, from, Seq::empty());
            lemma_ascending_no_duplicates(self.shortlist@, self.target);
        }
        if self.awaits(from) {
            remove_id(&mut self.shortlist, from);
        }
    }

    /// Ends the running round and decides whether the lookup goes on.
    pub fn finish_round(&mut self)
        requires
            old(self).wf(),
        ensures
            final(self)@ == old(self)@.end_round(),
            final(self).wf(),
    {
        proof {
            lemma_report_wf(self@, self.origin, Seq::empty());
        }
        let improved = self.shortlist.len() > 0 && self.shortlist[0].dist(&self.target) < self.mark;
        if self.answered.len() >= self.k || (self.heard && !improved) {
            self.done = true;
        }
    }

    /// Whether an answer or a silence of `from` is awaited.
    pub fn awaits(&self, from: NodeId) -> (awaited: bool)
        ensures
            awaited == self@.awaits(from),
    {
        contains_id(&self.asked, from) && !contains_id(&self.answered, from) && contains_id(
            &self.shortlist,
            from,
        )
    }

    /// Whether the lookup is over.
    pub fn is_done(&self) -> (done: bool)
        ensures
            done == self@.done,
    {
        self.done
    }

    /// How many rounds were begun.
    pub fn rounds(&self) -> (n: usize)
        ensures
            n == self@.rounds,
    {
        self.rounds
    }

    /// How many rounds may still be begun.
    pub fn rounds_left(&self) -> (n: usize)
        requires
            self.wf(),
        ensures
            n == self@.max_rounds - self@.rounds,
    {
        self.max_rounds - self.rounds
    }

    /// The target of the lookup.
    pub fn target(&self) -> (t: NodeId)
        ensures
            t == self@.target,
    {
        self.target
    }

    /// The candidates not known to be unresponsive, closest first.
    pub fn shortlist(&self) -> (ids: Vec<NodeId>)
        ensures
            ids@ == self@.shortlist,
    {
        copy_ids(&self.shortlist)
    }

    /// Everybody who was sent a request, in the order asked.
    pub fn asked(&self) -> (ids: Vec<NodeId>)
        ensures
            ids@ == self@.asked,
    {
        copy_ids(&self.asked)
    }

    /// Everybody who answered, closest first.
    pub fn answered(&self) -> (ids: Vec<NodeId>)
        ensures
            ids@ == self@.answered,
    {
        copy_ids(&self.answered)
    }

    /// The `k` closest candidates that answered, closest first.
    pub fn found(&self) -> (ids: Vec<NodeId>)
        ensures
            ids@ == self@.found(),
    {
        let mut ids = copy_ids(&self.answered);
        if self.k < ids.len() {
            ids.truncate(self.k);
        }
        ids
    }
}

} // verus!
