//! Small helpers on lists of identifiers.

use vstd::prelude::*;
use crate::ident::NodeId;

verus! {

/// `s` without `x`.
pub open spec fn without<A>(s: Seq<A>, x: A) -> Seq<A> {
    if s.contains(x) {
        s.remove(s.index_of(x))
    } else {
        s
    }
}

/// Taking a member out of a list that holds nothing twice leaves a list that
/// holds nothing twice, and no longer holds that member.
pub proof fn lemma_without<A>(s: Seq<A>, x: A)
    requires
        s.no_duplicates(),
    ensures
        without(s, x).no_duplicates(),
        !without(s, x).contains(x),
        without(s, x).len() <= s.len(),
        forall|y: A| without(s, x).contains(y) ==> s.contains(y),
        forall|y: A| s.contains(y) && y != x ==> without(s, x).contains(y),
        !s.contains(x) ==> without(s.push(x), x) == s,
{
    let kept = without(s, x);
    if s.contains(x) {
        let at = s.index_of(x);
        assert forall|y: A| kept.contains(y) implies s.contains(y) && y != x by {
            let p = choose|p: int| 0 <= p < kept.len() && kept[p] == y;
            if p < at {
                assert(s[p] == y);
            } else {
                assert(s[p + 1] == y);
            }
        }
        assert forall|y: A| s.contains(y) && y != x implies kept.contains(y) by {
            let p = choose|p: int| 0 <= p < s.len() && s[p] == y;
            if p < at {
                assert(kept[p] == y);
            } else {
                assert(kept[p - 1] == y);
            }
        }
        assert forall|i: int, j: int| 0 <= i < kept.len() && 0 <= j < kept.len() && i != j implies kept[i]
            != kept[j] by {
            let a = if i < at {
                i
            } else {
                i + 1
            };
            let b = if j < at {
                j
            } else {
                j + 1
            };
            assert(kept[i] == s[a] && kept[j] == s[b]);
        }
    } else {
        let longer = s.push(x);
        assert(longer[s.len() as int] == x);
        let at = longer.index_of(x);
        if at < s.len() {
            assert(s[at] == x);
        }
        assert(longer.remove(at) =~= s);
    }
}

/// Whether `list` holds `id`.
pub fn contains_id(list: &Vec<NodeId>, id: NodeId) -> (found: bool)
    ensures
        found == list@.contains(id),
{
    let mut i: usize = 0;
    while i < list.len()
        invariant
            i <= list.len(),
            forall|j: int| 0 <= j < i ==> list@[j] != id,
        decreases list.len() - i,
    {
        if list[i] == id {
            return true;
        }
        i += 1;
    }
    false
}

/// Takes `id` out of a list that holds no identifier twice.
pub fn remove_id(list: &mut Vec<NodeId>, id: NodeId)
    requires
        old(list)@.no_duplicates(),
    ensures
        final(list)@ == without(old(list)@, id),
{
    let mut i: usize = 0;
    while i < list.len() && list[i] != id
        invariant
            i <= list.len(),
            list@ == old(list)@,
            forall|j: int| 0 <= j < i ==> list@[j] != id,
        decreases list.len() - i,
    {
        i += 1;
    }
    if i < list.len() {
        assert(list@.contains(id));
        assert(list@.index_of(id) == i);
        list.remove(i);
    }
}

/// A copy of a list of identifiers.
pub fn copy_ids(ids: &Vec<NodeId>) -> (copy: Vec<NodeId>)
    ensures
        copy@ == ids@,
{
    let mut copy: Vec<NodeId> = Vec::new();
    let mut i: usize = 0;
    while i < ids.len()
        invariant
            i <= ids.len(),
            copy@ == ids@.take(i as int),
        decreases ids.len() - i,
    {
        copy.push(ids[i]);
        i += 1;
    }
    copy
}

/// Whether two lists hold the same identifiers in the same order.
pub fn same_ids(a: &Vec<NodeId>, b: &Vec<NodeId>) -> (same: bool)
    ensures
        same == (a@ == b@),
{
    if a.len() != b.len() {
        return false;
    }
    let mut i: usize = 0;
    while i < a.len()
        invariant
            i <= a.len(),
            a.len() == b.len(),
            a@.take(i as int) == b@.take(i as int),
        decreases a.len() - i,
    {
        if a[i] != b[i] {
            return false;
        }
        assert(a@.take(i + 1) == a@.take(i as int).push(a@[i as int]));
        assert(b@.take(i + 1) == b@.take(i as int).push(b@[i as int]));
        i += 1;
    }
    assert(a@.take(a.len() as int) == a@);
    assert(b@.take(b.len() as int) == b@);
    true
}

} // verus!
