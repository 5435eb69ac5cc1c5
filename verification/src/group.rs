//! One group's members and the queries against them.

use vstd::prelude::*;
use vstd::string::StringExecFns;
use crate::metric::{sq_dist, squared_distance};
use crate::ranking::{
    is_nearest_at, lemma_nearest_unique, lemma_ranked_first, lemma_ranked_len, nearest_at, ranked,
    Ranked,
};

verus! {

/// A member of a group as contracts see it: a grid point and an identifier.
pub ghost struct Placed {
    pub point: Seq<i32>,
    pub id: Seq<char>,
}

/// No member stands twice in `s`.
pub open spec fn distinct(s: Seq<Placed>) -> bool {
    forall|i: int, j: int| 0 <= i < j < s.len() ==> s[i] != s[j]
}

/// Every point of `s` has `dims` coordinates.
pub open spec fn all_of_dimension(s: Seq<Placed>, dims: nat) -> bool {
    forall|j: int| 0 <= j < s.len() ==> (#[trigger] s[j]).point.len() == dims
}

/// Position of the member `e` in `s`.
pub open spec fn position_of(s: Seq<Placed>, e: Placed) -> int {
    choose|i: int| 0 <= i < s.len() && s[i] == e
}

/// `s` with the member `e`: unchanged where `e` is a member already, else
/// with `e` behind the others.
pub open spec fn joined(s: Seq<Placed>, e: Placed) -> Seq<Placed> {
    if s.contains(e) {
        s
    } else {
        s.push(e)
    }
}

/// `s` without the member `e`; the others keep their order.
pub open spec fn parted(s: Seq<Placed>, e: Placed) -> Seq<Placed> {
    if s.contains(e) {
        s.remove(position_of(s, e))
    } else {
        s
    }
}

/// The members of `s`, each with its squared distance to `target`.
pub open spec fn candidates(s: Seq<Placed>, target: Seq<i32>) -> Seq<Ranked> {
    Seq::new(s.len(), |i: int| Ranked { distance: sq_dist(s[i].point, target), id: s[i].id })
}

/// What a query against the members `s` hands out for `target`, in order.
pub open spec fn neighbours(s: Seq<Placed>, target: Seq<i32>) -> Seq<Ranked> {
    ranked(candidates(s, target))
}

/// The identifiers of the members `s`, oldest first, with a comma and a
/// space between one and the next.
pub open spec fn ids_text(s: Seq<Placed>) -> Seq<char>
    decreases s.len(),
{
    if s.len() == 0 {
        Seq::empty()
    } else if s.len() == 1 {
        s[0].id
    } else {
        ids_text(s.drop_last()) + ", "@ + s.last().id
    }
}

/// The members `s` as text: their identifiers in square brackets.
pub open spec fn group_text(s: Seq<Placed>) -> Seq<char> {
    "["@ + ids_text(s) + "]"@
}

/// Adding a member keeps the members distinct and makes it one of them.
pub proof fn lemma_joined(s: Seq<Placed>, e: Placed)
    requires
        distinct(s),
    ensures
        distinct(joined(s, e)),
        joined(s, e).contains(e),
        forall|x: Placed| s.contains(x) ==> joined(s, e).contains(x),
        forall|x: Placed| joined(s, e).contains(x) ==> x == e || s.contains(x),
{
    let t = joined(s, e);
    if !s.contains(e) {
        assert(t[s.len() as int] == e);
        assert forall|x: Placed| s.contains(x) implies t.contains(x) by {
            let i = choose|i: int| 0 <= i < s.len() && s[i] == x;
            assert(t[i] == x);
        }
        assert forall|x: Placed| t.contains(x) implies x == e || s.contains(x) by {
            let i = choose|i: int| 0 <= i < t.len() && t[i] == x;
            if i < s.len() {
                assert(s[i] == x);
            }
        }
        assert forall|i: int, j: int| 0 <= i < j < t.len() implies t[i] != t[j] by {
            if j == s.len() {
                assert(s[i] == t[i]);
                assert(s.contains(t[i]));
            }
        }
    }
}

/// Removing a member keeps the others, in order, and leaves no trace of it.
pub proof fn lemma_parted(s: Seq<Placed>, e: Placed)
    requires
        distinct(s),
    ensures
        distinct(parted(s, e)),
        !parted(s, e).contains(e),
        forall|x: Placed| x != e && s.contains(x) ==> parted(s, e).contains(x),
        forall|x: Placed| parted(s, e).contains(x) ==> s.contains(x),
        parted(s, e).len() == if s.contains(e) { s.len() - 1 } else { s.len() as int },
{
    let t = parted(s, e);
    if s.contains(e) {
        let p = position_of(s, e);
        assert forall|k: int| 0 <= k < t.len() implies t[k] == s[if k < p { k } else { k + 1 }] by {}
        assert forall|x: Placed| x != e && s.contains(x) implies t.contains(x) by {
            let i = choose|i: int| 0 <= i < s.len() && s[i] == x;
            if i < p {
                assert(t[i] == x);
            } else {
                assert(t[i - 1] == x);
            }
        }
        assert forall|x: Placed| t.contains(x) implies s.contains(x) by {
            let k = choose|k: int| 0 <= k < t.len() && t[k] == x;
            assert(s[if k < p { k } else { k + 1 }] == x);
        }
        if t.contains(e) {
            let k = choose|k: int| 0 <= k < t.len() && t[k] == e;
            assert(s[if k < p { k } else { k + 1 }] == e);
        }
    }
}

/// A neighbour handed out by a query: an identifier and its squared distance
/// to the query point.
#[derive(Debug, PartialEq, Eq)]
pub struct Neighbor {
    pub distance: u128,
    pub id: String,
}

impl View for Neighbor {
    type V = Ranked;

    open spec fn view(&self) -> Ranked {
        Ranked { distance: self.distance as nat, id: self.id@ }
    }
}

/// The candidates of `v` as contracts see them.
pub open spec fn ranked_views(v: Seq<Neighbor>) -> Seq<Ranked> {
    Seq::new(v.len(), |i: int| v[i]@)
}

/// The neighbours of one point in one group, nearest first. It is drained
/// from the front and hands each neighbour out once.
pub struct NearestQuery {
    pending: Vec<Neighbor>,
}

impl View for NearestQuery {
    type V = Seq<Ranked>;

    /// What is still to be handed out, in order.
    closed spec fn view(&self) -> Seq<Ranked> {
        ranked(ranked_views(self.pending@))
    }
}

impl NearestQuery {
    /// Number of neighbours still to be handed out.
    pub fn remaining(&self) -> (n: usize)
        ensures
            n == self@.len(),
    {
        proof {
            lemma_ranked_len(ranked_views(self.pending@));
        }
        self.pending.len()
    }

    /// Hands out the nearest neighbour not handed out yet, or `None` when
    /// there is none left.
    pub fn next(&mut self) -> (r: Option<Neighbor>)
        ensures
            match r {
                Some(n) => old(self)@.len() > 0 && n@ == old(self)@[0] && final(self)@ == old(
                    self,
                )@.skip(1),
                None => old(self)@.len() == 0 && final(self)@ == old(self)@,
            },
    {
        let ghost before = ranked_views(self.pending@);
        proof {
            lemma_ranked_len(before);
        }
        let len = self.pending.len();
        if len == 0 {
            return None;
        }
        let mut best: usize = 0;
        let mut i: usize = 1;
        while i < len
            invariant
                1 <= i <= len,
                len == self.pending@.len(),
                before == ranked_views(self.pending@),
                is_nearest_at(before.take(i as int), best as int),
            decreases len - i,
        {
            let ghost seen = before.take(i as int);
            let ghost more = before.take(i + 1);
            assert(forall|j: int| 0 <= j < i ==> seen[j] == more[j]);
            if self.pending[i].distance < self.pending[best].distance {
                assert forall|j: int| 0 <= j < more.len() implies more[i as int].distance <= (
                #[trigger] more[j]).distance by {
                    if j < i {
                        assert(seen[best as int].distance <= seen[j].distance);
                    }
                }
                assert forall|j: int| 0 <= j < i implies more[i as int].distance < (
                #[trigger] more[j]).distance by {
                    assert(seen[best as int].distance <= seen[j].distance);
                }
                best = i;
            } else {
                assert forall|j: int| 0 <= j < more.len() implies more[best as int].distance <= (
                #[trigger] more[j]).distance by {
                    if j < i {
                        assert(seen[best as int].distance <= seen[j].distance);
                    }
                }
                assert forall|j: int| 0 <= j < best implies more[best as int].distance < (
                #[trigger] more[j]).distance by {
                    assert(seen[best as int].distance < seen[j].distance);
                }
            }
            i = i + 1;
        }
        proof {
            assert(before.take(len as int) =~= before);
            lemma_nearest_unique(before, best as int);
            lemma_ranked_first(before);
        }
        let found = self.pending.remove(best);
        proof {
            assert(ranked_views(self.pending@) =~= before.remove(best as int));
            assert(found@ == before[best as int]);
        }
        Some(found)
    }

    /// Hands out the next `count` neighbours, or all that are left where
    /// there are fewer.
    pub fn take(&mut self, count: usize) -> (taken: Vec<Neighbor>)
        ensures
            taken@.len() == if count <= old(self)@.len() { count as int } else { old(self)@.len() as int },
            ranked_views(taken@) == old(self)@.take(taken@.len() as int),
            final(self)@ == old(self)@.skip(taken@.len() as int),
    {
        let mut taken: Vec<Neighbor> = Vec::new();
        let ghost start = self@;
        let mut left: usize = self.remaining();
        while taken.len() < count && left > 0
            invariant
                taken@.len() <= count,
                taken@.len() + left == start.len(),
                left == self@.len(),
                ranked_views(taken@) == start.take(taken@.len() as int),
                self@ == start.skip(taken@.len() as int),
            decreases left,
        {
            let ghost done = taken@.len() as int;
            match self.next() {
                Some(n) => {
                    taken.push(n);
                    left = left - 1;
                    proof {
                        assert(self@ =~= start.skip(done + 1));
                        assert(ranked_views(taken@) =~= start.take(done + 1));
                    }
                },
                None => {
                    left = 0;
                },
            }
        }
        taken
    }
}

/// A member of a group: a grid point and an identifier.
struct Entry<const DIMS: usize> {
    point: [i32; DIMS],
    id: String,
}

impl<const DIMS: usize> View for Entry<DIMS> {
    type V = Placed;

    closed spec fn view(&self) -> Placed {
        Placed { point: self.point@, id: self.id@ }
    }
}

/// Whether two points are the same point.
pub fn same_point<const DIMS: usize>(a: &[i32; DIMS], b: &[i32; DIMS]) -> (same: bool)
    ensures
        same == (a@ == b@),
{
    let mut axis: usize = 0;
    while axis < DIMS
        invariant
            axis <= DIMS,
            a@.len() == DIMS,
            b@.len() == DIMS,
            forall|k: int| 0 <= k < axis ==> a@[k] == b@[k],
        decreases DIMS - axis,
    {
        if a[axis] != b[axis] {
            return false;
        }
        axis = axis + 1;
    }
    assert(a@ =~= b@);
    true
}

/// The members of one group. No member, that is no pair of point and
/// identifier, stands in it twice.
pub struct GroupIndex<const DIMS: usize> {
    entries: Vec<Entry<DIMS>>,
}

impl<const DIMS: usize> View for GroupIndex<DIMS> {
    type V = Seq<Placed>;

    /// The members, oldest first.
    closed spec fn view(&self) -> Seq<Placed> {
        Seq::new(self.entries@.len(), |i: int| self.entries@[i]@)
    }
}

impl<const DIMS: usize> GroupIndex<DIMS> {
    /// The members are distinct, and each point has `DIMS` coordinates.
    pub open spec fn wf(&self) -> bool {
        &&& distinct(self@)
        &&& all_of_dimension(self@, DIMS as nat)
    }

    /// An empty group.
    pub fn new() -> (g: Self)
        ensures
            g.wf(),
            g@ == Seq::<Placed>::empty(),
    {
        let g = GroupIndex { entries: Vec::new() };
        assert(g@ =~= Seq::<Placed>::empty());
        g
    }

    /// Number of members.
    pub fn size(&self) -> (n: usize)
        ensures
            n == self@.len(),
    {
        self.entries.len()
    }

    /// The group as text, for a reader: the identifiers of its members in
    /// square brackets, oldest first.
    pub fn describe(&self) -> (text: String)
        ensures
            text@ == group_text(self@),
    {
        let mut text = String::from_str("[");
        let mut i: usize = 0;
        proof {
            assert(self@.take(0) =~= Seq::<Placed>::empty());
            assert(text@ =~= "["@ + ids_text(self@.take(0)));
        }
        while i < self.entries.len()
            invariant
                i <= self.entries@.len(),
                text@ == "["@ + ids_text(self@.take(i as int)),
            decreases self.entries@.len() - i,
        {
            let ghost done = self@.take(i as int);
            let ghost more = self@.take(i + 1);
            proof {
                assert(more.drop_last() =~= done);
                assert(more.last() == self@[i as int]);
            }
            if i > 0 {
                text.append(", ");
            }
            text.append(self.entries[i].id.as_str());
            proof {
                assert(text@ =~= "["@ + ids_text(more));
            }
            i = i + 1;
        }
        proof {
            assert(self@.take(self@.len() as int) =~= self@);
        }
        text.append("]");
        text
    }

    /// The identifiers of the members, oldest first.
    pub fn ids(&self) -> (ids: Vec<String>)
        ensures
            ids@.len() == self@.len(),
            forall|i: int| 0 <= i < ids@.len() ==> (#[trigger] ids@[i])@ == self@[i].id,
    {
        let mut ids: Vec<String> = Vec::new();
        let mut i: usize = 0;
        while i < self.entries.len()
            invariant
                i <= self.entries@.len(),
                ids@.len() == i,
                forall|k: int| 0 <= k < i ==> (#[trigger] ids@[k])@ == self@[k].id,
            decreases self.entries@.len() - i,
        {
            ids.push(self.entries[i].id.clone());
            i = i + 1;
        }
        ids
    }

    /// Where the member of this point and identifier stands, if it is one.
    fn find(&self, point: &[i32; DIMS], id: &String) -> (at: Option<usize>)
        ensures
            match at {
                Some(i) => i < self@.len() && self@[i as int] == (Placed { point: point@, id: id@ }),
                None => !self@.contains(Placed { point: point@, id: id@ }),
            },
    {
        let ghost e = Placed { point: point@, id: id@ };
        let mut i: usize = 0;
        while i < self.entries.len()
            invariant
                i <= self.entries@.len(),
                e == (Placed { point: point@, id: id@ }),
                forall|k: int| 0 <= k < i ==> self@[k] != e,
            decreases self.entries@.len() - i,
        {
            if same_point(&self.entries[i].point, point) && self.entries[i].id == *id {
                return Some(i);
            }
            i = i + 1;
        }
        None
    }

    /// Makes the pair of `point` and `id` a member. Returns whether the
    /// group grew: a pair that is a member already is left as it is.
    pub fn add(&mut self, point: [i32; DIMS], id: String) -> (grew: bool)
        requires
            old(self).wf(),
        ensures
            final(self).wf(),
            final(self)@ == joined(old(self)@, Placed { point: point@, id: id@ }),
            grew == !old(self)@.contains(Placed { point: point@, id: id@ }),
    {
        let ghost e = Placed { point: point@, id: id@ };
        proof {
            lemma_joined(self@, e);
        }
        match self.find(&point, &id) {
            Some(_) => {
                false
            },
            None => {
                self.entries.push(Entry { point, id });
                proof {
                    assert(self@ =~= old(self)@.push(e));
                    assert forall|i: int| 0 <= i < self@.len() implies (
                    #[trigger] self@[i]).point.len() == DIMS by {
                        if i < old(self)@.len() {
                            assert(self@[i] == old(self)@[i]);
                        }
                    }
                }
                true
            },
        }
    }

    /// Takes the pair of `point` and `id` out of the group. Returns the
    /// number of members taken out: 1, or 0 where the pair was no member.
    pub fn remove(&mut self, point: &[i32; DIMS], id: &String) -> (removed: usize)
        requires
            old(self).wf(),
        ensures
            final(self).wf(),
            final(self)@ == parted(old(self)@, Placed { point: point@, id: id@ }),
            removed == if old(self)@.contains(Placed { point: point@, id: id@ }) { 1usize } else { 0usize },
    {
        let ghost e = Placed { point: point@, id: id@ };
        proof {
            lemma_parted(self@, e);
        }
        match self.find(point, id) {
            Some(i) => {
                proof {
                    let p = position_of(self@, e);
                    assert(self@[p] == e);
                    assert(p == i);
                }
                self.entries.remove(i);
                proof {
                    assert(self@ =~= old(self)@.remove(i as int));
                    assert forall|k: int| 0 <= k < self@.len() implies (
                    #[trigger] self@[k]).point.len() == DIMS by {
                        assert(self@[k] == old(self)@[if k < i { k } else { k + 1 }]);
                    }
                }
                1
            },
            None => {
                0
            },
        }
    }

    /// The members in order of their squared distance to `point`, nearest
    /// first; of several at one distance, the oldest first.
    pub fn nearest(&self, point: &[i32; DIMS]) -> (q: NearestQuery)
        ensures
            q@ == neighbours(self@, point@),
    {
        let mut pending: Vec<Neighbor> = Vec::new();
        let mut i: usize = 0;
        while i < self.entries.len()
            invariant
                i <= self.entries@.len(),
                pending@.len() == i,
                forall|k: int| 0 <= k < i ==> (#[trigger] pending@[k])@ == candidates(self@, point@)[k],
            decreases self.entries@.len() - i,
        {
            let distance = squared_distance(&self.entries[i].point, point);
            let id = self.entries[i].id.clone();
            pending.push(Neighbor { distance, id });
            i = i + 1;
        }
        proof {
            assert(ranked_views(pending@) =~= candidates(self@, point@));
        }
        NearestQuery { pending }
    }
}

} // verus!
