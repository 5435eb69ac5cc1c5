//! The grouped index: one group of members per pattern.

use vstd::prelude::*;
use vstd::string::StringExecFns;
use crate::group::{
    all_of_dimension, candidates, distinct, group_text, joined, lemma_joined, lemma_parted,
    neighbours, parted, ranked_views, GroupIndex, NearestQuery, Neighbor, Placed,
};
use crate::pattern::{
    in_force, matches_at_start, rejected, texts, PatternClassifier, NEVER_MATCHES,
};
use crate::ranking::{lemma_ranked_sorted, Ranked};

verus! {

/// Whether a name belongs to group `g` under `patterns`: whether the pattern
/// of `g` is not `NEVER_MATCHES` and matches a prefix of the name.
pub open spec fn belongs(patterns: Seq<Seq<char>>, g: int, name: Seq<char>) -> bool {
    0 <= g < patterns.len() && patterns[g] != NEVER_MATCHES@ && matches_at_start(patterns[g], name)
}

/// The groups after an object of this name enters as the member `e`: it
/// joins every group that its name belongs to.
pub open spec fn entered(
    patterns: Seq<Seq<char>>,
    groups: Seq<Seq<Placed>>,
    name: Seq<char>,
    e: Placed,
) -> Seq<Seq<Placed>> {
    Seq::new(
        groups.len(),
        |g: int|
            if belongs(patterns, g, name) {
                joined(groups[g], e)
            } else {
                groups[g]
            },
    )
}

/// The groups after an object of this name leaves as the member `e`: it
/// parts from every group that its name belongs to.
pub open spec fn exited(
    patterns: Seq<Seq<char>>,
    groups: Seq<Seq<Placed>>,
    name: Seq<char>,
    e: Placed,
) -> Seq<Seq<Placed>> {
    Seq::new(
        groups.len(),
        |g: int|
            if belongs(patterns, g, name) {
                parted(groups[g], e)
            } else {
                groups[g]
            },
    )
}

/// The answer to a query against group `group` for the point `target`: the
/// first `limit` neighbours, or all of them where `limit` is negative or
/// beyond their number; nothing where `group` names no group.
pub open spec fn answer(groups: Seq<Seq<Placed>>, target: Seq<i32>, group: int, limit: int) -> Seq<
    Ranked,
> {
    if 0 <= group < groups.len() {
        let all = neighbours(groups[group], target);
        if 0 <= limit < all.len() {
            all.take(limit)
        } else {
            all
        }
    } else {
        Seq::empty()
    }
}

/// The groups as text, in order, with a space between one and the next.
pub open spec fn groups_text(groups: Seq<Seq<Placed>>) -> Seq<char>
    decreases groups.len(),
{
    if groups.len() == 0 {
        Seq::empty()
    } else if groups.len() == 1 {
        group_text(groups[0])
    } else {
        groups_text(groups.drop_last()) + " "@ + group_text(groups.last())
    }
}

/// The index as text, for a reader: each group with the identifiers of its
/// members, oldest first.
pub open spec fn described(groups: Seq<Seq<Placed>>) -> Seq<char> {
    "Nearest("@ + groups_text(groups) + ")"@
}

/// `count` groups without members.
pub open spec fn vacant(count: nat) -> Seq<Seq<Placed>> {
    Seq::new(count, |g: int| Seq::<Placed>::empty())
}

/// Whether the group `g` is among the groups listed in `hits`.
pub open spec fn listed(hits: Seq<usize>, g: int) -> bool {
    exists|k: int| 0 <= k < hits.len() && hits[k] == g
}

/// The groups after the member `e` has joined every group listed in `hits`.
/// A number that names no group counts for nothing, and so does one that is
/// listed again.
pub open spec fn placed(groups: Seq<Seq<Placed>>, hits: Seq<usize>, e: Placed) -> Seq<
    Seq<Placed>,
> {
    Seq::new(
        groups.len(),
        |g: int|
            if listed(hits, g) {
                joined(groups[g], e)
            } else {
                groups[g]
            },
    )
}

/// The groups after the member `e` has parted from every group listed in
/// `hits`.
pub open spec fn withdrawn(groups: Seq<Seq<Placed>>, hits: Seq<usize>, e: Placed) -> Seq<
    Seq<Placed>,
> {
    Seq::new(
        groups.len(),
        |g: int|
            if listed(hits, g) {
                parted(groups[g], e)
            } else {
                groups[g]
            },
    )
}

/// A group is listed where its number is an element of the list.
proof fn lemma_listed_contains(hits: Seq<usize>, g: usize)
    ensures
        listed(hits, g as int) <==> hits.contains(g),
{
    if listed(hits, g as int) {
        let at = choose|at: int| 0 <= at < hits.len() && hits[at] == g as int;
        assert(hits[at] == g);
    }
    if hits.contains(g) {
        let at = choose|at: int| 0 <= at < hits.len() && hits[at] == g;
        assert(hits[at] == g as int);
    }
}

/// The first `k + 1` hits list what the first `k` list, and hit `k`.
proof fn lemma_listed_next(hits: Seq<usize>, k: int, g: int)
    requires
        0 <= k < hits.len(),
    ensures
        listed(hits.take(k + 1), g) <==> listed(hits.take(k), g) || hits[k] == g,
{
    let seen = hits.take(k);
    let more = hits.take(k + 1);
    if listed(more, g) {
        let at = choose|at: int| 0 <= at < more.len() && more[at] == g;
        if at < k {
            assert(seen[at] == g);
        }
    }
    if listed(seen, g) {
        let at = choose|at: int| 0 <= at < seen.len() && seen[at] == g;
        assert(more[at] == g);
    }
    if hits[k] == g {
        assert(more[k] == g);
    }
}

/// A grouped nearest-neighbour index over points of `DIMS` coordinates.
pub struct Nearest<const DIMS: usize> {
    classifier: PatternClassifier,
    groups: Vec<GroupIndex<DIMS>>,
}

impl<const DIMS: usize> Nearest<DIMS> {
    /// The patterns in force, one per group.
    pub closed spec fn patterns(&self) -> Seq<Seq<char>> {
        self.classifier.patterns()
    }

    /// The patterns that gave way when the patterns in force were compiled,
    /// by their places in the list, in the order in which they gave way.
    pub closed spec fn gave_way(&self) -> Seq<usize> {
        self.classifier.gave_way()
    }

    /// The members of each group, oldest first.
    pub closed spec fn members(&self) -> Seq<Seq<Placed>> {
        Seq::new(self.groups@.len(), |g: int| self.groups@[g]@)
    }

    /// There is one group per pattern, and each group is well formed.
    pub closed spec fn wf(&self) -> bool {
        &&& self.classifier.wf()
        &&& self.groups@.len() == self.classifier.patterns().len()
        &&& forall|g: int| 0 <= g < self.groups@.len() ==> (#[trigger] self.groups@[g]).wf()
    }

    /// What well-formedness says of the groups: there is one per pattern,
    /// no group holds a member twice, and every point has `DIMS` coordinates.
    pub proof fn lemma_wf(&self)
        requires
            self.wf(),
        ensures
            self.members().len() == self.patterns().len(),
            forall|g: int|
                0 <= g < self.members().len() ==> distinct(#[trigger] self.members()[g])
                    && all_of_dimension(self.members()[g], DIMS as nat),
    {
        assert forall|g: int| 0 <= g < self.members().len() implies distinct(
            #[trigger] self.members()[g],
        ) && all_of_dimension(self.members()[g], DIMS as nat) by {
            assert(self.groups@[g].wf());
        }
    }

    /// An index without groups.
    pub fn new() -> (n: Self)
        ensures
            n.wf(),
            n.patterns() == Seq::<Seq<char>>::empty(),
            n.gave_way() == Seq::<usize>::empty(),
            n.members() == Seq::<Seq<Placed>>::empty(),
    {
        let n = Nearest { classifier: PatternClassifier::empty(), groups: Vec::new() };
        assert(n.members() =~= Seq::<Seq<Placed>>::empty());
        n
    }

    /// An index with one empty group for each pattern given.
    pub fn new_from(groups: Vec<&str>) -> (n: Self)
        ensures
            n.wf(),
            n.patterns() == in_force(texts(groups@)),
            n.gave_way() == rejected(texts(groups@)),
            n.members() == vacant(n.patterns().len()),
            n.members().len() == groups@.len(),
    {
        let classifier = PatternClassifier::compile(groups);
        let count = classifier.len();
        let mut made: Vec<GroupIndex<DIMS>> = Vec::new();
        while made.len() < count
            invariant
                made@.len() <= count,
                forall|g: int| 0 <= g < made@.len() ==> (#[trigger] made@[g]).wf(),
                forall|g: int| 0 <= g < made@.len() ==> (#[trigger] made@[g])@ == Seq::<Placed>::empty(),
            decreases count - made@.len(),
        {
            made.push(GroupIndex::new());
        }
        let n = Nearest { classifier, groups: made };
        assert(n.members() =~= vacant(n.patterns().len()));
        n
    }

    /// The patterns that gave way when the patterns in force were compiled.
    pub fn rejected(&self) -> (places: &Vec<usize>)
        ensures
            places@ == self.gave_way(),
    {
        self.classifier.rejected()
    }

    /// The groups that `name` belongs to: the number of every pattern in
    /// force that matches a prefix of `name`, in ascending order, each once.
    pub fn classify(&self, name: &str) -> (hits: Vec<usize>)
        requires
            self.wf(),
        ensures
            forall|i: int, j: int| 0 <= i < j < hits@.len() ==> hits@[i] < hits@[j],
            forall|g: usize| hits@.contains(g) <==> belongs(self.patterns(), g as int, name@),
    {
        self.classifier.classify(name)
    }

    /// Number of groups.
    pub fn group_count(&self) -> (count: usize)
        ensures
            count == self.members().len(),
    {
        self.groups.len()
    }

    /// The pair of `pos` and `id` joins every group listed in `hits`. In a
    /// group that holds the pair already, nothing changes; a number that
    /// names no group is passed over.
    pub fn add_to(&mut self, hits: &Vec<usize>, pos: [i32; DIMS], id: String)
        requires
            old(self).wf(),
        ensures
            final(self).wf(),
            final(self).patterns() == old(self).patterns(),
            final(self).gave_way() == old(self).gave_way(),
            final(self).members() == placed(
                old(self).members(),
                hits@,
                Placed { point: pos@, id: id@ },
            ),
    {
        let ghost e = Placed { point: pos@, id: id@ };
        let mut k: usize = 0;
        while k < hits.len()
            invariant
                k <= hits@.len(),
                e == (Placed { point: pos@, id: id@ }),
                self.classifier == old(self).classifier,
                self.groups@.len() == old(self).groups@.len(),
                forall|g: int| 0 <= g < self.groups@.len() ==> (#[trigger] self.groups@[g]).wf(),
                forall|g: int|
                    0 <= g < self.groups@.len() ==> distinct((#[trigger] old(self).groups@[g])@),
                forall|g: int|
                    0 <= g < self.groups@.len() ==> (#[trigger] self.groups@[g])@ == if listed(
                        hits@.take(k as int),
                        g,
                    ) {
                        joined(old(self).groups@[g]@, e)
                    } else {
                        old(self).groups@[g]@
                    },
            decreases hits@.len() - k,
        {
            let g = hits[k];
            let ghost more = hits@.take(k + 1);
            let ghost before = self.groups@;
            if g < self.groups.len() {
                self.groups[g].add(pos, id.clone());
            }
            assert forall|h: int| 0 <= h < self.groups@.len() implies (
            #[trigger] self.groups@[h])@ == if listed(more, h) {
                joined(old(self).groups@[h]@, e)
            } else {
                old(self).groups@[h]@
            } by {
                lemma_listed_next(hits@, k as int, h);
                if h == g {
                    lemma_joined(old(self).groups@[h]@, e);
                } else {
                    assert(self.groups@[h] == before[h]);
                }
            }
            k = k + 1;
        }
        proof {
            assert(hits@.take(hits@.len() as int) =~= hits@);
            assert(self.members() =~= placed(old(self).members(), hits@, e));
        }
    }

    /// The pair of `pos` and `id` parts from every group listed in `hits`. A
    /// group that does not hold the pair stays as it is; a number that names
    /// no group is passed over.
    pub fn remove_from(&mut self, hits: &Vec<usize>, pos: &[i32; DIMS], id: &String)
        requires
            old(self).wf(),
        ensures
            final(self).wf(),
            final(self).patterns() == old(self).patterns(),
            final(self).gave_way() == old(self).gave_way(),
            final(self).members() == withdrawn(
                old(self).members(),
                hits@,
                Placed { point: pos@, id: id@ },
            ),
    {
        let ghost e = Placed { point: pos@, id: id@ };
        let mut k: usize = 0;
        while k < hits.len()
            invariant
                k <= hits@.len(),
                e == (Placed { point: pos@, id: id@ }),
                self.classifier == old(self).classifier,
                self.groups@.len() == old(self).groups@.len(),
                forall|g: int| 0 <= g < self.groups@.len() ==> (#[trigger] self.groups@[g]).wf(),
                forall|g: int|
                    0 <= g < self.groups@.len() ==> distinct((#[trigger] old(self).groups@[g])@),
                forall|g: int|
                    0 <= g < self.groups@.len() ==> (#[trigger] self.groups@[g])@ == if listed(
                        hits@.take(k as int),
                        g,
                    ) {
                        parted(old(self).groups@[g]@, e)
                    } else {
                        old(self).groups@[g]@
                    },
            decreases hits@.len() - k,
        {
            let g = hits[k];
            let ghost more = hits@.take(k + 1);
            let ghost before = self.groups@;
            if g < self.groups.len() {
                self.groups[g].remove(pos, id);
            }
            assert forall|h: int| 0 <= h < self.groups@.len() implies (
            #[trigger] self.groups@[h])@ == if listed(more, h) {
                parted(old(self).groups@[h]@, e)
            } else {
                old(self).groups@[h]@
            } by {
                lemma_listed_next(hits@, k as int, h);
                if h == g {
                    lemma_parted(old(self).groups@[h]@, e);
                } else {
                    assert(self.groups@[h] == before[h]);
                }
            }
            k = k + 1;
        }
        proof {
            assert(hits@.take(hits@.len() as int) =~= hits@);
            assert(self.members() =~= withdrawn(old(self).members(), hits@, e));
        }
    }

    /// An object enters: it becomes a member of every group that its name
    /// belongs to. In a group that holds this pair of point and identifier
    /// already, nothing changes. No name belongs to the group of a pattern
    /// that gave way to `NEVER_MATCHES`.
    pub fn add(&mut self, name: &str, pos: [i32; DIMS], id: String)
        requires
            old(self).wf(),
        ensures
            final(self).wf(),
            final(self).patterns() == old(self).patterns(),
            final(self).gave_way() == old(self).gave_way(),
            final(self).members() == entered(
                old(self).patterns(),
                old(self).members(),
                name@,
                Placed { point: pos@, id: id@ },
            ),
            forall|g: int|
                0 <= g < old(self).members().len() && old(self).patterns()[g] == NEVER_MATCHES@
                    ==> (#[trigger] final(self).members()[g]) == old(self).members()[g],
    {
        let ghost e = Placed { point: pos@, id: id@ };
        let hits = self.classifier.classify(name);
        let count = self.groups.len();
        self.add_to(&hits, pos, id);
        proof {
            let target = entered(old(self).patterns(), old(self).members(), name@, e);
            assert forall|g: int| 0 <= g < count implies self.members()[g] == target[g] by {
                lemma_listed_contains(hits@, g as usize);
            }
            assert(self.members() =~= target);
            assert forall|g: int|
                0 <= g < count && old(self).patterns()[g] == NEVER_MATCHES@ implies (
            #[trigger] self.members()[g]) == old(self).members()[g] by {
                lemma_listed_contains(hits@, g as usize);
            }
        }
    }

    /// An object leaves: it parts from every group that its name belongs
    /// to. A group that does not hold this pair of point and identifier stays
    /// as it is.
    pub fn remove(&mut self, name: &str, pos: &[i32; DIMS], id: &String)
        requires
            old(self).wf(),
        ensures
            final(self).wf(),
            final(self).patterns() == old(self).patterns(),
            final(self).gave_way() == old(self).gave_way(),
            final(self).members() == exited(
                old(self).patterns(),
                old(self).members(),
                name@,
                Placed { point: pos@, id: id@ },
            ),
            forall|g: int|
                0 <= g < old(self).members().len() && old(self).patterns()[g] == NEVER_MATCHES@
                    ==> (#[trigger] final(self).members()[g]) == old(self).members()[g],
    {
        let ghost e = Placed { point: pos@, id: id@ };
        let hits = self.classifier.classify(name);
        let count = self.groups.len();
        self.remove_from(&hits, pos, id);
        proof {
            let target = exited(old(self).patterns(), old(self).members(), name@, e);
            assert forall|g: int| 0 <= g < count implies self.members()[g] == target[g] by {
                lemma_listed_contains(hits@, g as usize);
            }
            assert(self.members() =~= target);
            assert forall|g: int|
                0 <= g < count && old(self).patterns()[g] == NEVER_MATCHES@ implies (
            #[trigger] self.members()[g]) == old(self).members()[g] by {
                lemma_listed_contains(hits@, g as usize);
            }
        }
    }

    /// An object moves: it leaves at the point `from` and enters at the
    /// point `to`, at once, so that the next query sees it at `to`.
    pub fn relocate(&mut self, name: &str, from: &[i32; DIMS], to: [i32; DIMS], id: String)
        requires
            old(self).wf(),
        ensures
            final(self).wf(),
            final(self).patterns() == old(self).patterns(),
            final(self).gave_way() == old(self).gave_way(),
            final(self).members() == entered(
                old(self).patterns(),
                exited(
                    old(self).patterns(),
                    old(self).members(),
                    name@,
                    Placed { point: from@, id: id@ },
                ),
                name@,
                Placed { point: to@, id: id@ },
            ),
            forall|g: int|
                0 <= g < old(self).members().len() && old(self).patterns()[g] == NEVER_MATCHES@
                    ==> (#[trigger] final(self).members()[g]) == old(self).members()[g],
    {
        let hits = self.classifier.classify(name);
        let count = self.groups.len();
        let ghost gone = Placed { point: from@, id: id@ };
        let ghost come = Placed { point: to@, id: id@ };
        self.remove_from(&hits, from, &id);
        let ghost between = self.members();
        self.add_to(&hits, to, id);
        proof {
            let left = exited(old(self).patterns(), old(self).members(), name@, gone);
            let target = entered(old(self).patterns(), left, name@, come);
            assert forall|g: int| 0 <= g < count implies between[g] == left[g] by {
                lemma_listed_contains(hits@, g as usize);
            }
            assert(between =~= left);
            assert forall|g: int| 0 <= g < count implies self.members()[g] == target[g] by {
                lemma_listed_contains(hits@, g as usize);
            }
            assert(self.members() =~= target);
            assert forall|g: int|
                0 <= g < count && old(self).patterns()[g] == NEVER_MATCHES@ implies (
            #[trigger] self.members()[g]) == old(self).members()[g] by {
                lemma_listed_contains(hits@, g as usize);
            }
        }
    }

    /// Replaces the patterns: the index then has one empty group for each
    /// pattern given, whatever it held before.
    pub fn reconfigure(&mut self, groups: Vec<&str>)
        ensures
            final(self).wf(),
            final(self).patterns() == in_force(texts(groups@)),
            final(self).gave_way() == rejected(texts(groups@)),
            final(self).members() == vacant(final(self).patterns().len()),
            final(self).members().len() == groups@.len(),
    {
        *self = Self::new_from(groups);
    }

    /// Number of members of one group, or `None` where there is no group of
    /// this number.
    pub fn group_size(&self, group_idx: usize) -> (size: Option<usize>)
        ensures
            size == if group_idx < self.members().len() {
                Some(self.members()[group_idx as int].len() as usize)
            } else {
                None
            },
    {
        if group_idx < self.groups.len() {
            Some(self.groups[group_idx].size())
        } else {
            None
        }
    }

    /// The index as text, for a reader: each group in turn with the
    /// identifiers of its members.
    pub fn describe(&self) -> (text: String)
        ensures
            text@ == described(self.members()),
    {
        let mut text = String::from_str("Nearest(");
        let mut g: usize = 0;
        proof {
            assert(self.members().take(0) =~= Seq::<Seq<Placed>>::empty());
            assert(text@ =~= "Nearest("@ + groups_text(self.members().take(0)));
        }
        while g < self.groups.len()
            invariant
                g <= self.groups@.len(),
                text@ == "Nearest("@ + groups_text(self.members().take(g as int)),
            decreases self.groups@.len() - g,
        {
            let ghost done = self.members().take(g as int);
            let ghost more = self.members().take(g + 1);
            proof {
                assert(more.drop_last() =~= done);
                assert(more.last() == self.groups@[g as int]@);
            }
            if g > 0 {
                text.append(" ");
            }
            let part = self.groups[g].describe();
            text.append(part.as_str());
            proof {
                assert(text@ =~= "Nearest("@ + groups_text(more));
            }
            g = g + 1;
        }
        proof {
            assert(self.members().take(self.members().len() as int) =~= self.members());
        }
        text.append(")");
        text
    }

    /// The identifiers of the members of one group, oldest first, or `None`
    /// where there is no group of this number.
    pub fn member_ids(&self, group_idx: usize) -> (ids: Option<Vec<String>>)
        ensures
            match ids {
                Some(ids) => group_idx < self.members().len() && ids@.len()
                    == self.members()[group_idx as int].len() && forall|i: int|
                    0 <= i < ids@.len() ==> (#[trigger] ids@[i])@
                        == self.members()[group_idx as int][i].id,
                None => group_idx >= self.members().len(),
            },
    {
        if group_idx < self.groups.len() {
            Some(self.groups[group_idx].ids())
        } else {
            None
        }
    }

    /// The members of one group in order of their squared distance to
    /// `pos`, nearest first, or `None` where there is no group of this
    /// number.
    pub fn nearest(&self, pos: &[i32; DIMS], group_idx: usize) -> (found: Option<NearestQuery>)
        ensures
            match found {
                Some(q) => group_idx < self.members().len() && q@ == neighbours(
                    self.members()[group_idx as int],
                    pos@,
                ),
                None => group_idx >= self.members().len(),
            },
    {
        if group_idx < self.groups.len() {
            Some(self.groups[group_idx].nearest(pos))
        } else {
            None
        }
    }

    /// The nearest members of one group, nearest first: at most `limit` of
    /// them, or all where `limit` is negative. A group number that names no
    /// group gives an empty answer.
    pub fn query(&self, pos: &[i32; DIMS], group_idx: i64, limit: i64) -> (found: Vec<Neighbor>)
        ensures
            ranked_views(found@) == answer(self.members(), pos@, group_idx as int, limit as int),
            forall|i: int, j: int|
                0 <= i <= j < found@.len() ==> found@[i].distance <= found@[j].distance,
    {
        let count = self.groups.len();
        if group_idx < 0 || group_idx as u64 >= count as u64 {
            let found: Vec<Neighbor> = Vec::new();
            assert(ranked_views(found@) =~= Seq::<Ranked>::empty());
            return found;
        }
        let at = group_idx as usize;
        let mut q = self.groups[at].nearest(pos);
        let ghost all = q@;
        let left = q.remaining();
        let wanted: usize = if limit < 0 || limit as u64 >= left as u64 {
            left
        } else {
            limit as usize
        };
        let found = q.take(wanted);
        proof {
            assert(all.take(all.len() as int) =~= all);
            assert forall|i: int, j: int| 0 <= i <= j < found@.len() implies found@[i].distance
                <= found@[j].distance by {
                lemma_ranked_sorted(candidates(self.members()[at as int], pos@), i, j);
                assert(ranked_views(found@)[i] == all[i]);
                assert(ranked_views(found@)[j] == all[j]);
            }
        }
        found
    }
}

} // verus!
