//! Order in which candidates leave a nearest-neighbour query.
//!
//! A candidate is an identifier with its squared distance to the query point.
//! Candidates leave nearest first; of several at one distance, the one that
//! stands first among the candidates leaves first.

use vstd::prelude::*;
use vstd::seq_lib::*;

verus! {

/// An identifier with its squared distance to the query point.
pub ghost struct Ranked {
    pub distance: nat,
    pub id: Seq<char>,
}

/// `i` is the position of the first candidate of least distance.
pub open spec fn is_nearest_at(c: Seq<Ranked>, i: int) -> bool {
    &&& 0 <= i < c.len()
    &&& forall|j: int| 0 <= j < c.len() ==> c[i].distance <= (#[trigger] c[j]).distance
    &&& forall|j: int| 0 <= j < i ==> c[i].distance < (#[trigger] c[j]).distance
}

/// Position of the first candidate of least distance.
pub open spec fn nearest_at(c: Seq<Ranked>) -> int {
    choose|i: int| is_nearest_at(c, i)
}

/// Every non-empty sequence has a first candidate of least distance.
pub proof fn lemma_nearest_exists(c: Seq<Ranked>)
    requires
        c.len() > 0,
    ensures
        is_nearest_at(c, nearest_at(c)),
    decreases c.len(),
{
    if c.len() == 1 {
        assert(is_nearest_at(c, 0));
    } else {
        let front = c.drop_last();
        lemma_nearest_exists(front);
        let m = nearest_at(front);
        let last = c.len() - 1;
        assert(forall|j: int| 0 <= j < front.len() ==> front[j] == c[j]);
        if c[last].distance < c[m].distance {
            assert forall|j: int| 0 <= j < c.len() implies c[last].distance <= (
            #[trigger] c[j]).distance by {
                if j < last {
                    assert(front[m].distance <= front[j].distance);
                }
            }
            assert forall|j: int| 0 <= j < last implies c[last].distance < (
            #[trigger] c[j]).distance by {
                assert(front[m].distance <= front[j].distance);
            }
            assert(is_nearest_at(c, last));
        } else {
            assert forall|j: int| 0 <= j < c.len() implies c[m].distance <= (
            #[trigger] c[j]).distance by {
                if j < last {
                    assert(front[m].distance <= front[j].distance);
                }
            }
            assert forall|j: int| 0 <= j < m implies c[m].distance < (#[trigger] c[j]).distance by {
                assert(front[m].distance < front[j].distance);
            }
            assert(is_nearest_at(c, m));
        }
    }
}

/// The first candidate of least distance stands at one position only.
pub proof fn lemma_nearest_unique(c: Seq<Ranked>, i: int)
    requires
        is_nearest_at(c, i),
    ensures
        nearest_at(c) == i,
{
    let k = nearest_at(c);
    assert(is_nearest_at(c, k));
    if k < i {
        assert(c[i].distance < c[k].distance);
        assert(c[k].distance <= c[i].distance);
    } else if i < k {
        assert(c[k].distance < c[i].distance);
        assert(c[i].distance <= c[k].distance);
    }
}

/// The candidates in the order in which a query hands them out.
pub open spec fn ranked(c: Seq<Ranked>) -> Seq<Ranked>
    decreases c.len(),
    via ranked_decreases
{
    if c.len() == 0 {
        Seq::empty()
    } else {
        seq![c[nearest_at(c)]] + ranked(c.remove(nearest_at(c)))
    }
}

#[via_fn]
proof fn ranked_decreases(c: Seq<Ranked>) {
    if c.len() > 0 {
        lemma_nearest_exists(c);
    }
}

/// A query hands out as many candidates as it was given.
pub proof fn lemma_ranked_len(c: Seq<Ranked>)
    ensures
        ranked(c).len() == c.len(),
    decreases c.len(),
{
    if c.len() > 0 {
        lemma_nearest_exists(c);
        lemma_ranked_len(c.remove(nearest_at(c)));
    }
}

/// A query hands out exactly the candidates it was given, each as often as
/// it was given.
pub proof fn lemma_ranked_permutes(c: Seq<Ranked>)
    ensures
        ranked(c).to_multiset() == c.to_multiset(),
    decreases c.len(),
{
    broadcast use vstd::multiset::group_multiset_axioms;

    if c.len() == 0 {
        assert(ranked(c) =~= c);
    } else {
        lemma_nearest_exists(c);
        let m = nearest_at(c);
        let rest = c.remove(m);
        lemma_ranked_permutes(rest);
        to_multiset_remove(c, m);
        let tail = ranked(rest);
        let whole = seq![c[m]] + tail;
        assert(whole.remove(0) =~= tail);
        to_multiset_remove(whole, 0);
        c.to_multiset_ensures();
        whole.to_multiset_ensures();
        assert(c.contains(c[m]));
        assert(whole.contains(whole[0]));
        assert(whole.to_multiset() =~= tail.to_multiset().insert(c[m]));
        assert(c.to_multiset() =~= rest.to_multiset().insert(c[m]));
    }
}

/// Whatever a query hands out was among its candidates.
pub proof fn lemma_ranked_members(c: Seq<Ranked>, k: int)
    requires
        0 <= k < ranked(c).len(),
    ensures
        c.contains(ranked(c)[k]),
{
    let e = ranked(c)[k];
    lemma_ranked_permutes(c);
    c.to_multiset_ensures();
    ranked(c).to_multiset_ensures();
    assert(ranked(c).contains(e));
    assert(ranked(c).to_multiset().count(e) > 0);
    assert(c.to_multiset().count(e) > 0);
}

/// A query hands its candidates out in order of distance, nearest first.
pub proof fn lemma_ranked_sorted(c: Seq<Ranked>, i: int, j: int)
    requires
        0 <= i <= j < ranked(c).len(),
    ensures
        ranked(c)[i].distance <= ranked(c)[j].distance,
    decreases c.len(),
{
    lemma_ranked_len(c);
    lemma_nearest_exists(c);
    let m = nearest_at(c);
    let rest = c.remove(m);
    lemma_ranked_len(rest);
    if i == 0 {
        if j > 0 {
            lemma_ranked_members(rest, j - 1);
            let e = ranked(rest)[j - 1];
            let at = choose|at: int| 0 <= at < rest.len() && rest[at] == e;
            assert(rest[at] == if at < m { c[at] } else { c[at + 1] });
        }
    } else {
        lemma_ranked_sorted(rest, i - 1, j - 1);
    }
}

/// The first candidate handed out is the first of least distance.
pub proof fn lemma_ranked_first(c: Seq<Ranked>)
    requires
        c.len() > 0,
    ensures
        ranked(c).len() > 0,
        ranked(c)[0] == c[nearest_at(c)],
        ranked(c).skip(1) == ranked(c.remove(nearest_at(c))),
{
    lemma_ranked_len(c);
    assert(ranked(c).skip(1) =~= ranked(c.remove(nearest_at(c))));
}

} // verus!
