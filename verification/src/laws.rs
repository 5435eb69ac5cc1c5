//! What holds of the grouped index across its operations.

use vstd::prelude::*;
use crate::group::{
    all_of_dimension, candidates, distinct, joined, lemma_joined, lemma_parted, neighbours, parted,
    position_of, Placed,
};
use crate::metric::{lemma_sq_dist_self, lemma_sq_dist_zero, sq_dist};
use crate::nearest::{answer, belongs, entered, exited, vacant};
use crate::pattern::NEVER_MATCHES;
use crate::ranking::{
    is_nearest_at, lemma_nearest_unique, lemma_ranked_first, lemma_ranked_len,
    lemma_ranked_members, lemma_ranked_sorted, ranked, Ranked,
};

verus! {

/// Among the members of `s` at the point of `e`, none stands before `e`:
/// each other member at that point has `e` somewhere ahead of it.
pub open spec fn leads_at_its_point(s: Seq<Placed>, e: Placed) -> bool {
    forall|j: int|
        0 <= j < s.len() && (#[trigger] s[j]).point == e.point && s[j] != e ==> exists|k: int|
            0 <= k < j && s[k] == e
}

/// Every neighbour in an answer is a member of the group asked, with its
/// squared distance to the query point.
pub proof fn lemma_answer_members(
    groups: Seq<Seq<Placed>>,
    target: Seq<i32>,
    group: int,
    limit: int,
    k: int,
)
    requires
        0 <= k < answer(groups, target, group, limit).len(),
    ensures
        0 <= group < groups.len(),
        exists|at: int|
            0 <= at < groups[group].len() && answer(groups, target, group, limit)[k].id
                == groups[group][at].id && answer(groups, target, group, limit)[k].distance
                == sq_dist(groups[group][at].point, target),
{
    let c = candidates(groups[group], target);
    lemma_ranked_members(c, k);
    let at = choose|at: int| 0 <= at < c.len() && c[at] == ranked(c)[k];
    assert(answer(groups, target, group, limit)[k] == ranked(c)[k]);
    assert(c[at].id == groups[group][at].id);
}

/// An answer is ordered by squared distance to the query point, nearest
/// first.
pub proof fn lemma_answer_sorted(
    groups: Seq<Seq<Placed>>,
    target: Seq<i32>,
    group: int,
    limit: int,
    i: int,
    j: int,
)
    requires
        0 <= i <= j < answer(groups, target, group, limit).len(),
    ensures
        answer(groups, target, group, limit)[i].distance <= answer(
            groups,
            target,
            group,
            limit,
        )[j].distance,
{
    let c = candidates(groups[group], target);
    lemma_ranked_sorted(c, i, j);
}

/// An answer holds as many neighbours as were asked for, or all members of
/// the group where fewer were there or a negative number was asked for.
pub proof fn lemma_answer_len(groups: Seq<Seq<Placed>>, target: Seq<i32>, group: int, limit: int)
    requires
        0 <= group < groups.len(),
    ensures
        answer(groups, target, group, limit).len() == if 0 <= limit < groups[group].len() {
            limit
        } else {
            groups[group].len() as int
        },
{
    lemma_ranked_len(candidates(groups[group], target));
}

/// After an object has entered under a name that belongs to group `g`, the
/// nearest neighbour of its own point in `g` is the object itself, at
/// distance zero, provided that no other member of `g` at that very point
/// stands before it.
pub proof fn lemma_enter_then_query(
    patterns: Seq<Seq<char>>,
    groups: Seq<Seq<Placed>>,
    name: Seq<char>,
    e: Placed,
    g: int,
)
    requires
        groups.len() == patterns.len(),
        belongs(patterns, g, name),
        distinct(groups[g]),
        all_of_dimension(groups[g], e.point.len()),
        leads_at_its_point(groups[g], e),
    ensures
        answer(entered(patterns, groups, name, e), e.point, g, 1) == seq![
            Ranked { distance: 0, id: e.id },
        ],
{
    let s = groups[g];
    let t = joined(s, e);
    let c = candidates(t, e.point);
    lemma_joined(s, e);
    let m = if s.contains(e) {
        position_of(s, e)
    } else {
        s.len() as int
    };
    assert(t[m] == e);
    lemma_sq_dist_self(e.point);
    assert(c[m].distance == 0);
    assert forall|j: int| 0 <= j < m implies c[m].distance < (#[trigger] c[j]).distance by {
        assert(t[j] == s[j]);
        if sq_dist(s[j].point, e.point) == 0 {
            lemma_sq_dist_zero(s[j].point, e.point);
            if s[j] == e {
                assert(s.contains(e));
            } else {
                let k = choose|k: int| 0 <= k < j && s[k] == e;
                assert(s.contains(e));
            }
        }
    }
    assert(is_nearest_at(c, m));
    lemma_nearest_unique(c, m);
    lemma_ranked_first(c);
    lemma_ranked_len(c);
    let all = neighbours(t, e.point);
    assert(entered(patterns, groups, name, e)[g] == t);
    assert(all[0] == Ranked { distance: 0, id: e.id });
    assert(answer(entered(patterns, groups, name, e), e.point, g, 1) =~= seq![
        Ranked { distance: 0, id: e.id },
    ]);
}

/// After an object has left under a name that belongs to group `g`, it is
/// no member of `g`, and no answer from `g` for its point holds its
/// identifier at distance zero.
pub proof fn lemma_exit_erases(
    patterns: Seq<Seq<char>>,
    groups: Seq<Seq<Placed>>,
    name: Seq<char>,
    e: Placed,
    g: int,
    limit: int,
    k: int,
)
    requires
        groups.len() == patterns.len(),
        belongs(patterns, g, name),
        distinct(groups[g]),
        all_of_dimension(groups[g], e.point.len()),
        0 <= k < answer(exited(patterns, groups, name, e), e.point, g, limit).len(),
    ensures
        !exited(patterns, groups, name, e)[g].contains(e),
        !(answer(exited(patterns, groups, name, e), e.point, g, limit)[k] == Ranked {
            distance: 0,
            id: e.id,
        }),
{
    let after = exited(patterns, groups, name, e);
    lemma_parted(groups[g], e);
    assert(after[g] == parted(groups[g], e));
    let hit = answer(after, e.point, g, limit)[k];
    if hit == (Ranked { distance: 0, id: e.id }) {
        lemma_answer_members(after, e.point, g, limit, k);
        let at = choose|at: int|
            0 <= at < after[g].len() && hit.id == after[g][at].id && hit.distance == sq_dist(
                after[g][at].point,
                e.point,
            );
        assert(after[g].contains(after[g][at]));
        assert(groups[g].contains(after[g][at]));
        let back = choose|back: int| 0 <= back < groups[g].len() && groups[g][back] == after[g][at];
        assert(groups[g][back].point.len() == e.point.len());
        lemma_sq_dist_zero(after[g][at].point, e.point);
        assert(after[g][at] == e);
    }
}

/// An object that enters a group holding no other member, and leaves it
/// again, leaves the group without an answer for its point.
pub proof fn lemma_enter_exit_query(
    patterns: Seq<Seq<char>>,
    groups: Seq<Seq<Placed>>,
    name: Seq<char>,
    e: Placed,
    g: int,
)
    requires
        groups.len() == patterns.len(),
        belongs(patterns, g, name),
        distinct(groups[g]),
        forall|j: int| 0 <= j < groups[g].len() ==> groups[g][j] == e,
    ensures
        answer(
            exited(patterns, entered(patterns, groups, name, e), name, e),
            e.point,
            g,
            1,
        ) == Seq::<Ranked>::empty(),
{
    let s = groups[g];
    let t = joined(s, e);
    lemma_joined(s, e);
    lemma_parted(t, e);
    let u = parted(t, e);
    assert(entered(patterns, groups, name, e)[g] == t);
    assert(exited(patterns, entered(patterns, groups, name, e), name, e)[g] == u);
    if u.len() > 0 {
        assert(u.contains(u[0]));
        assert(t.contains(u[0]));
        if s.contains(u[0]) {
            let j = choose|j: int| 0 <= j < s.len() && s[j] == u[0];
            assert(s[j] == e);
        }
    }
    lemma_ranked_len(candidates(u, e.point));
    assert(neighbours(u, e.point) =~= Seq::<Ranked>::empty());
}

/// An object that enters under a name that does not belong to group `b`
/// leaves `b` as it was: an identifier that no member of `b` carried is in
/// no answer from `b`, whatever the query point.
pub proof fn lemma_group_isolation(
    patterns: Seq<Seq<char>>,
    groups: Seq<Seq<Placed>>,
    name: Seq<char>,
    e: Placed,
    b: int,
    target: Seq<i32>,
    limit: int,
    k: int,
)
    requires
        0 <= b < groups.len(),
        !belongs(patterns, b, name),
        forall|j: int| 0 <= j < groups[b].len() ==> groups[b][j].id != e.id,
        0 <= k < answer(entered(patterns, groups, name, e), target, b, limit).len(),
    ensures
        entered(patterns, groups, name, e)[b] == groups[b],
        answer(entered(patterns, groups, name, e), target, b, limit)[k].id != e.id,
{
    let after = entered(patterns, groups, name, e);
    assert(after[b] == groups[b]);
    lemma_answer_members(after, target, b, limit, k);
}

/// No name belongs to the group of a pattern that gave way to
/// `NEVER_MATCHES`: objects that enter or leave pass that group by, under
/// whatever name.
pub proof fn lemma_never_matching_group_is_passed_by(
    patterns: Seq<Seq<char>>,
    groups: Seq<Seq<Placed>>,
    name: Seq<char>,
    e: Placed,
    g: int,
)
    requires
        0 <= g < groups.len(),
        g < patterns.len(),
        patterns[g] == NEVER_MATCHES@,
    ensures
        !belongs(patterns, g, name),
        entered(patterns, groups, name, e)[g] == groups[g],
        exited(patterns, groups, name, e)[g] == groups[g],
{
}

/// Groups without members give no answer.
pub proof fn lemma_vacant_answers_nothing(count: nat, target: Seq<i32>, group: int, limit: int)
    ensures
        answer(vacant(count), target, group, limit) == Seq::<Ranked>::empty(),
        forall|g: int| 0 <= g < count ==> (#[trigger] vacant(count)[g]).len() == 0,
{
    if 0 <= group < count {
        lemma_ranked_len(candidates(vacant(count)[group], target));
        assert(neighbours(vacant(count)[group], target) =~= Seq::<Ranked>::empty());
    }
}

} // verus!
