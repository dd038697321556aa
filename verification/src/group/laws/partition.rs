//! The partition invariant: whatever rules are applied, the subsets of the
//! order are non-empty and pairwise disjoint, and their union is the set of
//! the teams. Hence an order of a group holds every team exactly once.
use crate::group::laws::splitting::lemma_split_by_regroups;
use crate::group::order::{
    group_refined, initial, is_strict, refine_parts, refine_step, refine_subset, refined,
    regroups, SubOrdering,
};
use crate::group::tiebreak::{arranges, covers, decided, resolves, Tiebreaker, UefaRanking};
use crate::group::Group;
use crate::team::TeamId;
use vstd::prelude::*;
use vstd::seq_lib::{lemma_flatten_concat, lemma_multiset_commutative, to_multiset_len};

verus! {

/// An order that lists the subsets of another, each rearranged, holds the
/// same teams as often.
pub proof fn lemma_arranges_permutes(flat: Seq<TeamId>, order: Seq<Seq<TeamId>>)
    requires
        arranges(flat, order),
    ensures
        flat.to_multiset() == order.flatten().to_multiset(),
        flat.len() == order.flatten().len(),
    decreases order.len(),
{
    if order.len() == 0 {
        assert(flat == Seq::<TeamId>::empty());
        assert(order.flatten() == Seq::<TeamId>::empty());
    } else {
        let n = flat.len() - order.last().len();
        let rest = order.drop_last();
        lemma_arranges_permutes(flat.take(n), rest);
        assert(flat == flat.take(n) + flat.skip(n));
        lemma_multiset_commutative(flat.take(n), flat.skip(n));
        assert(rest.push(order.last()) == order);
        rest.lemma_flatten_push(order.last());
        lemma_multiset_commutative(rest.flatten(), order.last());
        to_multiset_len(flat);
        to_multiset_len(order.flatten());
    }
}

/// What becomes of a subset holds the teams of the subset.
pub proof fn lemma_refine_subset_regroups<R: SubOrdering>(
    rule: &R,
    group: &Group,
    subset: Seq<TeamId>,
)
    requires
        subset.len() > 0,
    ensures
        regroups(refine_subset(rule, group, subset), subset),
{
    if subset.len() > 1 {
        lemma_split_by_regroups(subset, rule.scores(group, subset));
    } else {
        seq![subset].lemma_flatten_singleton();
    }
}

/// What becomes of the first `i` subsets of an order holds the teams of
/// these subsets.
pub proof fn lemma_refine_prefix<R: SubOrdering>(
    rule: &R,
    group: &Group,
    order: Seq<Seq<TeamId>>,
    i: int,
)
    requires
        0 <= i <= order.len(),
        forall|k: int| 0 <= k < order.len() ==> (#[trigger] order[k]).len() > 0,
    ensures
        regroups(refine_parts(rule, group, order).take(i).flatten(), order.take(i).flatten()),
    decreases i,
{
    let parts = refine_parts(rule, group, order);
    if i == 0 {
        assert(parts.take(0).flatten() == Seq::<Seq<TeamId>>::empty());
        assert(order.take(0).flatten() == Seq::<TeamId>::empty());
        assert(parts.take(0).flatten().flatten() == Seq::<TeamId>::empty());
    } else {
        lemma_refine_prefix(rule, group, order, i - 1);
        let done = parts.take(i - 1).flatten();
        let part = parts[i - 1];
        let subset = order[i - 1];
        lemma_refine_subset_regroups(rule, group, subset);
        assert(parts.take(i) == parts.take(i - 1).push(part));
        parts.take(i - 1).lemma_flatten_push(part);
        lemma_flatten_concat(done, part);
        lemma_multiset_commutative(done.flatten(), part.flatten());
        assert(order.take(i) == order.take(i - 1).push(subset));
        order.take(i - 1).lemma_flatten_push(subset);
        lemma_multiset_commutative(order.take(i - 1).flatten(), subset);
        let now = parts.take(i).flatten();
        assert(now == done + part);
        assert forall|k: int| 0 <= k < now.len() implies (#[trigger] now[k]).len() > 0 by {
            if k < done.len() {
                assert(now[k] == done[k]);
            } else {
                assert(now[k] == part[k - done.len()]);
            }
        }
    }
}

/// Partition invariant, one step: a rule that is applied to an order of
/// some teams gives an order of the same teams. No team is lost, none is
/// added, and no subset is empty.
pub proof fn lemma_refine_step_regroups<R: SubOrdering>(
    rule: &R,
    group: &Group,
    order: Seq<Seq<TeamId>>,
    teams: Seq<TeamId>,
)
    requires
        regroups(order, teams),
    ensures
        regroups(refine_step(rule, group, order), teams),
{
    lemma_refine_prefix(rule, group, order, order.len() as int);
    assert(order.take(order.len() as int) == order);
    let parts = refine_parts(rule, group, order);
    assert(parts.take(order.len() as int) == parts);
}

/// Partition invariant, all steps: the rules that are applied one after the
/// other to an order of some teams give an order of the same teams.
pub proof fn lemma_refined_regroups<R: SubOrdering>(
    rules: Seq<R>,
    group: &Group,
    order: Seq<Seq<TeamId>>,
    teams: Seq<TeamId>,
)
    requires
        regroups(order, teams),
    ensures
        regroups(refined(rules, group, order), teams),
    decreases rules.len(),
{
    if !(is_strict(order) || rules.len() == 0) {
        lemma_refine_step_regroups(&rules[0], group, order, teams);
        let next = refine_step(&rules[0], group, order);
        lemma_refined_regroups(rules.drop_first(), group, next, teams);
    }
}

/// The order in which all teams are tied is an order of these teams.
pub proof fn lemma_initial_regroups(teams: Seq<TeamId>)
    ensures
        regroups(initial(teams), teams),
{
    if teams.len() == 0 {
        assert(initial(teams).flatten() == Seq::<TeamId>::empty());
        assert(teams == Seq::<TeamId>::empty());
    } else {
        seq![teams].lemma_flatten_singleton();
    }
}

/// Completeness: an order that lists the subsets of what the rules make of
/// a group holds every team of the group exactly once.
pub proof fn lemma_order_is_complete<R: SubOrdering>(
    flat: Seq<TeamId>,
    rules: Seq<R>,
    group: &Group,
)
    requires
        group.wf(),
        arranges(flat, group_refined(rules, group)),
    ensures
        flat.to_multiset() == group.teams().to_multiset(),
        flat.len() == group.teams().len(),
        flat.no_duplicates(),
{
    let teams = group.teams();
    lemma_initial_regroups(teams);
    lemma_refined_regroups(rules, group, initial(teams), teams);
    lemma_arranges_permutes(flat, group_refined(rules, group));
    to_multiset_len(flat);
    to_multiset_len(teams);
    teams.lemma_multiset_has_no_duplicates();
    flat.lemma_multiset_has_no_duplicates_conv();
}

/// Number of teams in the subsets that stand before subset `i`.
pub open spec fn offset(order: Seq<Seq<TeamId>>, i: int) -> int {
    order.take(i).flatten().len() as int
}

/// Team `a` of subset `i` is the team at place `offset(order, i) + a` of
/// the teams of all subsets, and the next subset starts where subset `i`
/// ends.
pub proof fn lemma_flatten_index(order: Seq<Seq<TeamId>>, i: int, a: int)
    requires
        0 <= i < order.len(),
        0 <= a < order[i].len(),
    ensures
        0 <= offset(order, i),
        offset(order, i) + a < order.flatten().len(),
        order.flatten()[offset(order, i) + a] == order[i][a],
        offset(order, i + 1) == offset(order, i) + order[i].len(),
{
    let head = order.take(i);
    let tail = order.skip(i + 1);
    assert(order == head.push(order[i]) + tail);
    head.lemma_flatten_push(order[i]);
    lemma_flatten_concat(head.push(order[i]), tail);
    assert(order.take(i + 1) == head.push(order[i]));
}

/// A later subset does not start before an earlier one.
pub proof fn lemma_offset_grows(order: Seq<Seq<TeamId>>, i: int, j: int)
    requires
        0 <= i <= j <= order.len(),
    ensures
        offset(order, i) <= offset(order, j),
    decreases j - i,
{
    if i < j {
        lemma_offset_grows(order, i, j - 1);
        assert(order.take(j) == order.take(j - 1).push(order[j - 1]));
        order.take(j - 1).lemma_flatten_push(order[j - 1]);
    }
}

/// Every place of the teams of all subsets is a place of one subset.
pub proof fn lemma_flatten_place(order: Seq<Seq<TeamId>>, p: int) -> (at: (int, int))
    requires
        0 <= p < order.flatten().len(),
    ensures
        0 <= at.0 < order.len(),
        0 <= at.1 < order[at.0].len(),
        order[at.0][at.1] == order.flatten()[p],
    decreases order.len(),
{
    if order.len() == 0 {
        (0, 0)
    } else {
        let rest = order.drop_last();
        assert(rest.push(order.last()) == order);
        rest.lemma_flatten_push(order.last());
        if p < rest.flatten().len() {
            let at = lemma_flatten_place(rest, p);
            assert(rest[at.0] == order[at.0]);
            at
        } else {
            (order.len() - 1, p - rest.flatten().len())
        }
    }
}

/// Whether the subsets of `order` are a partition of `teams`: none is
/// empty, no team occurs at two places, be it of one subset or of two, and
/// the teams that occur are those of `teams`.
pub open spec fn is_partition(order: Seq<Seq<TeamId>>, teams: Set<TeamId>) -> bool {
    &&& forall|i: int| 0 <= i < order.len() ==> (#[trigger] order[i]).len() > 0
    &&& forall|i: int, a: int, j: int, b: int|
        0 <= i < order.len() && 0 <= a < order[i].len() && 0 <= j < order.len() && 0 <= b
            < order[j].len() && (i != j || a != b) ==> #[trigger] order[i][a]
            != #[trigger] order[j][b]
    &&& forall|t: TeamId|
        teams.contains(t) <==> exists|i: int|
            0 <= i < order.len() && (#[trigger] order[i]).contains(t)
}

/// An order of teams none of which is listed twice is a partition of them:
/// its subsets are pairwise disjoint, and their union is the set of the
/// teams.
pub proof fn lemma_regroups_is_partition(order: Seq<Seq<TeamId>>, teams: Seq<TeamId>)
    requires
        teams.no_duplicates(),
        regroups(order, teams),
    ensures
        is_partition(order, teams.to_set()),
{
    let flat = order.flatten();
    teams.lemma_multiset_has_no_duplicates();
    flat.lemma_multiset_has_no_duplicates_conv();
    assert forall|i: int, a: int, j: int, b: int|
        0 <= i < order.len() && 0 <= a < order[i].len() && 0 <= j < order.len() && 0 <= b
            < order[j].len() && (i != j || a != b) implies #[trigger] order[i][a]
        != #[trigger] order[j][b] by {
        lemma_flatten_index(order, i, a);
        lemma_flatten_index(order, j, b);
        if i < j {
            lemma_offset_grows(order, i + 1, j);
        }
        if j < i {
            lemma_offset_grows(order, j + 1, i);
        }
        assert(offset(order, i) + a != offset(order, j) + b);
    }
    assert forall|t: TeamId|
        teams.to_set().contains(t) <==> exists|i: int|
            0 <= i < order.len() && (#[trigger] order[i]).contains(t) by {
        vstd::seq_lib::to_multiset_contains(flat, t);
        vstd::seq_lib::to_multiset_contains(teams, t);
        if teams.contains(t) {
            let p = choose|p: int| 0 <= p < flat.len() && flat[p] == t;
            let at = lemma_flatten_place(order, p);
            assert(order[at.0].contains(t));
        }
        if exists|i: int| 0 <= i < order.len() && (#[trigger] order[i]).contains(t) {
            let i = choose|i: int| 0 <= i < order.len() && (#[trigger] order[i]).contains(t);
            let a = choose|a: int| 0 <= a < order[i].len() && order[i][a] == t;
            lemma_flatten_index(order, i, a);
            assert(flat.contains(t));
        }
    }
}

/// Partition invariant: whatever rules are applied to the teams of a group,
/// and however many of them, the subsets of the order are pairwise disjoint
/// and their union is the set of the teams of the group.
pub proof fn lemma_refined_is_partition<R: SubOrdering>(rules: Seq<R>, group: &Group)
    requires
        group.wf(),
    ensures
        is_partition(group_refined(rules, group), group.teams().to_set()),
{
    let teams = group.teams();
    lemma_initial_regroups(teams);
    lemma_refined_regroups(rules, group, initial(teams), teams);
    lemma_regroups_is_partition(group_refined(rules, group), teams);
}

/// A ranking that was made for some groups can settle whatever any rules
/// leave tied in any of these groups.
pub proof fn lemma_ranking_resolves<R: SubOrdering>(
    ranking: &UefaRanking,
    groups: Seq<Group>,
    g: int,
    rules: Seq<R>,
)
    requires
        covers(ranking.ranks(), groups),
        0 <= g < groups.len(),
        groups[g].wf(),
    ensures
        resolves(ranking.answers(), group_refined(rules, &groups[g])),
{
    let group = &groups[g];
    let refined = group_refined(rules, group);
    lemma_refined_is_partition(rules, group);
    assert forall|i: int| 0 <= i < refined.len() implies decided(
        ranking.answers(),
        #[trigger] refined[i],
    ) by {
        assert forall|a: int| 0 <= a < refined[i].len() implies ranking.ranks().contains_key(
            (#[trigger] refined[i][a]).0,
        ) by {
            let team = refined[i][a];
            assert(refined[i].contains(team));
            assert(group.teams().to_set().contains(team));
            let t = choose|t: int| 0 <= t < group.teams().len() && group.teams()[t] == team;
            assert(groups[g].teams()[t] == team);
        }
    }
}

} // verus!
