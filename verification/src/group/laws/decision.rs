//! What is decided stays decided: a strict order is left alone, a team that
//! is alone in its subset keeps its place, and an order is determined by the
//! group, the rules and the tiebreaker where the tiebreaker's answers are
//! fixed.
use crate::group::laws::partition::{
    lemma_arranges_permutes, lemma_refine_prefix, lemma_refine_step_regroups, offset,
};
use crate::group::laws::ranking::lemma_drawn_single;
use crate::group::order::{
    firsts, group_refined, is_strict, orders, refine_parts, refine_step, refined, SubOrdering,
};
use crate::group::tiebreak::{arranges, settled, Outcome, Tiebreaker};
use crate::group::Group;
use crate::team::TeamId;
use vstd::prelude::*;
use vstd::seq_lib::{lemma_flatten_concat, to_multiset_len};

verus! {

/// A strict order is settled as it stands, whatever the answers.
pub proof fn lemma_settled_strict(order: Seq<Seq<TeamId>>, answers: Map<(TeamId, TeamId), Outcome>)
    requires
        is_strict(order),
    ensures
        settled(order, answers) == firsts(order),
        arranges(firsts(order), order),
    decreases order.len(),
{
    if order.len() == 0 {
        assert(firsts(order) == Seq::<TeamId>::empty());
    } else {
        let rest = order.drop_last();
        let last = order.last();
        assert(is_strict(rest)) by {
            assert forall|i: int| 0 <= i < rest.len() implies (#[trigger] rest[i]).len() == 1 by {
                assert(rest[i] == order[i]);
            }
        }
        lemma_settled_strict(rest, answers);
        assert(last.len() == 1);
        assert(last == seq![last[0]]);
        lemma_drawn_single(last[0], answers);
        assert(firsts(order) == firsts(rest) + last);
        let flat = firsts(order);
        let n = flat.len() - last.len();
        assert(flat.take(n) == firsts(rest));
        assert(flat.skip(n) == last);
    }
}

/// The only way to list the subsets of a strict order is the order itself.
pub proof fn lemma_arranges_strict(flat: Seq<TeamId>, order: Seq<Seq<TeamId>>)
    requires
        is_strict(order),
        arranges(flat, order),
    ensures
        flat == firsts(order),
    decreases order.len(),
{
    if order.len() == 0 {
        assert(flat == firsts(order));
    } else {
        let rest = order.drop_last();
        let last = order.last();
        let n = flat.len() - last.len();
        let tail = flat.skip(n);
        assert(is_strict(rest)) by {
            assert forall|i: int| 0 <= i < rest.len() implies (#[trigger] rest[i]).len() == 1 by {
                assert(rest[i] == order[i]);
            }
        }
        lemma_arranges_strict(flat.take(n), rest);
        assert(last.len() == 1);
        to_multiset_len(tail);
        to_multiset_len(last);
        assert(tail.len() == 1);
        assert(tail.contains(tail[0]));
        vstd::seq_lib::to_multiset_contains(tail, tail[0]);
        vstd::seq_lib::to_multiset_contains(last, tail[0]);
        assert(last.contains(tail[0]));
        assert(tail[0] == last[0]);
        assert(flat == flat.take(n) + tail);
        assert(flat == firsts(order));
    }
}

/// Whether `team` is alone in a subset of `order` that starts at `place`.
pub open spec fn stands_alone(order: Seq<Seq<TeamId>>, team: TeamId, place: int) -> bool {
    exists|i: int|
        0 <= i < order.len() && #[trigger] order[i] == seq![team] && offset(order, i) == place
}

/// A team that is alone in its subset is alone in a subset at the same
/// place after a rule has been applied.
pub proof fn lemma_step_keeps_place<R: SubOrdering>(
    rule: &R,
    group: &Group,
    order: Seq<Seq<TeamId>>,
    team: TeamId,
    place: int,
)
    requires
        forall|k: int| 0 <= k < order.len() ==> (#[trigger] order[k]).len() > 0,
        stands_alone(order, team, place),
    ensures
        stands_alone(refine_step(rule, group, order), team, place),
{
    let i = choose|i: int|
        0 <= i < order.len() && #[trigger] order[i] == seq![team] && offset(order, i) == place;
    let parts = refine_parts(rule, group, order);
    let step = refine_step(rule, group, order);
    let done = parts.take(i).flatten();
    let tail = parts.skip(i + 1);
    assert(order[i].len() == 1);
    assert(parts[i] == seq![order[i]]);
    assert(parts == parts.take(i).push(parts[i]) + tail);
    parts.take(i).lemma_flatten_push(parts[i]);
    lemma_flatten_concat(parts.take(i).push(parts[i]), tail);
    let at = done.len() as int;
    assert(step == done + parts[i] + tail.flatten());
    assert(step[at] == seq![team]);
    assert(step.take(at) == done);
    lemma_refine_prefix(rule, group, order, i);
    to_multiset_len(done.flatten());
    to_multiset_len(order.take(i).flatten());
    assert(offset(step, at) == place);
}

/// A team that is alone in its subset is alone in a subset at the same
/// place after any number of rules have been applied.
pub proof fn lemma_rules_keep_place<R: SubOrdering>(
    rules: Seq<R>,
    group: &Group,
    order: Seq<Seq<TeamId>>,
    team: TeamId,
    place: int,
)
    requires
        forall|k: int| 0 <= k < order.len() ==> (#[trigger] order[k]).len() > 0,
        stands_alone(order, team, place),
    ensures
        stands_alone(refined(rules, group, order), team, place),
    decreases rules.len(),
{
    if !(is_strict(order) || rules.len() == 0) {
        let next = refine_step(&rules[0], group, order);
        lemma_step_keeps_place(&rules[0], group, order, team, place);
        lemma_refine_step_regroups(&rules[0], group, order, order.flatten());
        lemma_rules_keep_place(rules.drop_first(), group, next, team, place);
    }
}

/// A team that is alone in a subset stands, in every order that lists the
/// subsets one after the other, where its subset starts.
pub proof fn lemma_place_is_final(
    flat: Seq<TeamId>,
    order: Seq<Seq<TeamId>>,
    team: TeamId,
    place: int,
)
    requires
        arranges(flat, order),
        stands_alone(order, team, place),
    ensures
        0 <= place < flat.len(),
        flat[place] == team,
    decreases order.len(),
{
    let i = choose|i: int|
        0 <= i < order.len() && #[trigger] order[i] == seq![team] && offset(order, i) == place;
    let rest = order.drop_last();
    let last = order.last();
    let n = flat.len() - last.len();
    lemma_arranges_permutes(flat.take(n), rest);
    if i == order.len() - 1 {
        assert(order.take(i) == rest);
        let tail = flat.skip(n);
        to_multiset_len(tail);
        to_multiset_len(last);
        assert(tail.contains(tail[0]));
        vstd::seq_lib::to_multiset_contains(tail, tail[0]);
        vstd::seq_lib::to_multiset_contains(last, tail[0]);
        assert(last.contains(tail[0]));
        assert(tail[0] == last[0]);
    } else {
        assert(rest[i] == order[i]);
        assert(rest.take(i) == order.take(i));
        assert(stands_alone(rest, team, place));
        lemma_place_is_final(flat.take(n), rest, team, place);
    }
}

/// Monotonic decision: once a team is alone in its subset, neither the
/// rules that are applied afterwards nor the tiebreaker move it. In every
/// order that lists the subsets of what the rules make of `order`, the team
/// stands where its subset started.
pub proof fn lemma_decided_team_keeps_place<R: SubOrdering>(
    rules: Seq<R>,
    group: &Group,
    order: Seq<Seq<TeamId>>,
    team: TeamId,
    place: int,
    flat: Seq<TeamId>,
)
    requires
        forall|k: int| 0 <= k < order.len() ==> (#[trigger] order[k]).len() > 0,
        stands_alone(order, team, place),
        arranges(flat, refined(rules, group, order)),
    ensures
        0 <= place < flat.len(),
        flat[place] == team,
{
    lemma_rules_keep_place(rules, group, order, team, place);
    lemma_place_is_final(flat, refined(rules, group, order), team, place);
}

/// Determinism: where the answers of the tiebreaker are fixed, or the rules
/// leave no teams tied, a group has one order by the rules and the
/// tiebreaker and no other.
pub proof fn lemma_order_is_determined<T: Tiebreaker, R: SubOrdering>(
    first: Seq<TeamId>,
    second: Seq<TeamId>,
    group: &Group,
    rules: Seq<R>,
    tiebreaker: &T,
)
    requires
        tiebreaker.fixed() || is_strict(group_refined(rules, group)),
        orders(first, group, rules, tiebreaker),
        orders(second, group, rules, tiebreaker),
    ensures
        first == second,
{
}

} // verus!
