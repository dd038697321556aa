//! Ranking teams by pairwise answers: where a team goes, that no team is
//! lost, and what the ranking is when the answers are consistent.
use crate::group::tiebreak::{behind, drawn, slot, Outcome, Tiebreaker, UefaRanking};
use crate::team::TeamId;
use vstd::prelude::*;

verus! {

/// A place is the slot of a team if the team is less than every team before
/// the place and not less than the team at it.
pub proof fn lemma_slot(
    ranked: Seq<TeamId>,
    team: TeamId,
    answers: Map<(TeamId, TeamId), Outcome>,
    k: int,
)
    requires
        0 <= k <= ranked.len(),
        forall|j: int| 0 <= j < k ==> behind(answers, team, #[trigger] ranked[j]),
        k < ranked.len() ==> !behind(answers, team, ranked[k]),
    ensures
        slot(ranked, team, answers) == k,
    decreases k,
{
    if k > 0 {
        let rest = ranked.drop_first();
        assert(behind(answers, team, ranked[0]));
        assert forall|j: int| 0 <= j < k - 1 implies behind(answers, team, #[trigger] rest[j]) by {
            assert(rest[j] == ranked[j + 1]);
        }
        if k - 1 < rest.len() {
            assert(rest[k - 1] == ranked[k]);
        }
        lemma_slot(rest, team, answers, k - 1);
    }
}

/// The slot of a team splits a ranking: the team is less than every team
/// before its slot, and not less than the team at it.
pub proof fn lemma_slot_splits(
    ranked: Seq<TeamId>,
    team: TeamId,
    answers: Map<(TeamId, TeamId), Outcome>,
)
    ensures
        0 <= slot(ranked, team, answers) <= ranked.len(),
        forall|j: int|
            0 <= j < slot(ranked, team, answers) ==> behind(answers, team, #[trigger] ranked[j]),
        slot(ranked, team, answers) < ranked.len() ==> !behind(
            answers,
            team,
            ranked[slot(ranked, team, answers)],
        ),
    decreases ranked.len(),
{
    if ranked.len() > 0 && behind(answers, team, ranked[0]) {
        let rest = ranked.drop_first();
        lemma_slot_splits(rest, team, answers);
        let k = slot(rest, team, answers);
        assert forall|j: int| 0 <= j < k + 1 implies behind(answers, team, #[trigger] ranked[j]) by {
            if j > 0 {
                assert(ranked[j] == rest[j - 1]);
            }
        }
        if k < rest.len() {
            assert(ranked[k + 1] == rest[k]);
        }
    }
}

/// A single team is ranked as itself, whatever the answers.
pub proof fn lemma_drawn_single(team: TeamId, answers: Map<(TeamId, TeamId), Outcome>)
    ensures
        drawn(seq![team], answers) == seq![team],
{
    let one = seq![team];
    assert(one.drop_last() == Seq::<TeamId>::empty());
    assert(drawn(one.drop_last(), answers) == Seq::<TeamId>::empty());
    assert(slot(Seq::<TeamId>::empty(), team, answers) == 0);
    assert(Seq::<TeamId>::empty().insert(0, team) == one);
}

/// The ranking by any answers holds the teams that were ranked, each as
/// often as before.
pub proof fn lemma_drawn_permutes(order: Seq<TeamId>, answers: Map<(TeamId, TeamId), Outcome>)
    ensures
        drawn(order, answers).to_multiset() == order.to_multiset(),
    decreases order.len(),
{
    if order.len() == 0 {
        assert(order == Seq::<TeamId>::empty());
    } else {
        let rest = order.drop_last();
        let ranked = drawn(rest, answers);
        lemma_drawn_permutes(rest, answers);
        lemma_slot_splits(ranked, order.last(), answers);
        vstd::seq_lib::to_multiset_insert(
            ranked,
            slot(ranked, order.last(), answers),
            order.last(),
        );
        vstd::seq_lib::to_multiset_build(rest, order.last());
        assert(rest.push(order.last()) == order);
    }
}

/// Whether being less by `answers` is a strict total order on `teams`: of
/// two different teams one is less than the other and not the other way
/// round, and a team that is less than a second, which is less than a
/// third, is less than the third.
pub open spec fn strictly_orders(
    answers: Map<(TeamId, TeamId), Outcome>,
    teams: Seq<TeamId>,
) -> bool {
    &&& forall|a: TeamId, b: TeamId|
        teams.contains(a) && teams.contains(b) && a != b ==> (#[trigger] behind(answers, a, b)
            <==> !behind(answers, b, a))
    &&& forall|a: TeamId, b: TeamId, c: TeamId|
        teams.contains(a) && teams.contains(b) && teams.contains(c) && #[trigger] behind(
            answers,
            a,
            b,
        ) && #[trigger] behind(answers, b, c) ==> behind(answers, a, c)
}

/// Whether every team of `ranked` is less by `answers` than every team
/// before it.
pub open spec fn sorted_by(ranked: Seq<TeamId>, answers: Map<(TeamId, TeamId), Outcome>) -> bool {
    forall|p: int, q: int|
        0 <= p < q < ranked.len() ==> behind(answers, #[trigger] ranked[q], #[trigger] ranked[p])
}

/// What a tiebreaker with consistent answers does, said directly: where
/// being less is a strict total order on the tied teams, the teams are
/// ranked so that every team is less than every team before it.
pub proof fn lemma_drawn_sorted(tied: Seq<TeamId>, answers: Map<(TeamId, TeamId), Outcome>)
    requires
        tied.no_duplicates(),
        strictly_orders(answers, tied),
    ensures
        sorted_by(drawn(tied, answers), answers),
        drawn(tied, answers).to_multiset() == tied.to_multiset(),
    decreases tied.len(),
{
    lemma_drawn_permutes(tied, answers);
    if tied.len() > 0 {
        let rest = tied.drop_last();
        let ranked = drawn(rest, answers);
        let team = tied.last();
        let k = slot(ranked, team, answers);
        let now = ranked.insert(k, team);
        assert(tied[tied.len() - 1] == team);
        assert forall|t: TeamId| rest.contains(t) implies tied.contains(t) && t != team by {
            let i = choose|i: int| 0 <= i < rest.len() && rest[i] == t;
            assert(tied[i] == t);
        }
        assert(strictly_orders(answers, rest));
        lemma_drawn_sorted(rest, answers);
        lemma_slot_splits(ranked, team, answers);
        assert forall|j: int| 0 <= j < ranked.len() implies rest.contains(#[trigger] ranked[j]) by {
            assert(ranked.contains(ranked[j]));
            vstd::seq_lib::to_multiset_contains(ranked, ranked[j]);
            vstd::seq_lib::to_multiset_contains(rest, ranked[j]);
        }
        assert forall|p: int, q: int| 0 <= p < q < now.len() implies behind(
            answers,
            #[trigger] now[q],
            #[trigger] now[p],
        ) by {
            if p == k {
                let other = ranked[q - 1];
                assert(now[q] == other);
                assert(rest.contains(ranked[k]));
                assert(rest.contains(other));
                assert(!behind(answers, team, ranked[k]));
                assert(behind(answers, ranked[k], team));
                if q - 1 > k {
                    assert(behind(answers, other, ranked[k]));
                }
            } else if q == k {
                assert(now[p] == ranked[p]);
            } else {
                let old_p = if p < k {
                    p
                } else {
                    p - 1
                };
                let old_q = if q < k {
                    q
                } else {
                    q - 1
                };
                assert(now[p] == ranked[old_p]);
                assert(now[q] == ranked[old_q]);
            }
        }
    }
}

/// Ranks that differ make a strict total order: where every team of
/// `teams` has a rank and no two of them have the same, being less by the
/// answers of the ranking is a strict total order on the teams, in which
/// the team with the greater rank is the lesser team.
pub proof fn lemma_ranks_strictly_order(ranking: &UefaRanking, teams: Seq<TeamId>)
    requires
        forall|t: TeamId| teams.contains(t) ==> ranking.has_rank(t),
        forall|a: TeamId, b: TeamId|
            teams.contains(a) && teams.contains(b) && a != b ==> ranking.rank_of(a)
                != ranking.rank_of(b),
    ensures
        strictly_orders(ranking.answers(), teams),
        forall|a: TeamId, b: TeamId|
            teams.contains(a) && teams.contains(b) ==> (behind(ranking.answers(), a, b)
                <==> ranking.rank_of(a) > ranking.rank_of(b)),
{
}

} // verus!
