//! Splitting tied teams by their scores: that no team is lost, and that the
//! subsets go by the scores.
use crate::group::laws::ranking::{lemma_drawn_permutes, lemma_slot_splits};
use crate::group::order::{blocks, by_score, regroups, score_in, scores_of, split_by, totals};
use crate::group::stats::{lemma_total_of_stranger, total, UnaryStat};
use crate::group::tiebreak::{behind, drawn, slot};
use crate::group::Group;
use crate::team::TeamId;
use vstd::prelude::*;

verus! {

/// The subsets of a ranking are never empty, and there is one as soon as
/// there is a team.
pub proof fn lemma_blocks_nonempty(ranked: Seq<TeamId>, scores: Map<TeamId, int>)
    ensures
        ranked.len() > 0 ==> blocks(ranked, scores).len() > 0,
        forall|i: int|
            0 <= i < blocks(ranked, scores).len() ==> (#[trigger] blocks(ranked, scores)[i]).len()
                > 0,
    decreases ranked.len(),
{
    if ranked.len() > 0 {
        let before = blocks(ranked.drop_last(), scores);
        let now = blocks(ranked, scores);
        lemma_blocks_nonempty(ranked.drop_last(), scores);
        assert forall|i: int| 0 <= i < now.len() implies (#[trigger] now[i]).len() > 0 by {
            if i < now.len() - 1 {
                assert(now[i] == before[i]);
            }
        }
    }
}

/// Putting neighbours together changes neither the teams nor where they
/// stand.
pub proof fn lemma_blocks_flatten(ranked: Seq<TeamId>, scores: Map<TeamId, int>)
    ensures
        blocks(ranked, scores).flatten() == ranked,
    decreases ranked.len(),
{
    if ranked.len() > 0 {
        let rest = ranked.drop_last();
        let before = blocks(rest, scores);
        let team = ranked.last();
        lemma_blocks_flatten(rest, scores);
        lemma_blocks_nonempty(rest, scores);
        if ranked.len() >= 2 && scores[ranked[ranked.len() - 2]] == scores[team] {
            let head = before.drop_last();
            assert(head.push(before.last()) == before);
            head.lemma_flatten_push(before.last());
            head.lemma_flatten_push(before.last().push(team));
            assert(head.flatten() + before.last().push(team) == (head.flatten() + before.last()).push(
                team,
            ));
        } else {
            before.lemma_flatten_push(seq![team]);
            assert(rest + seq![team] == rest.push(team));
        }
        assert(rest.push(team) == ranked);
    }
}

/// Splitting by scores neither loses nor invents a team, and makes no empty
/// subset.
pub proof fn lemma_split_by_regroups(tied: Seq<TeamId>, scores: Map<TeamId, int>)
    ensures
        regroups(split_by(tied, scores), tied),
{
    let ranked = drawn(tied, by_score(scores));
    lemma_drawn_permutes(tied, by_score(scores));
    lemma_blocks_flatten(ranked, scores);
    lemma_blocks_nonempty(ranked, scores);
}

/// Whether no team of `ranked` has less in `scores` than a team behind it.
pub open spec fn descending(ranked: Seq<TeamId>, scores: Map<TeamId, int>) -> bool {
    forall|p: int, q: int|
        0 <= p < q < ranked.len() ==> scores[#[trigger] ranked[p]] >= scores[#[trigger] ranked[q]]
}

/// Teams that are ranked by their scores stand from the greatest score to
/// the least.
pub proof fn lemma_drawn_descending(tied: Seq<TeamId>, scores: Map<TeamId, int>)
    ensures
        descending(drawn(tied, by_score(scores)), scores),
    decreases tied.len(),
{
    if tied.len() > 0 {
        let answers = by_score(scores);
        let ranked = drawn(tied.drop_last(), answers);
        let team = tied.last();
        let k = slot(ranked, team, answers);
        let now = ranked.insert(k, team);
        lemma_drawn_descending(tied.drop_last(), scores);
        lemma_slot_splits(ranked, team, answers);
        assert forall|p: int, q: int| 0 <= p < q < now.len() implies scores[#[trigger] now[p]]
            >= scores[#[trigger] now[q]] by {
            if p == k {
                assert(now[q] == ranked[q - 1]);
                assert(!behind(answers, team, ranked[k]));
                if q - 1 > k {
                    assert(scores[ranked[k]] >= scores[ranked[q - 1]]);
                }
            } else if q == k {
                assert(now[p] == ranked[p]);
                assert(behind(answers, team, ranked[p]));
            } else {
                let old_p = if p < k {
                    p
                } else {
                    p - 1
                };
                let old_q = if q < k {
                    q
                } else {
                    q - 1
                };
                assert(now[p] == ranked[old_p]);
                assert(now[q] == ranked[old_q]);
            }
        }
    }
}

/// Whether `first` stands somewhere before `second` in `ranked`.
pub open spec fn precedes(ranked: Seq<TeamId>, first: TeamId, second: TeamId) -> bool {
    exists|p: int, q: int|
        0 <= p < q < ranked.len() && #[trigger] ranked[p] == first && #[trigger] ranked[q]
            == second
}

/// Of two teams with the same score, the one that stood later among the
/// tied teams is ranked first.
pub proof fn lemma_drawn_later_first(tied: Seq<TeamId>, scores: Map<TeamId, int>, a: int, b: int)
    requires
        0 <= a < b < tied.len(),
        scores[tied[a]] == scores[tied[b]],
    ensures
        precedes(drawn(tied, by_score(scores)), tied[b], tied[a]),
    decreases tied.len(),
{
    let answers = by_score(scores);
    let rest = tied.drop_last();
    let ranked = drawn(rest, answers);
    let team = tied.last();
    let k = slot(ranked, team, answers);
    let now = ranked.insert(k, team);
    lemma_slot_splits(ranked, team, answers);
    if b == tied.len() - 1 {
        lemma_drawn_permutes(rest, answers);
        assert(rest.contains(tied[a])) by {
            assert(rest[a] == tied[a]);
        }
        vstd::seq_lib::to_multiset_contains(rest, tied[a]);
        vstd::seq_lib::to_multiset_contains(ranked, tied[a]);
        let j = choose|j: int| 0 <= j < ranked.len() && ranked[j] == tied[a];
        if j < k {
            assert(behind(answers, team, ranked[j]));
        }
        assert(now[k] == team);
        assert(now[j + 1] == ranked[j]);
    } else {
        assert(rest[a] == tied[a]);
        assert(rest[b] == tied[b]);
        lemma_drawn_later_first(rest, scores, a, b);
        let (p, q) = choose|p: int, q: int|
            0 <= p < q < ranked.len() && #[trigger] ranked[p] == tied[b] && #[trigger] ranked[q]
                == tied[a];
        let new_p = if p < k {
            p
        } else {
            p + 1
        };
        let new_q = if q < k {
            q
        } else {
            q + 1
        };
        assert(now[new_p] == ranked[p]);
        assert(now[new_q] == ranked[q]);
    }
}

/// Whether all teams of `subset` have the same in `scores`.
pub open spec fn level(subset: Seq<TeamId>, scores: Map<TeamId, int>) -> bool {
    forall|a: int, b: int|
        0 <= a < subset.len() && 0 <= b < subset.len() ==> scores[#[trigger] subset[a]]
            == scores[#[trigger] subset[b]]
}

/// Whether every team of `better` has more in `scores` than every team of
/// `worse`.
pub open spec fn above(better: Seq<TeamId>, worse: Seq<TeamId>, scores: Map<TeamId, int>) -> bool {
    forall|a: int, b: int|
        0 <= a < better.len() && 0 <= b < worse.len() ==> scores[#[trigger] better[a]]
            > scores[#[trigger] worse[b]]
}

/// Whether the subsets of `parts` go by `scores`: the teams of a subset
/// have the same score, and the teams of a subset have more than those of
/// every subset behind it.
pub open spec fn graded(parts: Seq<Seq<TeamId>>, scores: Map<TeamId, int>) -> bool {
    &&& forall|i: int| 0 <= i < parts.len() ==> level(#[trigger] parts[i], scores)
    &&& forall|i: int, j: int|
        0 <= i < j < parts.len() ==> above(#[trigger] parts[i], #[trigger] parts[j], scores)
}

/// The subsets that a ranking from the greatest score to the least is put
/// into go by the scores. The last team of the last subset is the last
/// team of the ranking, and every team of a subset is one of the ranking.
pub proof fn lemma_blocks_graded(ranked: Seq<TeamId>, scores: Map<TeamId, int>)
    requires
        descending(ranked, scores),
    ensures
        graded(blocks(ranked, scores), scores),
        ranked.len() > 0 ==> blocks(ranked, scores).len() > 0 && blocks(
            ranked,
            scores,
        ).last().len() > 0 && blocks(ranked, scores).last().last() == ranked.last(),
        forall|i: int, a: int|
            0 <= i < blocks(ranked, scores).len() && 0 <= a < blocks(ranked, scores)[i].len()
                ==> ranked.contains(#[trigger] blocks(ranked, scores)[i][a]),
    decreases ranked.len(),
{
    if ranked.len() > 0 {
        let rest = ranked.drop_last();
        let before = blocks(rest, scores);
        let team = ranked.last();
        let now = blocks(ranked, scores);
        assert(descending(rest, scores)) by {
            assert forall|p: int, q: int| 0 <= p < q < rest.len() implies scores[#[trigger] rest[p]]
                >= scores[#[trigger] rest[q]] by {
                assert(rest[p] == ranked[p]);
                assert(rest[q] == ranked[q]);
            }
        }
        lemma_blocks_graded(rest, scores);
        lemma_blocks_nonempty(rest, scores);
        let merges = ranked.len() >= 2 && scores[ranked[ranked.len() - 2]] == scores[team];
        if ranked.len() >= 2 {
            assert(rest.last() == ranked[ranked.len() - 2]);
        }
        let n = now.len() - 1;
        assert forall|i: int, a: int| 0 <= i < now.len() && 0 <= a < now[i].len() implies (
        ranked.contains(#[trigger] now[i][a]) && (now[i][a] == team || (0 <= i < before.len() && 0
            <= a < before[i].len() && before[i][a] == now[i][a]))) by {
            if i == n && a == now[i].len() - 1 {
                assert(now[i][a] == team);
                assert(ranked[ranked.len() - 1] == team);
            } else {
                assert(before[i][a] == now[i][a]);
                assert(rest.contains(before[i][a]));
                let p = choose|p: int| 0 <= p < rest.len() && rest[p] == before[i][a];
                assert(ranked[p] == now[i][a]);
            }
        }
        // Every team of the ranking before the last has at least as much
        // as the last team before it, and that one at least as much as the
        // new team.
        assert forall|i: int, a: int|
            0 <= i < before.len() && 0 <= a < before[i].len() implies scores[#[trigger] before[i][a]]
            >= scores[team] by {
            assert(rest.contains(before[i][a]));
            let p = choose|p: int| 0 <= p < rest.len() && rest[p] == before[i][a];
            assert(ranked[p] == before[i][a]);
            assert(ranked[ranked.len() - 1] == team);
        }
        assert forall|i: int| 0 <= i < now.len() implies level(#[trigger] now[i], scores) by {
            if i < n {
                assert(now[i] == before[i]);
            } else if merges {
                let last = before.last();
                assert(level(last, scores));
                assert forall|a: int, b: int|
                    0 <= a < now[i].len() && 0 <= b < now[i].len() implies scores[#[trigger] now[i][a]]
                    == scores[#[trigger] now[i][b]] by {
                    let sa = if a < last.len() {
                        last[a]
                    } else {
                        last[last.len() - 1]
                    };
                    let sb = if b < last.len() {
                        last[b]
                    } else {
                        last[last.len() - 1]
                    };
                    assert(scores[now[i][a]] == scores[sa]);
                    assert(scores[now[i][b]] == scores[sb]);
                    assert(scores[last[0]] == scores[sa]);
                    assert(scores[last[0]] == scores[sb]);
                }
            }
        }
        assert forall|i: int, j: int| 0 <= i < j < now.len() implies above(
            #[trigger] now[i],
            #[trigger] now[j],
            scores,
        ) by {
            assert(now[i] == before[i]);
            if j < n {
                assert(now[j] == before[j]);
            } else if merges {
                let last = before.last();
                assert(above(before[i], last, scores));
                assert(level(last, scores));
                assert forall|a: int, b: int|
                    0 <= a < now[i].len() && 0 <= b < now[j].len() implies scores[#[trigger] now[i][a]]
                    > scores[#[trigger] now[j][b]] by {
                    assert(scores[before[i][a]] > scores[last[last.len() - 1]]);
                    if b < last.len() {
                        assert(now[j][b] == last[b]);
                        assert(scores[before[i][a]] > scores[last[b]]);
                    }
                }
            } else {
                assert forall|a: int, b: int|
                    0 <= a < now[i].len() && 0 <= b < now[j].len() implies scores[#[trigger] now[i][a]]
                    > scores[#[trigger] now[j][b]] by {
                    assert(now[j][b] == team);
                    assert(scores[before[i][a]] >= scores[team]);
                    // The last team of the ranking before has more than the
                    // new team: it has not the same, and not less.
                    assert(rest.contains(before[i][a]));
                    let p = choose|p: int| 0 <= p < rest.len() && rest[p] == before[i][a];
                    assert(ranked[p] == before[i][a]);
                    assert(ranked[ranked.len() - 2] == rest.last());
                    if p < ranked.len() - 2 {
                        assert(scores[ranked[p]] >= scores[ranked[ranked.len() - 2]]);
                    }
                    assert(scores[ranked[ranked.len() - 2]] >= scores[ranked[ranked.len() - 1]]);
                }
            }
        }
    }
}

/// What a rule does, said directly: the subsets that tied teams are split
/// into hold the same teams, none is empty, the teams of a subset have the
/// same score, and the teams of a subset have more than those of every
/// subset behind it.
pub proof fn lemma_split_by_graded(tied: Seq<TeamId>, scores: Map<TeamId, int>)
    ensures
        regroups(split_by(tied, scores), tied),
        graded(split_by(tied, scores), scores),
{
    lemma_split_by_regroups(tied, scores);
    lemma_drawn_descending(tied, scores);
    lemma_blocks_graded(drawn(tied, by_score(scores)), scores);
}

/// A table that holds for every team of a group what it has of a statistic
/// gives every team what it has of the statistic: a team that is not in the
/// group took part in no game, and has nothing.
pub proof fn lemma_stats_are_totals<T: UnaryStat>(
    group: &Group,
    stats: Map<u8, i128>,
    among: Set<TeamId>,
)
    requires
        group.wf(),
        forall|k: u8| stats.contains_key(k) <==> group.has_team(TeamId(k)),
        forall|k: u8| #[trigger]
            stats.contains_key(k) ==> stats[k] == total::<T>(group.played(), among, TeamId(k)),
    ensures
        scores_of(stats) == totals::<T>(group, among),
{
    assert forall|t: TeamId| score_in(stats, t) == total::<T>(group.played(), among, t) by {
        assert(TeamId(t.0) == t);
        if !stats.contains_key(t.0) {
            assert(!group.has_team(t));
            assert forall|i: int| 0 <= i < group.played().len() implies group.played()[i].home
                != t && group.played()[i].away != t by {
                assert(group.teams().contains(group.played()[i].home));
                assert(group.teams().contains(group.played()[i].away));
            }
            lemma_total_of_stranger::<T>(group.played(), among, t);
        }
    }
    assert(scores_of(stats) =~= totals::<T>(group, among));
}

} // verus!
