use group_standings::fair_play::{FairPlay, FairPlayScore, FifaFairPlayValue, UefaFairPlayValue};
use group_standings::game::{GoalCount, GoalDiff, Score};
use group_standings::group::game::{GroupGameId, PlayedGroupGame, UnplayedGroupGame};
use group_standings::group::order::{
    numbers_of, score, split_by_stats, AllGroupStat, GroupOrder, GroupRank, InternalGroupStat,
    NonStrictGroupOrder, Rule, Scope, StatKind, SubOrdering,
};
use group_standings::group::stats::{internal_team_stats, team_stats, NumWins, UnaryStat};
use group_standings::group::{holds_team, Group, GroupError, GroupPoint};
use group_standings::team::TeamId;
use group_standings::Date;
use std::collections::{HashMap, HashSet};

fn game(id: u8, home: u8, away: u8, score: (u8, u8)) -> PlayedGroupGame {
    PlayedGroupGame::try_new(id, home, away, score, FairPlayScore::default(), Date::mock()).unwrap()
}

fn ids(numbers: &[u8]) -> Vec<TeamId> {
    numbers.iter().map(|n| TeamId(*n)).collect()
}

fn table(entries: &[(u8, i128)]) -> HashMap<u8, i128> {
    entries.iter().cloned().collect()
}

fn sample() -> Group {
    Group::try_new(
        vec![UnplayedGroupGame::try_new(9, 4, 0, Date::mock()).unwrap()],
        vec![
            game(0, 0, 1, (0, 2)),
            game(1, 2, 3, (1, 1)),
            game(2, 2, 3, (0, 1)),
            game(3, 1, 3, (4, 1)),
        ],
    )
    .unwrap()
}

#[test]
fn points_for_win_draw_and_defeat() {
    assert_eq!(GroupPoint::stat(&game(0, 0, 1, (2, 1))), (GroupPoint(3), GroupPoint(0)));
    assert_eq!(GroupPoint::stat(&game(0, 0, 1, (1, 2))), (GroupPoint(0), GroupPoint(3)));
    assert_eq!(GroupPoint::stat(&game(0, 0, 1, (2, 2))), (GroupPoint(1), GroupPoint(1)));
    assert_eq!(GroupPoint(3).amount(), 3);
}

#[test]
fn goal_difference_is_mirrored() {
    assert_eq!(GoalDiff::stat(&game(0, 0, 1, (3, 1))), (GoalDiff(2), GoalDiff(-2)));
    assert_eq!(GoalDiff::stat(&game(0, 0, 1, (0, 255))), (GoalDiff(-255), GoalDiff(255)));
    assert_eq!(GoalDiff::stat(&game(0, 0, 1, (4, 4))), (GoalDiff(0), GoalDiff(0)));
    assert_eq!(GoalCount(255).diff(GoalCount(0)), GoalDiff(255));
    assert_eq!(GoalDiff(-7).reversed(), GoalDiff(7));
    assert_eq!(GoalDiff(-7).amount(), -7);
}

#[test]
fn goals_scored_are_counted() {
    assert_eq!(GoalCount::stat(&game(0, 0, 1, (3, 1))), (GoalCount(3), GoalCount(1)));
    assert_eq!(GoalCount(200).amount(), 200);
    assert_eq!(Score::new(3, 1), Score { home: GoalCount(3), away: GoalCount(1) });
}

#[test]
fn wins_are_counted() {
    assert_eq!(NumWins::stat(&game(0, 0, 1, (3, 1))), (NumWins(1), NumWins(0)));
    assert_eq!(NumWins::stat(&game(0, 0, 1, (1, 3))), (NumWins(0), NumWins(1)));
    assert_eq!(NumWins::stat(&game(0, 0, 1, (1, 1))), (NumWins(0), NumWins(0)));
    assert_eq!(NumWins(1).amount(), 1);
}

#[test]
fn fair_play_weights() {
    let cards = FairPlay::new(1, 2, 3, 4);
    assert_eq!(cards.fifa_value(), FifaFairPlayValue(-39));
    assert_eq!(cards.uefa_value(), UefaFairPlayValue(-36));
    assert_eq!(FairPlay::new(1, 0, 0, 0).fifa_value(), FifaFairPlayValue(-1));
    assert_eq!(FairPlay::new(0, 1, 0, 0).fifa_value(), FifaFairPlayValue(-3));
    assert_eq!(FairPlay::new(0, 0, 1, 0).fifa_value(), FifaFairPlayValue(-4));
    assert_eq!(FairPlay::new(0, 0, 0, 1).fifa_value(), FifaFairPlayValue(-5));
    assert_eq!(FairPlay::new(0, 0, 1, 0).uefa_value(), UefaFairPlayValue(-3));
    assert_eq!(FairPlay::new(255, 255, 255, 255).fifa_value(), FifaFairPlayValue(-3315));
    assert_eq!(FairPlay::new(255, 255, 255, 255).uefa_value(), UefaFairPlayValue(-3060));
    assert_eq!(FairPlay::default(), FairPlay::new(0, 0, 0, 0));
    assert_eq!(FairPlayScore::default().home.fifa_value(), FifaFairPlayValue(0));
    let played = PlayedGroupGame::try_new(
        0,
        0,
        1,
        (0, 0),
        FairPlayScore::new(FairPlay::new(2, 0, 0, 0), FairPlay::new(0, 0, 1, 0)),
        Date::mock(),
    )
    .unwrap();
    assert_eq!(
        FifaFairPlayValue::stat(&played),
        (FifaFairPlayValue(-2), FifaFairPlayValue(-4))
    );
    assert_eq!(
        UefaFairPlayValue::stat(&played),
        (UefaFairPlayValue(-2), UefaFairPlayValue(-3))
    );
    assert_eq!(FifaFairPlayValue(-4).amount(), -4);
    assert_eq!(UefaFairPlayValue(-3).amount(), -3);
}

#[test]
fn zero_points() {
    assert_eq!(GroupPoint::zero(), GroupPoint(0));
    assert!(GroupPoint::zero().is_zero());
    assert!(!GroupPoint(1).is_zero());
}

#[test]
fn stats_over_all_games() {
    let group = sample();
    assert_eq!(
        team_stats::<GroupPoint>(&group),
        table(&[(0, 0), (1, 6), (2, 1), (3, 4), (4, 0)])
    );
    assert_eq!(
        team_stats::<GoalDiff>(&group),
        table(&[(0, -2), (1, 5), (2, -1), (3, -2), (4, 0)])
    );
    assert_eq!(
        team_stats::<GoalCount>(&group),
        table(&[(0, 0), (1, 6), (2, 1), (3, 3), (4, 0)])
    );
    assert_eq!(team_stats::<NumWins>(&group), table(&[(0, 0), (1, 2), (2, 0), (3, 1), (4, 0)]));
}

#[test]
fn stats_over_the_games_among_some_teams() {
    let group = sample();
    let among: HashSet<u8> = [1, 2, 3].into_iter().collect();
    assert_eq!(
        internal_team_stats::<GroupPoint>(&group, &among),
        table(&[(0, 0), (1, 3), (2, 1), (3, 4), (4, 0)])
    );
    assert_eq!(
        internal_team_stats::<GoalCount>(&group, &among),
        table(&[(0, 0), (1, 4), (2, 1), (3, 3), (4, 0)])
    );
    let nobody: HashSet<u8> = HashSet::new();
    assert_eq!(
        internal_team_stats::<GoalDiff>(&group, &nobody),
        table(&[(0, 0), (1, 0), (2, 0), (3, 0), (4, 0)])
    );
    let one: HashSet<u8> = [3].into_iter().collect();
    assert_eq!(
        internal_team_stats::<NumWins>(&group, &one),
        table(&[(0, 0), (1, 0), (2, 0), (3, 0), (4, 0)])
    );
}

#[test]
fn many_games_do_not_overflow() {
    let mut games = Vec::new();
    for id in 0..=255u8 {
        games.push(game(id, 0, 1, (255, 0)));
    }
    let group = Group::try_new(vec![], games).unwrap();
    assert_eq!(team_stats::<GroupPoint>(&group), table(&[(0, 768), (1, 0)]));
    assert_eq!(team_stats::<GoalDiff>(&group), table(&[(0, 65280), (1, -65280)]));
    assert_eq!(team_stats::<GoalCount>(&group), table(&[(0, 65280), (1, 0)]));
}

#[test]
fn teams_are_split_by_their_scores() {
    let group = sample();
    let stats = table(&[(0, 5), (1, 7), (2, 5), (3, -1), (4, 7)]);
    let split = split_by_stats(&group, &stats, ids(&[0, 1, 2, 3, 4]));
    // Of teams with the same score the later one comes first.
    assert_eq!(split, NonStrictGroupOrder(vec![ids(&[4, 1]), ids(&[2, 0]), ids(&[3])]));
    assert_eq!(
        split_by_stats(&group, &stats, ids(&[4, 3, 2, 1, 0])),
        NonStrictGroupOrder(vec![ids(&[1, 4]), ids(&[0, 2]), ids(&[3])])
    );
    assert_eq!(split_by_stats(&group, &stats, ids(&[3])), NonStrictGroupOrder(vec![ids(&[3])]));
    assert_eq!(split_by_stats(&group, &stats, vec![]), NonStrictGroupOrder(vec![]));
}

#[test]
fn team_without_a_score_counts_as_zero() {
    let group = sample();
    let stats = table(&[(0, 5), (1, -3)]);
    assert_eq!(score(&stats, TeamId(0)), 5);
    assert_eq!(score(&stats, TeamId(9)), 0);
    assert_eq!(
        split_by_stats(&group, &stats, ids(&[1, 9, 0])),
        NonStrictGroupOrder(vec![ids(&[0]), ids(&[9]), ids(&[1])])
    );
}

#[test]
fn rule_over_all_games() {
    let group = sample();
    let by_points = AllGroupStat::<GroupPoint>::new();
    assert_eq!(
        by_points.order(&group, ids(&[0, 2, 3, 4])),
        NonStrictGroupOrder(vec![ids(&[3]), ids(&[2]), ids(&[4, 0])])
    );
    assert_eq!(
        Rule::all(StatKind::GroupPoint).order(&group, ids(&[0, 2, 3, 4])),
        NonStrictGroupOrder(vec![ids(&[3]), ids(&[2]), ids(&[4, 0])])
    );
    assert_eq!(
        Rule::all(StatKind::GoalCount).order(&group, ids(&[1, 3])),
        NonStrictGroupOrder(vec![ids(&[1]), ids(&[3])])
    );
    assert_eq!(
        Rule::all(StatKind::NumWins).order(&group, ids(&[3, 2, 1])),
        NonStrictGroupOrder(vec![ids(&[1]), ids(&[3]), ids(&[2])])
    );
    assert_eq!(
        Rule::all(StatKind::GoalDiff),
        Rule { kind: StatKind::GoalDiff, scope: Scope::AllGames }
    );
}

#[test]
fn rule_over_the_games_among_the_tied_teams() {
    let group = sample();
    // Over all games 1 has more points than 3. Between 2 and 3 alone, 3 has
    // 4 points and 2 has 1.
    let by_points = InternalGroupStat::<GroupPoint>::new();
    assert_eq!(
        by_points.order(&group, ids(&[2, 3])),
        NonStrictGroupOrder(vec![ids(&[3]), ids(&[2])])
    );
    // 0 and 3 have not met.
    assert_eq!(by_points.order(&group, ids(&[0, 3])), NonStrictGroupOrder(vec![ids(&[3, 0])]));
    assert_eq!(
        Rule::internal(StatKind::GoalDiff).order(&group, ids(&[1, 3])),
        NonStrictGroupOrder(vec![ids(&[1]), ids(&[3])])
    );
    assert_eq!(
        Rule::internal(StatKind::UefaFairPlay),
        Rule { kind: StatKind::UefaFairPlay, scope: Scope::InternalGames }
    );
}

#[test]
fn numbers_of_teams() {
    let numbers = numbers_of(&ids(&[3, 3, 9]));
    let expected: HashSet<u8> = [3, 9].into_iter().collect();
    assert_eq!(numbers, expected);
}

#[test]
fn group_lists_its_teams_in_order_of_appearance() {
    let group = sample();
    assert_eq!(group.team_ids(), &ids(&[0, 1, 2, 3, 4]));
    assert_eq!(group.played_games().len(), 4);
    assert_eq!(group.upcoming_games().len(), 1);
    assert_eq!(group.upcoming_games()[0].id, GroupGameId(9));
    let other = Group::try_new(vec![], vec![game(0, 5, 2, (0, 0)), game(1, 2, 7, (0, 0))]).unwrap();
    assert_eq!(other.team_ids(), &ids(&[5, 2, 7]));
    assert!(holds_team(other.team_ids(), TeamId(7)));
    assert!(!holds_team(other.team_ids(), TeamId(0)));
}

#[test]
fn group_refuses_games_with_the_same_identifier() {
    let twice = Group::try_new(vec![], vec![game(3, 0, 1, (0, 0)), game(3, 2, 1, (0, 0))]);
    assert_eq!(twice.err(), Some(GroupError::GameIdsNotUnique));
    let across = Group::try_new(
        vec![UnplayedGroupGame::try_new(3, 0, 2, Date::mock()).unwrap()],
        vec![game(3, 0, 1, (0, 0))],
    );
    assert_eq!(across.err(), Some(GroupError::GameIdsNotUnique));
}

#[test]
fn game_needs_two_teams() {
    let played = PlayedGroupGame::try_new(0, 4, 4, (0, 0), FairPlayScore::default(), Date::mock());
    assert_eq!(played, Err(GroupError::GameTeamsNotUnique));
    let unplayed = UnplayedGroupGame::try_new(0, 4, 4, Date::mock());
    assert_eq!(unplayed, Err(GroupError::GameTeamsNotUnique));
    let fine = PlayedGroupGame::try_new(7, 4, 5, (2, 1), FairPlayScore::default(), Date::mock())
        .unwrap();
    assert_eq!(fine.id, GroupGameId(7));
    assert_eq!(fine.home, TeamId(4));
    assert_eq!(fine.away, TeamId(5));
    assert_eq!(fine.score, Score::new(2, 1));
    assert_eq!(fine.date, Date::mock());
}

#[test]
fn order_with_ties_is_not_strict() {
    let tied = NonStrictGroupOrder(vec![ids(&[1]), ids(&[2, 3])]);
    assert!(!tied.is_strict());
    assert_eq!(GroupOrder::try_from(tied), Err(GroupError::NonStrictOrder));
    let hole = NonStrictGroupOrder(vec![ids(&[1]), vec![]]);
    assert!(!hole.is_strict());
    assert_eq!(GroupOrder::try_from(hole), Err(GroupError::NonStrictOrder));
    let strict = NonStrictGroupOrder(vec![ids(&[1]), ids(&[3]), ids(&[2])]);
    assert!(strict.is_strict());
    assert_eq!(GroupOrder::try_from(strict), Ok(GroupOrder(ids(&[1, 3, 2]))));
    assert!(NonStrictGroupOrder::empty().is_strict());
}

#[test]
fn orders_are_built_subset_by_subset() {
    let order = NonStrictGroupOrder::empty().extend_sub_order(TeamId(4));
    assert_eq!(order, NonStrictGroupOrder(vec![ids(&[4])]));
    let order = order.extend_sub_order(TeamId(5)).add_sub_order(TeamId(6));
    let order = order.extend_sub_order(TeamId(7));
    assert_eq!(order, NonStrictGroupOrder(vec![ids(&[4, 5]), ids(&[6, 7])]));
    let both = NonStrictGroupOrder::single(ids(&[1, 2])).extend(order);
    assert_eq!(both, NonStrictGroupOrder(vec![ids(&[1, 2]), ids(&[4, 5]), ids(&[6, 7])]));
    assert_eq!(both.iter().len(), 3);
    assert_eq!(both.iter().next(), Some(&ids(&[1, 2])));
    let subsets: Vec<Vec<TeamId>> = both.into_iter().collect();
    assert_eq!(subsets, vec![ids(&[1, 2]), ids(&[4, 5]), ids(&[6, 7])]);
    assert_eq!(
        NonStrictGroupOrder::init(&sample()),
        NonStrictGroupOrder(vec![ids(&[0, 1, 2, 3, 4])])
    );
}

#[test]
fn strict_order_is_read_by_rank() {
    let order = GroupOrder(ids(&[8, 3, 5]));
    assert_eq!(order.winner(), TeamId(8));
    assert_eq!(order.runner_up(), TeamId(3));
    assert_eq!(order[GroupRank(2)], TeamId(5));
    assert_eq!(order.len(), 3);
    let seen: Vec<TeamId> = order.iter().cloned().collect();
    assert_eq!(seen, ids(&[8, 3, 5]));
    let mut ranks = Vec::new();
    for team in order {
        ranks.push(team.0);
    }
    assert_eq!(ranks, vec![8, 3, 5]);
}
