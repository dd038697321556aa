use group_standings::fair_play::{FairPlay, FairPlayScore};
use group_standings::group::game::PlayedGroupGame;
use group_standings::group::order::{
    checked_order_group, euro_2020, fifa_2018, fifa_2018_with, non_strict_ordering, order_group,
    GroupOrder, Lots, Manual, NonStrictGroupOrder, Rule, Rules, StatKind, Tiebreaker, UefaRanking,
};
use group_standings::group::tiebreak::{lot_outcome, Outcome};
use group_standings::group::{Group, GroupError};
use group_standings::team::{TeamId, TeamRank};
use group_standings::Date;
use std::cell::Cell;
use std::cmp::Ordering;
use std::collections::HashMap;

fn game(id: u8, home: u8, away: u8, score: (u8, u8)) -> PlayedGroupGame {
    PlayedGroupGame::try_new(id, home, away, score, FairPlayScore::default(), Date::mock()).unwrap()
}

fn ids(numbers: &[u8]) -> Vec<TeamId> {
    numbers.iter().map(|n| TeamId(*n)).collect()
}

/// Two teams that nothing but the tiebreaker can tell apart.
fn level_pair() -> Group {
    Group::try_new(vec![], vec![game(0, 0, 1, (0, 0))]).unwrap()
}

/// Lots that always come out the same.
struct SameLot(bool);

impl Lots for SameLot {
    fn draw(&self) -> bool {
        self.0
    }
}

/// Lots that come out as written down, and count how many were drawn.
struct WrittenLots {
    lots: Vec<bool>,
    drawn: Cell<usize>,
}

impl Lots for WrittenLots {
    fn draw(&self) -> bool {
        let at = self.drawn.get();
        self.drawn.set(at + 1);
        self.lots[at % self.lots.len()]
    }
}

#[test]
fn pure_points_decide() {
    // A 0-2 B, C 1-1 D, C 0-1 D: points A 0, B 3, C 1, D 4.
    let group = Group::try_new(
        vec![],
        vec![game(0, 0, 1, (0, 2)), game(1, 2, 3, (1, 1)), game(2, 2, 3, (0, 1))],
    )
    .unwrap();
    let order = order_group(&group, &fifa_2018());
    assert_eq!(order, GroupOrder(ids(&[3, 1, 2, 0])));
    assert_eq!(order.winner(), TeamId(3));
    assert_eq!(order.runner_up(), TeamId(1));
}

#[test]
fn head_to_head_decides() {
    // A and B are level on points, goal difference and goals scored over
    // all games. A has beaten B.
    let group = Group::try_new(
        vec![],
        vec![
            game(0, 0, 1, (1, 0)),
            game(1, 2, 0, (2, 1)),
            game(2, 1, 3, (2, 1)),
        ],
    )
    .unwrap();
    let all_games_only = Rules {
        non_strict: vec![
            Rule::all(StatKind::GroupPoint),
            Rule::all(StatKind::GoalDiff),
            Rule::all(StatKind::GoalCount),
        ],
        tiebreaker: Manual::new(vec![]),
    };
    let tied = non_strict_ordering(
        &group,
        all_games_only.non_strict.as_slice(),
        NonStrictGroupOrder::init(&group),
    );
    assert_eq!(tied.0.len(), 3);
    assert_eq!(tied.0[0], ids(&[2]));
    assert_eq!(tied.0[1].len(), 2);
    assert_eq!(tied.0[2], ids(&[3]));
    let order = order_group(&group, &fifa_2018());
    assert_eq!(order, GroupOrder(ids(&[2, 0, 1, 3])));
}

#[test]
fn ranking_with_a_missing_team_is_refused() {
    let group = Group::try_new(vec![], vec![game(0, 0, 1, (0, 0)), game(1, 2, 1, (0, 0))]).unwrap();
    let mut ranks = HashMap::new();
    ranks.insert(0, TeamRank(3));
    ranks.insert(1, TeamRank(1));
    let groups = vec![group];
    match UefaRanking::try_new(&groups, ranks.clone()) {
        Err(e) => assert_eq!(e, GroupError::GenericError),
        Ok(_) => panic!("a team without a rank was accepted"),
    }
    ranks.insert(2, TeamRank(2));
    assert!(UefaRanking::try_new(&groups, ranks).is_ok());
}

#[test]
fn manual_gap_is_found_before_ordering() {
    let group = level_pair();
    let without = Rules { non_strict: fifa_2018().non_strict, tiebreaker: Manual::new(vec![]) };
    assert!(!without.tiebreaker.decides(TeamId(0), TeamId(1)));
    assert!(!without.tiebreaker.decides_all(&ids(&[0, 1])));
    assert!(checked_order_group(&group, &without).is_none());
    let one_way = Rules {
        non_strict: fifa_2018().non_strict,
        tiebreaker: Manual::new(vec![(TeamId(0), TeamId(1), Outcome::Greater)]),
    };
    assert!(one_way.tiebreaker.decides(TeamId(0), TeamId(1)));
    assert!(!one_way.tiebreaker.decides(TeamId(1), TeamId(0)));
    assert!(checked_order_group(&group, &one_way).is_none());
}

#[test]
fn manual_gap_does_not_matter_where_nothing_is_tied() {
    let group = Group::try_new(vec![], vec![game(0, 0, 1, (0, 2))]).unwrap();
    let rules = Rules { non_strict: fifa_2018().non_strict, tiebreaker: Manual::new(vec![]) };
    assert_eq!(checked_order_group(&group, &rules), Some(GroupOrder(ids(&[1, 0]))));
    assert_eq!(order_group(&group, &rules), GroupOrder(ids(&[1, 0])));
}

#[test]
fn manual_answers_decide() {
    let group = level_pair();
    let first_wins = Rules {
        non_strict: fifa_2018().non_strict,
        tiebreaker: Manual::new(vec![
            (TeamId(0), TeamId(1), Outcome::Greater),
            (TeamId(1), TeamId(0), Outcome::Less),
        ]),
    };
    assert_eq!(order_group(&group, &first_wins), GroupOrder(ids(&[0, 1])));
    let second_wins = Rules {
        non_strict: fifa_2018().non_strict,
        tiebreaker: Manual::new(vec![
            (TeamId(0), TeamId(1), Outcome::Less),
            (TeamId(1), TeamId(0), Outcome::Greater),
        ]),
    };
    assert_eq!(order_group(&group, &second_wins), GroupOrder(ids(&[1, 0])));
}

#[test]
fn manual_later_entry_counts() {
    let manual = Manual::new(vec![
        (TeamId(4), TeamId(9), Outcome::Less),
        (TeamId(4), TeamId(9), Outcome::Greater),
        (TeamId(9), TeamId(4), Outcome::Equal),
    ]);
    assert_eq!(manual.cmp(TeamId(4), TeamId(9)), Ordering::Greater);
    assert_eq!(manual.cmp(TeamId(9), TeamId(4)), Ordering::Equal);
    assert!(!manual.decides(TeamId(4), TeamId(4)));
}

#[test]
fn outcomes_stand_for_orderings() {
    for ordering in [Ordering::Less, Ordering::Equal, Ordering::Greater] {
        assert_eq!(Outcome::of(ordering).ordering(), ordering);
    }
    assert_eq!(Outcome::of(Ordering::Less), Outcome::Less);
    assert_eq!(Outcome::of(Ordering::Equal), Outcome::Equal);
    assert_eq!(Outcome::of(Ordering::Greater), Outcome::Greater);
    assert_eq!(lot_outcome(true), Outcome::Less);
    assert_eq!(lot_outcome(false), Outcome::Greater);
}

#[test]
fn manual_keeps_pairs_apart() {
    // 1 * 256 + 0 and 0 * 256 + 256 would be the same number.
    let manual = Manual::new(vec![(TeamId(1), TeamId(0), Outcome::Less)]);
    assert!(manual.decides(TeamId(1), TeamId(0)));
    assert!(!manual.decides(TeamId(0), TeamId(1)));
    assert!(!manual.decides(TeamId(0), TeamId(255)));
    assert!(!manual.decides(TeamId(255), TeamId(1)));
}

#[test]
fn lots_decide_and_can_be_supplied() {
    let group = level_pair();
    let lost = order_group(&group, &fifa_2018_with(SameLot(true)));
    let won = order_group(&group, &fifa_2018_with(SameLot(false)));
    assert_eq!(lost, GroupOrder(ids(&[1, 0])));
    assert_eq!(won, GroupOrder(ids(&[0, 1])));
}

#[test]
fn lots_are_drawn_only_for_tied_teams() {
    let decided = Group::try_new(vec![], vec![game(0, 0, 1, (3, 1))]).unwrap();
    let rules = fifa_2018_with(WrittenLots { lots: vec![true, false], drawn: Cell::new(0) });
    assert_eq!(order_group(&decided, &rules), GroupOrder(ids(&[0, 1])));
    assert_eq!(rules.tiebreaker.lots.drawn.get(), 0);
    assert_eq!(order_group(&level_pair(), &rules).0.len(), 2);
    assert_eq!(rules.tiebreaker.lots.drawn.get(), 1);
}

#[test]
fn thread_lots_give_some_order() {
    let group = Group::try_new(
        vec![],
        vec![game(0, 0, 1, (0, 0)), game(1, 2, 3, (0, 0)), game(2, 4, 5, (0, 0))],
    )
    .unwrap();
    for _ in 0..20 {
        let mut order = order_group(&group, &fifa_2018()).0;
        assert_eq!(order.len(), 6);
        order.sort_by_key(|t| t.0);
        assert_eq!(order, ids(&[0, 1, 2, 3, 4, 5]));
    }
}

#[test]
fn random_never_calls_teams_equal() {
    let rules = fifa_2018_with(WrittenLots { lots: vec![true, false, false], drawn: Cell::new(0) });
    assert_eq!(rules.tiebreaker.cmp(TeamId(0), TeamId(1)), Ordering::Less);
    assert_eq!(rules.tiebreaker.cmp(TeamId(0), TeamId(1)), Ordering::Greater);
    assert_eq!(rules.tiebreaker.cmp(TeamId(1), TeamId(1)), Ordering::Greater);
    assert!(rules.tiebreaker.decides(TeamId(7), TeamId(7)));
}

#[test]
fn euro_2020_falls_back_on_the_ranking() {
    let group = level_pair();
    let mut ranks = HashMap::new();
    ranks.insert(0, TeamRank(5));
    ranks.insert(1, TeamRank(2));
    let groups = vec![group];
    let ranking = UefaRanking::try_new(&groups, ranks).unwrap();
    assert_eq!(ranking.cmp(TeamId(1), TeamId(0)), Ordering::Greater);
    assert_eq!(ranking.cmp(TeamId(0), TeamId(1)), Ordering::Less);
    assert_eq!(ranking.cmp(TeamId(0), TeamId(0)), Ordering::Equal);
    assert!(!ranking.decides(TeamId(0), TeamId(2)));
    let rules = euro_2020(ranking);
    assert_eq!(order_group(&groups[0], &rules), GroupOrder(ids(&[1, 0])));
}

#[test]
fn euro_2020_looks_at_the_direct_games_before_the_goal_difference() {
    // 0, 1 and 3 have 3 points each, 2 has none. In the games among the
    // three, 0 has beaten 1 and 3 has beaten 0, and 1 and 3 have not met.
    // Over all games 1 has by far the best goal difference.
    let group = Group::try_new(
        vec![],
        vec![game(0, 0, 1, (1, 0)), game(1, 1, 2, (5, 0)), game(2, 3, 0, (1, 0))],
    )
    .unwrap();
    let mut ranks = HashMap::new();
    for n in 0..4 {
        ranks.insert(n, TeamRank(n));
    }
    let groups = vec![group];
    let euro = euro_2020(UefaRanking::try_new(&groups, ranks).unwrap());
    // Points among the three: 0 and 3 have 3, 1 has none. Between 0 and 3
    // the game that 3 has won decides.
    assert_eq!(order_group(&groups[0], &euro), GroupOrder(ids(&[3, 0, 1, 2])));
    // Under the rules of 2018 the goal difference over all games comes
    // first: 1 has +4, 3 has +1 and 0 has 0.
    assert_eq!(order_group(&groups[0], &fifa_2018()), GroupOrder(ids(&[1, 3, 0, 2])));
}

#[test]
fn fair_play_decides_last() {
    let cards = FairPlayScore::new(FairPlay::new(0, 0, 0, 0), FairPlay::new(0, 0, 1, 0));
    let played = PlayedGroupGame::try_new(0, 0, 1, (2, 2), cards, Date::mock()).unwrap();
    let group = Group::try_new(vec![], vec![played]).unwrap();
    assert_eq!(order_group(&group, &fifa_2018()), GroupOrder(ids(&[0, 1])));
}

#[test]
fn empty_group_has_empty_order() {
    let group = Group::try_new(vec![], vec![]).unwrap();
    assert_eq!(order_group(&group, &fifa_2018()), GroupOrder(vec![]));
    assert_eq!(NonStrictGroupOrder::init(&group), NonStrictGroupOrder(vec![]));
}

#[test]
fn same_input_same_order() {
    let group = Group::try_new(
        vec![],
        vec![game(0, 0, 1, (1, 1)), game(1, 2, 3, (1, 1)), game(2, 0, 2, (0, 0))],
    )
    .unwrap();
    let mut entries = Vec::new();
    for a in 0..4u8 {
        for b in 0..4u8 {
            if a != b {
                let outcome = if a < b { Outcome::Greater } else { Outcome::Less };
                entries.push((TeamId(a), TeamId(b), outcome));
            }
        }
    }
    let rules = Rules { non_strict: fifa_2018().non_strict, tiebreaker: Manual::new(entries) };
    let first = order_group(&group, &rules);
    for _ in 0..10 {
        assert_eq!(order_group(&group, &rules), first);
    }
    assert_eq!(first, GroupOrder(ids(&[0, 2, 1, 3])));
}

#[test]
fn every_team_is_ordered_once() {
    let group = Group::try_new(
        vec![],
        vec![
            game(0, 7, 3, (1, 1)),
            game(1, 9, 3, (1, 1)),
            game(2, 7, 9, (0, 0)),
            game(3, 200, 7, (4, 0)),
        ],
    )
    .unwrap();
    assert_eq!(group.team_ids(), &ids(&[7, 3, 9, 200]));
    let mut order = order_group(&group, &fifa_2018_with(SameLot(true))).0;
    assert_eq!(order.len(), 4);
    assert_eq!(order[0], TeamId(200));
    order.sort_by_key(|t| t.0);
    assert_eq!(order, ids(&[3, 7, 9, 200]));
}

#[test]
fn tiebreaker_leaves_a_strict_order_alone() {
    let strict = || NonStrictGroupOrder(vec![ids(&[5]), ids(&[1]), ids(&[8])]);
    let group = level_pair();
    assert_eq!(Manual::new(vec![]).order(&group, strict()), GroupOrder(ids(&[5, 1, 8])));
    let random = fifa_2018_with(SameLot(false)).tiebreaker;
    assert_eq!(random.order(&group, strict()), GroupOrder(ids(&[5, 1, 8])));
    let ranking = UefaRanking::try_new(&[], HashMap::new()).unwrap();
    assert_eq!(ranking.order(&group, strict()), GroupOrder(ids(&[5, 1, 8])));
}

#[test]
fn tiebreaker_keeps_the_subsets_in_place() {
    let tied = NonStrictGroupOrder(vec![ids(&[5]), ids(&[1, 2, 3]), ids(&[8]), ids(&[6, 7])]);
    let mut ranks = HashMap::new();
    for (n, rank) in [(1, 30), (2, 10), (3, 20), (6, 2), (7, 1)] {
        ranks.insert(n, TeamRank(rank));
    }
    let ranking = UefaRanking::try_new(&[], ranks).unwrap();
    assert!(ranking.settles(&tied));
    let order = ranking.order(&level_pair(), tied);
    assert_eq!(order, GroupOrder(ids(&[5, 2, 3, 1, 8, 7, 6])));
}

#[test]
fn decided_teams_stay_where_they_are() {
    // 2 wins the group and 3 is last on points alone. 0 and 1 are level on
    // everything, so that the lots decide between them.
    let group = Group::try_new(
        vec![],
        vec![
            game(0, 0, 1, (1, 1)),
            game(1, 2, 3, (2, 0)),
            game(2, 2, 0, (1, 0)),
            game(3, 2, 1, (1, 0)),
            game(4, 0, 3, (2, 0)),
            game(5, 1, 3, (2, 0)),
        ],
    )
    .unwrap();
    let after_points = non_strict_ordering(
        &group,
        &[Rule::all(StatKind::GroupPoint)],
        NonStrictGroupOrder::init(&group),
    );
    assert_eq!(after_points.0[0], ids(&[2]));
    assert_eq!(after_points.0[2], ids(&[3]));
    for lot in [true, false] {
        let order = order_group(&group, &fifa_2018_with(SameLot(lot)));
        assert_eq!(order.0[0], TeamId(2));
        assert_eq!(order.0[3], TeamId(3));
    }
}

#[test]
fn rules_leave_a_partition() {
    let group = Group::try_new(
        vec![],
        vec![
            game(0, 0, 1, (1, 1)),
            game(1, 2, 3, (1, 1)),
            game(2, 4, 5, (2, 0)),
            game(3, 0, 4, (0, 0)),
        ],
    )
    .unwrap();
    let rules = fifa_2018().non_strict;
    for applied in 0..=rules.len() {
        let order =
            non_strict_ordering(&group, &rules[..applied], NonStrictGroupOrder::init(&group));
        assert!(order.0.iter().all(|subset| !subset.is_empty()));
        let mut teams: Vec<u8> = order.0.iter().flatten().map(|t| t.0).collect();
        teams.sort();
        assert_eq!(teams, vec![0, 1, 2, 3, 4, 5]);
    }
}

#[test]
fn rules_leave_a_strict_order_alone() {
    let group = level_pair();
    let rules = fifa_2018().non_strict;
    let strict = || NonStrictGroupOrder(vec![ids(&[1]), ids(&[0])]);
    assert_eq!(non_strict_ordering(&group, &rules, strict()), strict());
    let none: [Rule; 0] = [];
    let tied = || NonStrictGroupOrder(vec![ids(&[0, 1])]);
    assert_eq!(non_strict_ordering(&group, &none, tied()), tied());
}

#[test]
fn later_rules_are_skipped_once_the_order_is_strict() {
    let group = Group::try_new(vec![], vec![game(0, 0, 1, (2, 0))]).unwrap();
    let by_points = non_strict_ordering(
        &group,
        &[Rule::all(StatKind::GroupPoint), Rule::all(StatKind::GoalCount)],
        NonStrictGroupOrder::init(&group),
    );
    assert_eq!(by_points, NonStrictGroupOrder(vec![ids(&[0]), ids(&[1])]));
}
