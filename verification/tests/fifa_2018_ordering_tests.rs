use group_standings::fair_play::{FairPlay, FairPlayScore};
use group_standings::group::game::PlayedGroupGame;
use group_standings::group::order::{fifa_2018, order_group, GroupOrder};
use group_standings::group::Group;
use group_standings::team::TeamId;
use group_standings::Date;

/// One round of the group stage of 4 teams.
/// Strict order only on PrimaryStats
#[test]
fn new_point_order() {
    let game_1 =
        PlayedGroupGame::try_new(0, 0, 1, (0, 2), FairPlayScore::default(), Date::mock()).unwrap();
    let game_2 =
        PlayedGroupGame::try_new(1, 2, 3, (1, 1), FairPlayScore::default(), Date::mock()).unwrap();
    let game_3 =
        PlayedGroupGame::try_new(2, 0, 3, (0, 1), FairPlayScore::default(), Date::mock()).unwrap();
    let group = Group::try_new(vec![], vec![game_1, game_2, game_3]).unwrap();
    let rules = fifa_2018();
    let group_order = order_group(&group, &rules);
    let true_order = GroupOrder(vec![3, 1, 2, 0].iter().map(|x| TeamId(*x)).collect());
    assert_eq!(true_order, group_order);
}

/// Different ordering based on points vs scored goals
#[test]
fn points_scored_goals_discrepancy() {
    let game_1 =
        PlayedGroupGame::try_new(0, 0, 1, (0, 1), FairPlayScore::default(), Date::mock()).unwrap();
    let game_2 =
        PlayedGroupGame::try_new(1, 2, 3, (1, 0), FairPlayScore::default(), Date::mock()).unwrap();
    let game_3 =
        PlayedGroupGame::try_new(2, 0, 2, (0, 0), FairPlayScore::default(), Date::mock()).unwrap();
    let game_4 =
        PlayedGroupGame::try_new(3, 1, 3, (5, 5), FairPlayScore::default(), Date::mock()).unwrap();
    let group = Group::try_new(vec![], vec![game_1, game_2, game_3, game_4]).unwrap();
    let rules = fifa_2018();
    let group_order = order_group(&group, &rules);
    let true_order = GroupOrder(vec![1, 2, 3, 0].iter().map(|x| TeamId(*x)).collect());
    assert_eq!(true_order, group_order);
}

/// One round of the group stage of 4 teams.
/// Strict order only on PrimaryStats
#[test]
fn prim_stats_orders() {
    let game_1 =
        PlayedGroupGame::try_new(0, 0, 1, (0, 2), FairPlayScore::default(), Date::mock()).unwrap();
    let game_2 =
        PlayedGroupGame::try_new(1, 2, 3, (1, 0), FairPlayScore::default(), Date::mock()).unwrap();
    let group = Group::try_new(vec![], vec![game_1, game_2]).unwrap();
    let rules = fifa_2018();
    let group_order = order_group(&group, &rules);
    let true_order = GroupOrder(vec![1, 2, 3, 0].iter().map(|x| TeamId(*x)).collect());
    assert_eq!(true_order, group_order);
}

/// One round of the group stage of 4 teams.
/// FairPlayScore necessary for strict order.
#[test]
fn fair_play_order() {
    let fair_play_home = FairPlay::new(1, 0, 0, 0);
    let fair_play_away = FairPlay::new(0, 0, 0, 0);
    let game_1 = PlayedGroupGame::try_new(
        0,
        0,
        1,
        (0, 0),
        FairPlayScore::new(fair_play_home, fair_play_away),
        Date::mock(),
    )
    .unwrap();
    let group = Group::try_new(vec![], vec![game_1]).unwrap();
    let rules = fifa_2018();
    let group_order = order_group(&group, &rules);
    let true_order = GroupOrder(vec![1, 0].iter().map(|x| TeamId(*x)).collect());
    assert_eq!(true_order, group_order);
}

/// Two teams with same points, diff and score.
/// The internal game decides
#[test]
fn internal_game() {
    let game_1 =
        PlayedGroupGame::try_new(0, 0, 2, (1, 0), FairPlayScore::default(), Date::mock()).unwrap();
    let game_2 =
        PlayedGroupGame::try_new(1, 1, 2, (1, 0), FairPlayScore::default(), Date::mock()).unwrap();
    let game_3 =
        PlayedGroupGame::try_new(2, 1, 2, (1, 0), FairPlayScore::default(), Date::mock()).unwrap();
    let game_4 =
        PlayedGroupGame::try_new(3, 0, 1, (1, 0), FairPlayScore::default(), Date::mock()).unwrap();
    let game_5 =
        PlayedGroupGame::try_new(4, 0, 3, (0, 1), FairPlayScore::default(), Date::mock()).unwrap();
    let group = Group::try_new(vec![], vec![game_1, game_2, game_3, game_4, game_5]).unwrap();
    let rules = fifa_2018();
    let group_order = order_group(&group, &rules);
    let true_order = GroupOrder(vec![0, 1, 3, 2].iter().map(|x| TeamId(*x)).collect());
    assert_eq!(true_order, group_order);
}
