use group_standings::group::order::{Tiebreaker, UefaRanking};
use group_standings::team::{TeamId, TeamRank};
use std::cmp::Ordering;
use std::collections::HashMap;

#[test]
fn uefa_rank() {
    let mut ranking = HashMap::new();
    ranking.insert(0, TeamRank(1));
    ranking.insert(1, TeamRank(2));
    let ranking = UefaRanking::try_new(&[], ranking).unwrap();
    assert_eq!(ranking.cmp(TeamId(0), TeamId(1)), Ordering::Greater);
}
