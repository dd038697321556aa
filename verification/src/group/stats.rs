//! Statistics of the teams of a group.
//!
//! A statistic gives every game a pair of values, one for the home side and
//! one for the away side. What a team has of a statistic is the sum of what
//! its games gave it, over all games of the group or over those played
//! among a subset of its teams.
use crate::fair_play::{FifaFairPlayValue, UefaFairPlayValue};
use crate::game::{GoalCount, GoalDiff};
use crate::group::game::PlayedGroupGame;
use crate::group::{Group, GroupPoint};
use crate::team::TeamId;
use std::collections::{HashMap, HashSet};
use vstd::prelude::*;

verus! {

broadcast use vstd::std_specs::hash::group_hash_axioms;

/// Number of games a team has won.
#[derive(Clone, Copy, Debug, PartialEq, Eq, Structural)]
pub struct NumWins(pub u8);

/// A quantity that every game hands out to its two sides and that is summed
/// over games.
pub trait UnaryStat: Copy {
    /// The number that a value of the statistic stands for.
    spec fn value(self) -> int;

    /// What `game` gives its home side and its away side.
    spec fn game_stat(game: PlayedGroupGame) -> (int, int);

    /// What `game` gives its home side and its away side.
    fn stat(game: &PlayedGroupGame) -> (deltas: (Self, Self))
        ensures
            deltas.0.value() == Self::game_stat(*game).0,
            deltas.1.value() == Self::game_stat(*game).1,
    ;

    /// The number that the value stands for.
    fn amount(self) -> (a: i32)
        ensures
            a == self.value(),
    ;
}

/// What every team of the group has of the statistic `T` over all games of
/// the group. A team without games has zero.
pub fn team_stats<T: UnaryStat>(group: &Group) -> (stats: HashMap<u8, i128>)
    ensures
        forall|k: u8| stats@.contains_key(k) <==> group.has_team(TeamId(k)),
        forall|k: u8| #[trigger]
            stats@.contains_key(k) ==> stats@[k] == total::<T>(
                group.played(),
                Set::full(),
                TeamId(k),
            ),
{
    fold_games::<T>(group, None)
}

/// What every team of the group has of the statistic `T` over the games in
/// which both sides are among `subset`.
pub fn internal_team_stats<T: UnaryStat>(group: &Group, subset: &HashSet<u8>) -> (stats: HashMap<
    u8,
    i128,
>)
    ensures
        forall|k: u8| stats@.contains_key(k) <==> group.has_team(TeamId(k)),
        forall|k: u8| #[trigger]
            stats@.contains_key(k) ==> stats@[k] == total::<T>(
                group.played(),
                numbered(subset@),
                TeamId(k),
            ),
{
    fold_games::<T>(group, Some(subset))
}

/// The teams whose numbers are in `numbers`.
pub open spec fn numbered(numbers: Set<u8>) -> Set<TeamId> {
    Set::new(|t: TeamId| numbers.contains(t.0))
}

/// Whether both sides of `game` are among `among`.
pub open spec fn counts(game: PlayedGroupGame, among: Set<TeamId>) -> bool {
    among.contains(game.home) && among.contains(game.away)
}

/// What `game` gives `team`: the home value if it is the home side, the away
/// value if it is the away side, nothing if it did not take part.
pub open spec fn share<T: UnaryStat>(game: PlayedGroupGame, team: TeamId) -> int {
    (if game.home == team {
        T::game_stat(game).0
    } else {
        0
    }) + (if game.away == team {
        T::game_stat(game).1
    } else {
        0
    })
}

/// What `team` has of the statistic `T` over those of `games` in which both
/// sides are among `among`.
pub open spec fn total<T: UnaryStat>(
    games: Seq<PlayedGroupGame>,
    among: Set<TeamId>,
    team: TeamId,
) -> int
    decreases games.len(),
{
    if games.len() == 0 {
        0
    } else {
        total::<T>(games.drop_last(), among, team) + (if counts(games.last(), among) {
            share::<T>(games.last(), team)
        } else {
            0
        })
    }
}

/// A team that takes part in none of the games has nothing.
pub proof fn lemma_total_of_stranger<T: UnaryStat>(
    games: Seq<PlayedGroupGame>,
    among: Set<TeamId>,
    team: TeamId,
)
    requires
        forall|i: int| 0 <= i < games.len() ==> games[i].home != team && games[i].away != team,
    ensures
        total::<T>(games, among, team) == 0,
    decreases games.len(),
{
    if games.len() > 0 {
        lemma_total_of_stranger::<T>(games.drop_last(), among, team);
    }
}

/// The set of teams that an optional set of numbers stands for: all teams
/// where there is none.
pub open spec fn among_of(subset: Option<&HashSet<u8>>) -> Set<TeamId> {
    match subset {
        Some(numbers) => numbered(numbers@),
        None => Set::full(),
    }
}

/// Bound on the magnitude of what one game can give one team: each of its
/// two values is an `i32`.
const SHARE_LIMIT: u64 = 0x1_0000_0000;

/// Adds `delta` to what `key` has.
fn add_to(stats: &mut HashMap<u8, i128>, key: u8, delta: i32)
    requires
        old(stats)@.contains_key(key),
        i128::MIN <= old(stats)@[key] + delta <= i128::MAX,
    ensures
        final(stats)@ == old(stats)@.insert(key, (old(stats)@[key] + delta) as i128),
{
    let current: i128 = *stats.get(&key).unwrap();
    stats.insert(key, current + (delta as i128));
}

/// Starts every team at zero, then hands out what each game gives, game by
/// game, leaving out the games that do not count.
fn fold_games<T: UnaryStat>(group: &Group, subset: Option<&HashSet<u8>>) -> (stats: HashMap<
    u8,
    i128,
>)
    ensures
        forall|k: u8| stats@.contains_key(k) <==> group.has_team(TeamId(k)),
        forall|k: u8| #[trigger]
            stats@.contains_key(k) ==> stats@[k] == total::<T>(
                group.played(),
                among_of(subset),
                TeamId(k),
            ),
{
    let teams = group.team_ids();
    let games = group.played_games();
    let ghost among = among_of(subset);
    let mut stats: HashMap<u8, i128> = HashMap::new();
    let mut i: usize = 0;
    while i < teams.len()
        invariant
            i <= teams@.len(),
            forall|k: u8| stats@.contains_key(k) <==> teams@.take(i as int).contains(TeamId(k)),
            forall|k: u8| #[trigger] stats@.contains_key(k) ==> stats@[k] == 0,
        decreases teams@.len() - i,
    {
        let ghost before = stats@;
        stats.insert(teams[i].0, 0);
        proof {
            assert(teams@.take(i + 1) == teams@.take(i as int).push(teams@[i as int]));
            assert forall|k: u8| stats@.contains_key(k) <==> teams@.take(i + 1).contains(
                TeamId(k),
            ) by {
                if teams@.take(i as int).contains(TeamId(k)) {
                    let j = choose|j: int|
                        0 <= j < i && teams@.take(i as int)[j] == TeamId(k);
                    assert(teams@.take(i + 1)[j] == TeamId(k));
                }
                if k == teams@[i as int].0 {
                    assert(teams@.take(i + 1)[i as int] == TeamId(k));
                }
            }
        }
        i += 1;
    }
    assert(teams@.take(i as int) == teams@);
    let mut g: usize = 0;
    while g < games.len()
        invariant
            g <= games@.len(),
            games@ == group.played(),
            teams@ == group.teams(),
            group.wf(),
            among == among_of(subset),
            forall|k: u8| stats@.contains_key(k) <==> teams@.contains(TeamId(k)),
            forall|k: u8| #[trigger]
                stats@.contains_key(k) ==> stats@[k] == total::<T>(
                    games@.take(g as int),
                    among,
                    TeamId(k),
                ),
            forall|k: u8| #[trigger]
                stats@.contains_key(k) ==> -(g * SHARE_LIMIT) <= stats@[k] <= g * SHARE_LIMIT,
        decreases games@.len() - g,
    {
        let game = &games[g];
        let ghost before = stats@;
        proof {
            assert(games@.take(g + 1).drop_last() == games@.take(g as int));
            assert(games@.take(g + 1).last() == *game);
        }
        let counted = match subset {
            Some(numbers) => numbers.contains(&game.home.0) && numbers.contains(&game.away.0),
            None => true,
        };
        assert(counted == counts(*game, among));
        if counted {
            let (home_delta, away_delta) = T::stat(game);
            assert(stats@.contains_key(game.home.0));
            add_to(&mut stats, game.home.0, home_delta.amount());
            assert(stats@.contains_key(game.away.0));
            add_to(&mut stats, game.away.0, away_delta.amount());
            proof {
                assert forall|k: u8| #[trigger] stats@.contains_key(k) implies stats@[k]
                    == before[k] + share::<T>(*game, TeamId(k)) by {
                    assert(before.contains_key(k));
                }
            }
        }
        proof {
            assert forall|k: u8| #[trigger] stats@.contains_key(k) implies stats@[k] == total::<T>(
                games@.take(g + 1),
                among,
                TeamId(k),
            ) && -((g + 1) * SHARE_LIMIT) <= stats@[k] <= (g + 1) * SHARE_LIMIT by {
                assert(before.contains_key(k));
            }
        }
        g += 1;
    }
    assert(games@.take(g as int) == games@);
    stats
}

impl GroupPoint {
    /// No points.
    pub fn zero() -> (p: GroupPoint)
        ensures
            p.0 == 0,
    {
        GroupPoint(0)
    }

    /// Whether these are no points.
    pub fn is_zero(&self) -> (z: bool)
        ensures
            z == (self.0 == 0),
    {
        self.0 == 0
    }
}

impl UnaryStat for GroupPoint {
    open spec fn value(self) -> int {
        self.0 as int
    }

    /// Three points for a win, one for a draw, none for a defeat.
    open spec fn game_stat(game: PlayedGroupGame) -> (int, int) {
        if game.score.home.0 > game.score.away.0 {
            (3, 0)
        } else if game.score.home.0 < game.score.away.0 {
            (0, 3)
        } else {
            (1, 1)
        }
    }

    fn stat(game: &PlayedGroupGame) -> (deltas: (Self, Self)) {
        let score = &game.score;
        if score.home.0 > score.away.0 {
            (GroupPoint(3), GroupPoint(0))
        } else if score.home.0 < score.away.0 {
            (GroupPoint(0), GroupPoint(3))
        } else {
            (GroupPoint(1), GroupPoint(1))
        }
    }

    fn amount(self) -> (a: i32) {
        self.0 as i32
    }
}

impl UnaryStat for GoalDiff {
    open spec fn value(self) -> int {
        self.0 as int
    }

    /// Goals scored minus goals conceded.
    open spec fn game_stat(game: PlayedGroupGame) -> (int, int) {
        (game.score.home.0 - game.score.away.0, game.score.away.0 - game.score.home.0)
    }

    fn stat(game: &PlayedGroupGame) -> (deltas: (Self, Self)) {
        let goal_diff = game.score.home.diff(game.score.away);
        (goal_diff, goal_diff.reversed())
    }

    fn amount(self) -> (a: i32) {
        self.0 as i32
    }
}

impl UnaryStat for GoalCount {
    open spec fn value(self) -> int {
        self.0 as int
    }

    /// Goals scored.
    open spec fn game_stat(game: PlayedGroupGame) -> (int, int) {
        (game.score.home.0 as int, game.score.away.0 as int)
    }

    fn stat(game: &PlayedGroupGame) -> (deltas: (Self, Self)) {
        (game.score.home, game.score.away)
    }

    fn amount(self) -> (a: i32) {
        self.0 as i32
    }
}

impl UnaryStat for NumWins {
    open spec fn value(self) -> int {
        self.0 as int
    }

    /// One for the winner, none for anyone else.
    open spec fn game_stat(game: PlayedGroupGame) -> (int, int) {
        if game.score.home.0 > game.score.away.0 {
            (1, 0)
        } else if game.score.home.0 < game.score.away.0 {
            (0, 1)
        } else {
            (0, 0)
        }
    }

    fn stat(game: &PlayedGroupGame) -> (deltas: (Self, Self)) {
        let score = &game.score;
        if score.home.0 > score.away.0 {
            (NumWins(1), NumWins(0))
        } else if score.home.0 < score.away.0 {
            (NumWins(0), NumWins(1))
        } else {
            (NumWins(0), NumWins(0))
        }
    }

    fn amount(self) -> (a: i32) {
        self.0 as i32
    }
}

impl UnaryStat for FifaFairPlayValue {
    open spec fn value(self) -> int {
        self.0 as int
    }

    /// The fair-play points of each side's cards under the FIFA weights.
    open spec fn game_stat(game: PlayedGroupGame) -> (int, int) {
        (game.fair_play.home.fifa_points(), game.fair_play.away.fifa_points())
    }

    fn stat(game: &PlayedGroupGame) -> (deltas: (Self, Self)) {
        (game.fair_play.home.fifa_value(), game.fair_play.away.fifa_value())
    }

    fn amount(self) -> (a: i32) {
        self.0
    }
}

impl UnaryStat for UefaFairPlayValue {
    open spec fn value(self) -> int {
        self.0 as int
    }

    /// The fair-play points of each side's cards under the UEFA weights.
    open spec fn game_stat(game: PlayedGroupGame) -> (int, int) {
        (game.fair_play.home.uefa_points(), game.fair_play.away.uefa_points())
    }

    fn stat(game: &PlayedGroupGame) -> (deltas: (Self, Self)) {
        (game.fair_play.home.uefa_value(), game.fair_play.away.uefa_value())
    }

    fn amount(self) -> (a: i32) {
        self.0
    }
}

} // verus!
