//! Games of a group: those played, with their result, and those to come.
use crate::date::Date;
use crate::fair_play::FairPlayScore;
use crate::game::Score;
use crate::group::GroupError;
use crate::team::TeamId;
use vstd::prelude::*;

verus! {

/// Identifies a game within its group.
#[derive(Clone, Copy, Debug, PartialEq, Eq, Structural, Hash)]
pub struct GroupGameId(pub u8);

/// A game that has been played.
#[derive(Clone, Copy, Debug, PartialEq, Eq, Structural)]
pub struct PlayedGroupGame {
    pub id: GroupGameId,
    pub home: TeamId,
    pub away: TeamId,
    pub score: Score,
    pub fair_play: FairPlayScore,
    pub date: Date,
}

/// A game that is still to be played.
#[derive(Clone, Copy, Debug, PartialEq, Eq, Structural)]
pub struct UnplayedGroupGame {
    pub id: GroupGameId,
    pub home: TeamId,
    pub away: TeamId,
    pub date: Date,
}

impl PlayedGroupGame {
    /// A game is between two different teams.
    pub fn try_new(
        id: u8,
        home: u8,
        away: u8,
        score: (u8, u8),
        fair_play: FairPlayScore,
        date: Date,
    ) -> (game: Result<PlayedGroupGame, GroupError>)
        ensures
            home != away ==> game == Ok::<PlayedGroupGame, GroupError>(
                PlayedGroupGame {
                    id: GroupGameId(id),
                    home: TeamId(home),
                    away: TeamId(away),
                    score: Score::new_spec(score.0, score.1),
                    fair_play,
                    date,
                },
            ),
            home == away ==> game == Err::<PlayedGroupGame, GroupError>(
                GroupError::GameTeamsNotUnique,
            ),
    {
        if home == away {
            Err(GroupError::GameTeamsNotUnique)
        } else {
            Ok(
                PlayedGroupGame {
                    id: GroupGameId(id),
                    home: TeamId(home),
                    away: TeamId(away),
                    score: Score::new(score.0, score.1),
                    fair_play,
                    date,
                },
            )
        }
    }
}

impl UnplayedGroupGame {
    /// A game is between two different teams.
    pub fn try_new(id: u8, home: u8, away: u8, date: Date) -> (game: Result<
        UnplayedGroupGame,
        GroupError,
    >)
        ensures
            home != away ==> game == Ok::<UnplayedGroupGame, GroupError>(
                UnplayedGroupGame {
                    id: GroupGameId(id),
                    home: TeamId(home),
                    away: TeamId(away),
                    date,
                },
            ),
            home == away ==> game == Err::<UnplayedGroupGame, GroupError>(
                GroupError::GameTeamsNotUnique,
            ),
    {
        if home == away {
            Err(GroupError::GameTeamsNotUnique)
        } else {
            Ok(
                UnplayedGroupGame {
                    id: GroupGameId(id),
                    home: TeamId(home),
                    away: TeamId(away),
                    date,
                },
            )
        }
    }
}

} // verus!
