//! Rows of the tables that teams and games are stored in, and how they turn
//! into teams and games and back.
//!
//! A row holds plain numbers and text. Identifiers, ranks and goals are
//! stored as `i32`, while a team or a game holds them as `u8`: a row turns
//! into a team or a game only if its numbers fit.
use crate::date::Date;
use crate::fair_play::{FairPlay, FairPlayScore};
use crate::game::Score;
use crate::group::game::{GroupGameId, PlayedGroupGame, UnplayedGroupGame};
use crate::team::{FifaCode, Iso2, TeamId, TeamName, TeamRank};
use vstd::prelude::*;
use vstd::std_specs::convert::FromSpecImpl;

verus! {

/// A stored team.
#[derive(Debug)]
pub struct Team {
    pub id: i32,
    pub name: String,
    pub fifa_code: String,
    pub iso2: String,
    pub rank_: i32,
}

/// A team that is to be stored.
pub struct NewTeam<'a> {
    pub id: i32,
    pub name: &'a str,
    pub fifa_code: &'a str,
    pub iso2: &'a str,
    pub rank_: i32,
}

/// The stored link from a game to the group that it belongs to.
#[derive(Debug)]
pub struct GroupGameMap {
    pub game_id: i32,
    pub group_id_: String,
}

/// A link from a game to its group that is to be stored.
pub struct NewGroupGameMap<'a> {
    pub game_id: i32,
    pub group_id_: &'a str,
}

/// A stored game. The results are there once the game has been played.
#[derive(Debug)]
pub struct Game {
    pub id: i32,
    pub type_: String,
    pub home_team: i32,
    pub away_team: i32,
    pub home_result: Option<i32>,
    pub away_result: Option<i32>,
    pub home_penalty: Option<i32>,
    pub away_penalty: Option<i32>,
    pub home_fair_play: Option<i32>,
    pub away_fair_play: Option<i32>,
    pub played: bool,
}

/// A game that is to be stored.
pub struct NewGame<'a> {
    pub id: i32,
    pub type_: &'a str,
    pub home_team: i32,
    pub away_team: i32,
    pub home_result: Option<i32>,
    pub away_result: Option<i32>,
    pub home_penalty: Option<i32>,
    pub away_penalty: Option<i32>,
    pub home_fair_play: Option<i32>,
    pub away_fair_play: Option<i32>,
    pub played: bool,
}

/// Whether `n` is a number that a `u8` holds.
pub open spec fn fits_u8(n: i32) -> bool {
    0 <= n <= 255
}

/// Whether `n` is there and is a number that a `u8` holds.
pub open spec fn holds_u8(n: Option<i32>) -> bool {
    n matches Some(v) && fits_u8(v)
}

/// Whether `n` is a number that a `u8` holds.
pub fn is_u8(n: i32) -> (fits: bool)
    ensures
        fits == fits_u8(n),
{
    0 <= n && n <= 255
}

impl Team {
    /// Whether the row can turn into a team: its identifier and its rank
    /// fit.
    pub open spec fn fits(&self) -> bool {
        fits_u8(self.id) && fits_u8(self.rank_)
    }

    /// Whether the row can turn into a team.
    pub fn can_convert(&self) -> (fits: bool)
        ensures
            fits == self.fits(),
    {
        is_u8(self.id) && is_u8(self.rank_)
    }

    /// The team that the row stands for.
    pub fn into(self) -> (team: crate::team::Team)
        requires
            self.fits(),
        ensures
            team.id.0 == self.id,
            team.name.0 == self.name,
            team.fifa_code.0 == self.fifa_code,
            team.iso2.0 == self.iso2,
            team.rank.0 == self.rank_,
    {
        let id = TeamId(u8::try_from(self.id).unwrap());
        let name = TeamName(self.name);
        let fifa_code = FifaCode(self.fifa_code);
        let iso2 = Iso2(self.iso2);
        let rank = TeamRank(u8::try_from(self.rank_).unwrap());
        crate::team::Team { id, name, fifa_code, iso2, rank }
    }
}

impl Game {
    /// Whether the row can turn into a game that is still to be played: the
    /// identifiers of the game and of its two sides fit.
    pub open spec fn fits_unplayed(&self) -> bool {
        fits_u8(self.id) && fits_u8(self.home_team) && fits_u8(self.away_team)
    }

    /// Whether the row can turn into a game that has been played: it could
    /// turn into one that is still to be played, and both results are there
    /// and fit.
    pub open spec fn fits_played(&self) -> bool {
        self.fits_unplayed() && holds_u8(self.home_result) && holds_u8(self.away_result)
    }

    /// Whether the row can turn into a game that is still to be played.
    pub fn can_convert_unplayed(&self) -> (fits: bool)
        ensures
            fits == self.fits_unplayed(),
    {
        is_u8(self.id) && is_u8(self.home_team) && is_u8(self.away_team)
    }

    /// Whether the row can turn into a game that has been played.
    pub fn can_convert_played(&self) -> (fits: bool)
        ensures
            fits == self.fits_played(),
    {
        let home = match self.home_result {
            Some(v) => is_u8(v),
            None => false,
        };
        let away = match self.away_result {
            Some(v) => is_u8(v),
            None => false,
        };
        self.can_convert_unplayed() && home && away
    }
}

/// The cards of a game of which none are known: none on either side.
pub open spec fn no_cards() -> FairPlayScore {
    FairPlayScore { home: FairPlay::none(), away: FairPlay::none() }
}

impl PlayedGroupGame {
    /// The played game that a row stands for. Cards are not stored: the
    /// game comes without any. Neither is the date.
    pub fn from(game: Game) -> (played: PlayedGroupGame)
        requires
            game.fits_played(),
        ensures
            played.id.0 == game.id,
            played.home.0 == game.home_team,
            played.away.0 == game.away_team,
            played.score.home.0 == game.home_result->0,
            played.score.away.0 == game.away_result->0,
            played.fair_play == no_cards(),
            played.date == Date::mock_spec(),
    {
        PlayedGroupGame {
            id: GroupGameId(u8::try_from(game.id).unwrap()),
            home: TeamId(u8::try_from(game.home_team).unwrap()),
            away: TeamId(u8::try_from(game.away_team).unwrap()),
            score: Score::new(
                u8::try_from(game.home_result.unwrap()).unwrap(),
                u8::try_from(game.away_result.unwrap()).unwrap(),
            ),
            fair_play: FairPlayScore::default(),
            date: Date::mock(),
        }
    }
}

impl UnplayedGroupGame {
    /// The game still to be played that a row stands for. The date is not
    /// stored.
    pub fn from(game: Game) -> (unplayed: UnplayedGroupGame)
        requires
            game.fits_unplayed(),
        ensures
            unplayed.id.0 == game.id,
            unplayed.home.0 == game.home_team,
            unplayed.away.0 == game.away_team,
            unplayed.date == Date::mock_spec(),
    {
        UnplayedGroupGame {
            id: GroupGameId(u8::try_from(game.id).unwrap()),
            home: TeamId(u8::try_from(game.home_team).unwrap()),
            away: TeamId(u8::try_from(game.away_team).unwrap()),
            date: Date::mock(),
        }
    }
}

impl<'a> FromSpecImpl<&'a UnplayedGroupGame> for NewGame<'a> {
    open spec fn obeys_from_spec() -> bool {
        true
    }

    /// A game still to be played is stored without results.
    open spec fn from_spec(game: &'a UnplayedGroupGame) -> Self {
        NewGame {
            id: game.id.0 as i32,
            type_: "group",
            home_team: game.home.0 as i32,
            away_team: game.away.0 as i32,
            home_result: None,
            away_result: None,
            home_penalty: None,
            away_penalty: None,
            home_fair_play: None,
            away_fair_play: None,
            played: false,
        }
    }
}

impl<'a> From<&'a UnplayedGroupGame> for NewGame<'a> {
    fn from(game: &'a UnplayedGroupGame) -> (row: Self) {
        NewGame {
            id: game.id.0 as i32,
            type_: "group",
            home_team: game.home.0 as i32,
            away_team: game.away.0 as i32,
            home_result: None,
            away_result: None,
            home_penalty: None,
            away_penalty: None,
            home_fair_play: None,
            away_fair_play: None,
            played: false,
        }
    }
}

impl<'a> FromSpecImpl<&'a PlayedGroupGame> for NewGame<'a> {
    open spec fn obeys_from_spec() -> bool {
        true
    }

    /// A played game is stored with its score. Its cards are not stored.
    open spec fn from_spec(game: &'a PlayedGroupGame) -> Self {
        NewGame {
            id: game.id.0 as i32,
            type_: "group",
            home_team: game.home.0 as i32,
            away_team: game.away.0 as i32,
            home_result: Some(game.score.home.0 as i32),
            away_result: Some(game.score.away.0 as i32),
            home_penalty: None,
            away_penalty: None,
            home_fair_play: None,
            away_fair_play: None,
            played: true,
        }
    }
}

impl<'a> From<&'a PlayedGroupGame> for NewGame<'a> {
    fn from(game: &'a PlayedGroupGame) -> (row: Self) {
        NewGame {
            id: game.id.0 as i32,
            type_: "group",
            home_team: game.home.0 as i32,
            away_team: game.away.0 as i32,
            home_result: Some(game.score.home.0 as i32),
            away_result: Some(game.score.away.0 as i32),
            home_penalty: None,
            away_penalty: None,
            home_fair_play: None,
            away_fair_play: None,
            played: true,
        }
    }
}

} // verus!
