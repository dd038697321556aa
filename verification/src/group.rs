//! Groups: the teams of a round-robin stage and the games among them.
pub mod game;
pub mod laws;
pub mod order;
pub mod stats;
pub mod tiebreak;

use crate::group::game::{PlayedGroupGame, UnplayedGroupGame};
use crate::team::TeamId;
use vstd::prelude::*;

verus! {

/// What can go wrong when a group or one of its parts is put together.
#[derive(Clone, Copy, Debug, PartialEq, Eq, Structural)]
pub enum GroupError {
    /// An order with tied teams was taken for a strict one.
    NonStrictOrder,
    /// A team is not known to the data it is looked up in.
    GenericError,
    /// A game names the same team as home and away side.
    GameTeamsNotUnique,
    /// Two games of a group carry the same identifier.
    GameIdsNotUnique,
}

/// Points a team has collected in its group.
#[derive(Clone, Copy, Debug, PartialEq, Eq, Structural)]
pub struct GroupPoint(pub u8);

/// The teams of a group and the games among them.
///
/// The teams are those that take part in at least one game, each listed
/// once, in the order in which they first appear: played games before
/// upcoming ones, the home side of a game before its away side.
pub struct Group {
    teams: Vec<TeamId>,
    played_games: Vec<PlayedGroupGame>,
    upcoming_games: Vec<UnplayedGroupGame>,
}

/// The sides of the played games, game by game, home before away.
pub open spec fn played_sides(games: Seq<PlayedGroupGame>) -> Seq<TeamId>
    decreases games.len(),
{
    if games.len() == 0 {
        Seq::empty()
    } else {
        played_sides(games.drop_last()).push(games.last().home).push(games.last().away)
    }
}

/// The sides of the upcoming games, game by game, home before away.
pub open spec fn upcoming_sides(games: Seq<UnplayedGroupGame>) -> Seq<TeamId>
    decreases games.len(),
{
    if games.len() == 0 {
        Seq::empty()
    } else {
        upcoming_sides(games.drop_last()).push(games.last().home).push(games.last().away)
    }
}

/// The identifiers of all games, played ones first.
pub open spec fn game_ids(
    played: Seq<PlayedGroupGame>,
    upcoming: Seq<UnplayedGroupGame>,
) -> Seq<u8> {
    played.map_values(|g: PlayedGroupGame| g.id.0) + upcoming.map_values(
        |g: UnplayedGroupGame| g.id.0,
    )
}

/// The teams of `sides`, each kept where it first occurs.
pub open spec fn first_occurrences(sides: Seq<TeamId>) -> Seq<TeamId>
    decreases sides.len(),
{
    if sides.len() == 0 {
        Seq::empty()
    } else {
        let before = first_occurrences(sides.drop_last());
        if before.contains(sides.last()) {
            before
        } else {
            before.push(sides.last())
        }
    }
}

/// One more side adds a team exactly when the team has not occurred before.
pub proof fn lemma_first_occurrences_push(sides: Seq<TeamId>, team: TeamId)
    ensures
        first_occurrences(sides.push(team)) == (if first_occurrences(sides).contains(team) {
            first_occurrences(sides)
        } else {
            first_occurrences(sides).push(team)
        }),
{
    assert(sides.push(team).drop_last() == sides);
}

/// Whether `teams` holds `team`.
pub fn holds_team(teams: &Vec<TeamId>, team: TeamId) -> (found: bool)
    ensures
        found == teams@.contains(team),
{
    let mut i: usize = 0;
    while i < teams.len()
        invariant
            i <= teams@.len(),
            forall|k: int| 0 <= k < i ==> teams@[k] != team,
        decreases teams@.len() - i,
    {
        if teams[i] == team {
            return true;
        }
        i += 1;
    }
    false
}

/// Whether some number occurs twice in `ids`.
fn has_repeat(ids: &Vec<u8>) -> (found: bool)
    ensures
        found == !ids@.no_duplicates(),
{
    let mut i: usize = 0;
    while i < ids.len()
        invariant
            i <= ids@.len(),
            forall|a: int, b: int|
                0 <= a < i && 0 <= b < ids@.len() && a != b ==> ids@[a] != ids@[b],
        decreases ids@.len() - i,
    {
        let mut j: usize = 0;
        while j < ids.len()
            invariant
                i < ids@.len(),
                j <= ids@.len(),
                forall|b: int| 0 <= b < j && i != b ==> ids@[i as int] != ids@[b],
            decreases ids@.len() - j,
        {
            if i != j && ids[i] == ids[j] {
                return true;
            }
            j += 1;
        }
        i += 1;
    }
    false
}

/// Adds `team` to `teams` unless it is there already.
fn note_team(teams: &mut Vec<TeamId>, team: TeamId)
    requires
        old(teams)@.no_duplicates(),
    ensures
        final(teams)@ == (if old(teams)@.contains(team) {
            old(teams)@
        } else {
            old(teams)@.push(team)
        }),
        final(teams)@.no_duplicates(),
        final(teams)@.contains(team),
        forall|t: TeamId| old(teams)@.contains(t) ==> final(teams)@.contains(t),
{
    if !holds_team(teams, team) {
        let ghost before = teams@;
        teams.push(team);
        assert(teams@[before.len() as int] == team);
        assert forall|t: TeamId| before.contains(t) implies teams@.contains(t) by {
            let k = choose|k: int| 0 <= k < before.len() && before[k] == t;
            assert(teams@[k] == t);
        }
    }
}

impl Group {
    /// The teams of the group, each once.
    pub closed spec fn teams(&self) -> Seq<TeamId> {
        self.teams@
    }

    /// The games that have been played.
    pub closed spec fn played(&self) -> Seq<PlayedGroupGame> {
        self.played_games@
    }

    /// The games that are still to be played.
    pub closed spec fn upcoming(&self) -> Seq<UnplayedGroupGame> {
        self.upcoming_games@
    }

    /// What holds of every group: no team is listed twice, both sides of
    /// every game are teams of the group, and no two games share an
    /// identifier.
    pub open spec fn wf(&self) -> bool {
        &&& self.teams().no_duplicates()
        &&& forall|i: int|
            0 <= i < self.played().len() ==> self.teams().contains(#[trigger] self.played()[i].home)
                && self.teams().contains(self.played()[i].away)
        &&& forall|i: int|
            0 <= i < self.upcoming().len() ==> self.teams().contains(
                #[trigger] self.upcoming()[i].home,
            ) && self.teams().contains(self.upcoming()[i].away)
        &&& game_ids(self.played(), self.upcoming()).no_duplicates()
    }

    /// Every group that there is is well formed.
    #[verifier::type_invariant]
    pub open spec fn inv(&self) -> bool {
        self.wf()
    }

    /// Whether `team` is one of the group's teams.
    pub open spec fn has_team(&self, team: TeamId) -> bool {
        self.teams().contains(team)
    }

    /// Puts a group together from its games. Fails exactly when two of the
    /// games carry the same identifier.
    pub fn try_new(
        upcoming_games: Vec<UnplayedGroupGame>,
        played_games: Vec<PlayedGroupGame>,
    ) -> (group: Result<Group, GroupError>)
        ensures
            game_ids(played_games@, upcoming_games@).no_duplicates() ==> (group matches Ok(g)
                && g.wf() && g.played() == played_games@ && g.upcoming() == upcoming_games@
                && g.teams() == first_occurrences(
                played_sides(played_games@) + upcoming_sides(upcoming_games@),
            )),
            !game_ids(played_games@, upcoming_games@).no_duplicates() ==> group == Err::<
                Group,
                GroupError,
            >(GroupError::GameIdsNotUnique),
    {
        let ghost all_ids = game_ids(played_games@, upcoming_games@);
        let mut ids: Vec<u8> = Vec::new();
        let mut i: usize = 0;
        while i < played_games.len()
            invariant
                i <= played_games@.len(),
                ids@ == played_games@.take(i as int).map_values(|g: PlayedGroupGame| g.id.0),
            decreases played_games@.len() - i,
        {
            ids.push(played_games[i].id.0);
            assert(played_games@.take(i + 1) == played_games@.take(i as int).push(
                played_games@[i as int],
            ));
            i += 1;
        }
        assert(played_games@.take(i as int) == played_games@);
        let mut j: usize = 0;
        while j < upcoming_games.len()
            invariant
                j <= upcoming_games@.len(),
                ids@ == played_games@.map_values(|g: PlayedGroupGame| g.id.0)
                    + upcoming_games@.take(j as int).map_values(|g: UnplayedGroupGame| g.id.0),
            decreases upcoming_games@.len() - j,
        {
            ids.push(upcoming_games[j].id.0);
            assert(upcoming_games@.take(j + 1) == upcoming_games@.take(j as int).push(
                upcoming_games@[j as int],
            ));
            j += 1;
        }
        assert(upcoming_games@.take(j as int) == upcoming_games@);
        assert(ids@ == all_ids);
        if has_repeat(&ids) {
            return Err(GroupError::GameIdsNotUnique);
        }
        let mut teams: Vec<TeamId> = Vec::new();
        let mut i: usize = 0;
        while i < played_games.len()
            invariant
                i <= played_games@.len(),
                teams@.no_duplicates(),
                teams@ == first_occurrences(played_sides(played_games@.take(i as int))),
                forall|k: int|
                    0 <= k < i ==> teams@.contains(#[trigger] played_games@[k].home)
                        && teams@.contains(played_games@[k].away),
            decreases played_games@.len() - i,
        {
            let ghost sides = played_sides(played_games@.take(i as int));
            let game = &played_games[i];
            proof {
                assert(played_games@.take(i + 1).drop_last() == played_games@.take(i as int));
                assert(played_sides(played_games@.take(i + 1)) == sides.push(game.home).push(
                    game.away,
                ));
                lemma_first_occurrences_push(sides, game.home);
                lemma_first_occurrences_push(sides.push(game.home), game.away);
            }
            let ghost known = teams@;
            note_team(&mut teams, game.home);
            let ghost middle = teams@;
            note_team(&mut teams, game.away);
            proof {
                assert forall|k: int| 0 <= k < i + 1 implies teams@.contains(
                    #[trigger] played_games@[k].home,
                ) && teams@.contains(played_games@[k].away) by {
                    if k < i {
                        assert(known.contains(played_games@[k].home));
                        assert(known.contains(played_games@[k].away));
                        assert(middle.contains(played_games@[k].home));
                        assert(middle.contains(played_games@[k].away));
                    } else {
                        assert(middle.contains(game.home));
                    }
                }
            }
            i += 1;
        }
        assert(played_games@.take(i as int) == played_games@);
        let ghost played_part = played_sides(played_games@);
        let mut j: usize = 0;
        assert(played_part + upcoming_sides(upcoming_games@.take(0)) == played_part);
        while j < upcoming_games.len()
            invariant
                j <= upcoming_games@.len(),
                played_part == played_sides(played_games@),
                teams@.no_duplicates(),
                teams@ == first_occurrences(
                    played_part + upcoming_sides(upcoming_games@.take(j as int)),
                ),
                forall|k: int|
                    0 <= k < played_games@.len() ==> teams@.contains(
                        #[trigger] played_games@[k].home,
                    ) && teams@.contains(played_games@[k].away),
                forall|k: int|
                    0 <= k < j ==> teams@.contains(#[trigger] upcoming_games@[k].home)
                        && teams@.contains(upcoming_games@[k].away),
            decreases upcoming_games@.len() - j,
        {
            let ghost sides = played_part + upcoming_sides(upcoming_games@.take(j as int));
            let ghost known = teams@;
            let game = &upcoming_games[j];
            proof {
                assert(upcoming_games@.take(j + 1).drop_last() == upcoming_games@.take(j as int));
                assert(upcoming_sides(upcoming_games@.take(j + 1)) == upcoming_sides(
                    upcoming_games@.take(j as int),
                ).push(game.home).push(game.away));
                assert(played_part + upcoming_sides(upcoming_games@.take(j + 1)) == sides.push(
                    game.home,
                ).push(game.away));
                lemma_first_occurrences_push(sides, game.home);
                lemma_first_occurrences_push(sides.push(game.home), game.away);
            }
            note_team(&mut teams, game.home);
            let ghost middle = teams@;
            note_team(&mut teams, game.away);
            proof {
                assert forall|k: int| 0 <= k < j + 1 implies teams@.contains(
                    #[trigger] upcoming_games@[k].home,
                ) && teams@.contains(upcoming_games@[k].away) by {
                    if k < j {
                        assert(known.contains(upcoming_games@[k].home));
                        assert(known.contains(upcoming_games@[k].away));
                        assert(middle.contains(upcoming_games@[k].home));
                        assert(middle.contains(upcoming_games@[k].away));
                    } else {
                        assert(middle.contains(game.home));
                    }
                }
                assert forall|k: int| 0 <= k < played_games@.len() implies teams@.contains(
                    #[trigger] played_games@[k].home,
                ) && teams@.contains(played_games@[k].away) by {
                    assert(known.contains(played_games@[k].home));
                    assert(known.contains(played_games@[k].away));
                    assert(middle.contains(played_games@[k].home));
                    assert(middle.contains(played_games@[k].away));
                }
            }
            j += 1;
        }
        assert(upcoming_games@.take(j as int) == upcoming_games@);
        Ok(Group { teams, played_games, upcoming_games })
    }

    /// The teams of the group, each once.
    pub fn team_ids(&self) -> (teams: &Vec<TeamId>)
        ensures
            teams@ == self.teams(),
            self.wf(),
    {
        proof {
            use_type_invariant(self);
        }
        &self.teams
    }

    /// The games that have been played.
    pub fn played_games(&self) -> (games: &Vec<PlayedGroupGame>)
        ensures
            games@ == self.played(),
            self.wf(),
    {
        proof {
            use_type_invariant(self);
        }
        &self.played_games
    }

    /// The games that are still to be played.
    pub fn upcoming_games(&self) -> (games: &Vec<UnplayedGroupGame>)
        ensures
            games@ == self.upcoming(),
            self.wf(),
    {
        proof {
            use_type_invariant(self);
        }
        &self.upcoming_games
    }
}

} // verus!
