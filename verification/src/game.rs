//! Goals and scores of a single game.
use vstd::prelude::*;

verus! {

/// Number of goals one side scored in a game.
#[derive(Clone, Copy, Debug, PartialEq, Eq, Structural)]
pub struct GoalCount(pub u8);

/// Goals scored minus goals conceded, from one side's point of view.
#[derive(Clone, Copy, Debug, PartialEq, Eq, Structural)]
pub struct GoalDiff(pub i16);

/// Final score of a game.
#[derive(Clone, Copy, Debug, PartialEq, Eq, Structural)]
pub struct Score {
    pub home: GoalCount,
    pub away: GoalCount,
}

impl GoalCount {
    /// The margin by which `self` exceeds `conceded`.
    pub fn diff(self, conceded: GoalCount) -> (d: GoalDiff)
        ensures
            d.0 == self.0 - conceded.0,
    {
        let scored: i16 = self.0 as i16;
        let against: i16 = conceded.0 as i16;
        GoalDiff(scored - against)
    }
}

impl GoalDiff {
    /// The same margin seen from the other side.
    pub fn reversed(self) -> (d: GoalDiff)
        requires
            self.0 > i16::MIN,
        ensures
            d.0 == -self.0,
    {
        GoalDiff(-self.0)
    }
}

impl Score {
    pub open spec fn new_spec(home: u8, away: u8) -> Score {
        Score { home: GoalCount(home), away: GoalCount(away) }
    }

    #[verifier::when_used_as_spec(new_spec)]
    pub fn new(home: u8, away: u8) -> (s: Score)
        ensures
            s == Score::new_spec(home, away),
    {
        Score { home: GoalCount(home), away: GoalCount(away) }
    }
}

} // verus!
