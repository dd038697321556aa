//! Teams and the identifiers and ranks that stand for them.
use vstd::prelude::*;

verus! {

/// Identifies a team. Two identifiers name the same team exactly when they
/// are equal; their numeric order carries no meaning.
#[derive(Clone, Copy, Debug, PartialEq, Eq, Structural, Hash)]
pub struct TeamId(pub u8);

/// Position of a team in an externally maintained ranking. A lower number is
/// a better rank.
#[derive(Clone, Copy, Debug, PartialEq, Eq, Structural)]
pub struct TeamRank(pub u8);

/// Full name of a team.
#[derive(Clone, Debug)]
pub struct TeamName(pub String);

/// Three-letter FIFA country code.
#[derive(Clone, Debug)]
pub struct FifaCode(pub String);

/// Two-letter ISO 3166 country code.
#[derive(Clone, Debug)]
pub struct Iso2(pub String);

/// A team with its descriptive data.
#[derive(Clone, Debug)]
pub struct Team {
    pub id: TeamId,
    pub name: TeamName,
    pub fifa_code: FifaCode,
    pub iso2: Iso2,
    pub rank: TeamRank,
}

} // verus!
