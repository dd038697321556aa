//! Disciplinary cards and the fair-play values derived from them.
use vstd::prelude::*;

verus! {

/// Cards shown to one side in one game.
#[derive(Clone, Copy, Debug, PartialEq, Eq, Structural)]
pub struct FairPlay {
    pub yellow: u8,
    pub indirect_red: u8,
    pub direct_red: u8,
    pub yellow_and_direct: u8,
}

/// Cards shown to both sides in one game.
#[derive(Clone, Copy, Debug, PartialEq, Eq, Structural)]
pub struct FairPlayScore {
    pub home: FairPlay,
    pub away: FairPlay,
}

/// Fair-play points under the FIFA weights. Cards only ever subtract, so the
/// value is never positive, and a greater value means better conduct.
#[derive(Clone, Copy, Debug, PartialEq, Eq, Structural)]
pub struct FifaFairPlayValue(pub i32);

/// Fair-play points under the UEFA weights. Never positive; a greater value
/// means better conduct.
#[derive(Clone, Copy, Debug, PartialEq, Eq, Structural)]
pub struct UefaFairPlayValue(pub i32);

impl FairPlay {
    pub fn new(yellow: u8, indirect_red: u8, direct_red: u8, yellow_and_direct: u8) -> (f: FairPlay)
        ensures
            f == (FairPlay { yellow, indirect_red, direct_red, yellow_and_direct }),
    {
        FairPlay { yellow, indirect_red, direct_red, yellow_and_direct }
    }

    /// No cards.
    pub open spec fn none() -> FairPlay {
        FairPlay { yellow: 0, indirect_red: 0, direct_red: 0, yellow_and_direct: 0 }
    }

    /// FIFA deducts 1 point for a yellow card, 3 for an indirect red, 4 for
    /// a direct red and 5 for a yellow followed by a direct red.
    pub open spec fn fifa_points(self) -> int {
        -(self.yellow + 3 * self.indirect_red + 4 * self.direct_red + 5 * self.yellow_and_direct)
    }

    /// UEFA deducts 1 point for a yellow card, 3 for either kind of red and
    /// 5 for a yellow followed by a direct red.
    pub open spec fn uefa_points(self) -> int {
        -(self.yellow + 3 * self.indirect_red + 3 * self.direct_red + 5 * self.yellow_and_direct)
    }

    pub fn fifa_value(&self) -> (v: FifaFairPlayValue)
        ensures
            v.0 == self.fifa_points(),
    {
        let y: i32 = self.yellow as i32;
        let ir: i32 = self.indirect_red as i32;
        let dr: i32 = self.direct_red as i32;
        let yd: i32 = self.yellow_and_direct as i32;
        FifaFairPlayValue(-(y + 3 * ir + 4 * dr + 5 * yd))
    }

    pub fn uefa_value(&self) -> (v: UefaFairPlayValue)
        ensures
            v.0 == self.uefa_points(),
    {
        let y: i32 = self.yellow as i32;
        let ir: i32 = self.indirect_red as i32;
        let dr: i32 = self.direct_red as i32;
        let yd: i32 = self.yellow_and_direct as i32;
        UefaFairPlayValue(-(y + 3 * ir + 3 * dr + 5 * yd))
    }
}

impl FairPlayScore {
    pub fn new(home: FairPlay, away: FairPlay) -> (s: FairPlayScore)
        ensures
            s == (FairPlayScore { home, away }),
    {
        FairPlayScore { home, away }
    }
}

impl Default for FairPlay {
    /// No cards.
    fn default() -> (f: FairPlay)
        ensures
            f == FairPlay::none(),
    {
        FairPlay { yellow: 0, indirect_red: 0, direct_red: 0, yellow_and_direct: 0 }
    }
}

impl Default for FairPlayScore {
    /// No cards on either side.
    fn default() -> (s: FairPlayScore)
        ensures
            s.home == FairPlay::none(),
            s.away == FairPlay::none(),
    {
        FairPlayScore { home: FairPlay::default(), away: FairPlay::default() }
    }
}

} // verus!
