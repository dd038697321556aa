//! Points in time at which games are played.
use vstd::prelude::*;

verus! {

/// Earliest instant a [`Date`] can hold, in seconds since the Unix epoch:
/// the first second of year 0000 in the easternmost admissible zone.
pub const MIN_SECONDS: i64 = -62_167_305_599;

/// Latest instant a [`Date`] can hold, in seconds since the Unix epoch: the
/// last second of year 9999 in the westernmost admissible zone.
pub const MAX_SECONDS: i64 = 253_402_387_198;

/// An instant together with the offset from UTC of the place it is read in.
///
/// The instant is held as non-leap seconds since 1970-01-01T00:00:00Z plus
/// nanoseconds within the second; a leap second is written as the 59th
/// second of its minute with a nanosecond part of 1,000,000,000 or more.
#[derive(Clone, Copy, Debug, PartialEq, Eq, Structural)]
pub struct Date {
    seconds: i64,
    nanos: u32,
    offset: i32,
}

/// Whether the three numbers describe an instant that a [`Date`] may hold.
pub open spec fn valid_date(seconds: int, nanos: int, offset: int) -> bool {
    &&& MIN_SECONDS <= seconds <= MAX_SECONDS
    &&& 0 <= nanos < 2_000_000_000
    &&& nanos >= 1_000_000_000 ==> seconds % 60 == 59
    &&& -86_400 < offset < 86_400
}

impl Date {
    #[verifier::type_invariant]
    spec fn inv(&self) -> bool {
        valid_date(self.seconds as int, self.nanos as int, self.offset as int)
    }

    /// Seconds since the Unix epoch.
    pub closed spec fn seconds(&self) -> int {
        self.seconds as int
    }

    /// Nanoseconds since the last whole second.
    pub closed spec fn nanos(&self) -> int {
        self.nanos as int
    }

    /// Seconds to add to UTC to get the local time.
    pub closed spec fn offset(&self) -> int {
        self.offset as int
    }

    /// Builds a date from three numbers that describe an admissible instant.
    pub fn new(seconds: i64, nanos: u32, offset: i32) -> (date: Date)
        requires
            valid_date(seconds as int, nanos as int, offset as int),
        ensures
            date.seconds() == seconds,
            date.nanos() == nanos,
            date.offset() == offset,
    {
        Date { seconds, nanos, offset }
    }

    /// Builds a date from its three numbers, if they describe an admissible
    /// instant.
    pub fn try_new(seconds: i64, nanos: u32, offset: i32) -> (date: Option<Date>)
        ensures
            date is Some <==> valid_date(seconds as int, nanos as int, offset as int),
            date matches Some(d) ==> d.seconds() == seconds && d.nanos() == nanos && d.offset()
                == offset,
    {
        if seconds < MIN_SECONDS || seconds > MAX_SECONDS {
            return None;
        }
        // Shifted by a whole number of minutes so that the remainder is
        // taken of a positive number.
        let shifted: i64 = seconds + 62_167_305_600;
        assert(shifted % 60 == seconds % 60) by {
            assert(62_167_305_600int == 60 * 1_036_121_760);
        }
        if nanos >= 2_000_000_000 || (nanos >= 1_000_000_000 && shifted % 60 != 59) {
            return None;
        }
        if offset <= -86_400 || offset >= 86_400 {
            return None;
        }
        Some(Date { seconds, nanos, offset })
    }

    /// A fixed date for use where the date does not matter:
    /// 2018-06-14T18:00:00+03:00.
    pub closed spec fn mock_spec() -> Date {
        Date { seconds: 1_528_988_400, nanos: 0, offset: 10_800 }
    }

    /// A fixed date for use where the date does not matter:
    /// 2018-06-14T18:00:00+03:00.
    #[verifier::when_used_as_spec(mock_spec)]
    pub fn mock() -> (date: Date)
        ensures
            date == Date::mock_spec(),
            date.seconds() == 1_528_988_400,
            date.nanos() == 0,
            date.offset() == 10_800,
    {
        Date { seconds: 1_528_988_400, nanos: 0, offset: 10_800 }
    }

    /// Seconds since the Unix epoch. Every date holds an admissible instant.
    pub fn timestamp(&self) -> (s: i64)
        ensures
            s == self.seconds(),
            valid_date(self.seconds(), self.nanos(), self.offset()),
    {
        proof {
            use_type_invariant(self);
        }
        self.seconds
    }

    pub fn subsec_nanos(&self) -> (n: u32)
        ensures
            n == self.nanos(),
    {
        self.nanos
    }

    pub fn offset_seconds(&self) -> (o: i32)
        ensures
            o == self.offset(),
    {
        self.offset
    }
}

} // verus!
