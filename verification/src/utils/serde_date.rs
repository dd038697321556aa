//! Custom serialization of dates
//!
//! A date is written as an RFC 3339 date and time string such as
//! `1996-12-19T16:39:57-08:00`, and read back from one. The text is made
//! and taken apart by the `chrono` crate.
use crate::date::{valid_date, Date};
use vstd::prelude::*;

verus! {

/// The error of `chrono` when a text is not a date.
#[verifier::external_type_specification]
#[verifier::external_body]
pub struct ExParseError(chrono::ParseError);

/// The RFC 3339 text that `chrono` writes for the instant of `seconds` and
/// `nanos` in the zone that is `offset` seconds east of UTC.
pub uninterp spec fn rfc3339_text(seconds: int, nanos: int, offset: int) -> Seq<char>;

/// The instant and offset that `chrono` reads from an RFC 3339 text, as
/// seconds, nanoseconds and offset, or nothing where the text is no such
/// date.
pub uninterp spec fn rfc3339_date(text: Seq<char>) -> Option<(int, int, int)>;

/// A text that is no date, with what `chrono` has to say about it.
#[derive(Debug)]
pub struct DateError {
    pub message: String,
}

/// Calls `DateTime::to_rfc3339` of `chrono` on the date and time that
/// `FixedOffset::east_opt`, `DateTime::from_timestamp` and
/// `DateTime::with_timezone` make of the three numbers. For numbers that
/// are a valid date the first two return a value, and the text is a
/// function of the numbers alone.
#[verifier::external_body]
fn to_rfc3339(seconds: i64, nanos: u32, offset: i32) -> (text: String)
    requires
        valid_date(seconds as int, nanos as int, offset as int),
    ensures
        text@ == rfc3339_text(seconds as int, nanos as int, offset as int),
{
    let zone = chrono::FixedOffset::east_opt(offset).unwrap();
    chrono::DateTime::from_timestamp(seconds, nanos).unwrap().with_timezone(&zone).to_rfc3339()
}

/// Calls `DateTime::parse_from_rfc3339` of `chrono` and takes the date
/// apart with `DateTime::timestamp`, `DateTime::timestamp_subsec_nanos`
/// and `FixedOffset::local_minus_utc`. Whether the text is a date and which
/// one is a function of the text alone. A date that is read has a year of
/// four digits and an offset of less than a day, and holds a leap second
/// only as the last second of a minute: its numbers are a valid date.
#[verifier::external_body]
fn parse_from_rfc3339(text: &str) -> (parsed: Result<(i64, u32, i32), chrono::ParseError>)
    ensures
        parsed is Ok <==> rfc3339_date(text@) is Some,
        parsed matches Ok(p) ==> rfc3339_date(text@) == Some((p.0 as int, p.1 as int, p.2 as int))
            && valid_date(p.0 as int, p.1 as int, p.2 as int),
{
    match chrono::DateTime::parse_from_rfc3339(text) {
        Ok(d) => Ok((d.timestamp(), d.timestamp_subsec_nanos(), d.offset().local_minus_utc())),
        Err(e) => Err(e),
    }
}

/// Writes out, with `format!`, what `chrono` has to say about a text that
/// is no date. Nothing is claimed of the words.
#[verifier::external_body]
fn describe(error: &chrono::ParseError) -> (message: String) {
    format!("{}", error)
}

/// The date as an RFC 3339 text.
pub fn serialize(date: &Date) -> (text: String)
    ensures
        text@ == rfc3339_text(date.seconds(), date.nanos(), date.offset()),
{
    let seconds = date.timestamp();
    to_rfc3339(seconds, date.subsec_nanos(), date.offset_seconds())
}

/// The date that an RFC 3339 text stands for. Fails exactly when the text
/// is no such date.
pub fn deserialize(text: &str) -> (date: Result<Date, DateError>)
    ensures
        date is Ok <==> rfc3339_date(text@) is Some,
        date matches Ok(d) ==> rfc3339_date(text@) == Some((d.seconds(), d.nanos(), d.offset())),
{
    match parse_from_rfc3339(text) {
        Ok(parts) => Ok(Date::new(parts.0, parts.1, parts.2)),
        Err(error) => Err(DateError { message: describe(&error) }),
    }
}

} // verus!
