//! Date-times on the wire, in the spelling of RFC 3339.
use vstd::prelude::*;
use crate::git::dates::Timestamp;

verus! {

/// The text that `chrono::DateTime::to_rfc3339_opts` gives for whole seconds
/// since the Unix epoch, with a `Z`, if `chrono` can represent them.
pub uninterp spec fn seconds_text(unix: i64) -> Option<Seq<char>>;

/// The instant that `chrono::DateTime::parse_from_rfc3339` reads, if it does.
pub uninterp spec fn instant_in(raw: Seq<char>) -> Option<Timestamp>;

/// The text that `chrono::DateTime::to_rfc3339` gives for an instant in UTC,
/// if `chrono` can represent it.
pub uninterp spec fn instant_text(seconds: i64, nanos: u32) -> Option<Seq<char>>;

/// Whether an instant lies in the years 0 to 9999, which take four digits.
pub open spec fn has_plain_year(unix: i64) -> bool {
    -62167219200 <= unix <= 253402300799
}

/// `chrono::DateTime::from_timestamp` and `to_rfc3339_opts`, in whole seconds
/// and with a `Z`.
///
/// Claims that the text depends on the seconds alone, and that in the years 0
/// to 9999 there is one, from which the seconds are read back.
#[verifier::external_body]
fn spell_seconds(unix: i64) -> (result: Option<String>)
    ensures
        match result {
            Some(text) => {
                &&& seconds_text(unix) == Some(text@)
                &&& has_plain_year(unix) ==> instant_in(text@) == Some(
                    Timestamp { seconds: unix, nanos: 0 },
                )
            },
            None => seconds_text(unix) is None && !has_plain_year(unix),
        },
{
    chrono::DateTime::<chrono::Utc>::from_timestamp(unix, 0)
        .map(|at| at.to_rfc3339_opts(chrono::SecondsFormat::Secs, true))
}

/// `chrono::DateTime::parse_from_rfc3339`, as an instant.
///
/// Claims that the outcome depends on the text alone.
#[verifier::external_body]
pub(crate) fn read_instant(raw: &str) -> (result: Option<Timestamp>)
    ensures
        result == instant_in(raw@),
{
    chrono::DateTime::parse_from_rfc3339(raw).ok().map(
        |at| Timestamp { seconds: at.timestamp(), nanos: at.timestamp_subsec_nanos() },
    )
}

/// `chrono::DateTime::from_timestamp` and `to_rfc3339`.
///
/// Claims that the text depends on the instant alone.
#[verifier::external_body]
pub(crate) fn spell_instant(seconds: i64, nanos: u32) -> (result: Option<String>)
    ensures
        match result {
            Some(text) => instant_text(seconds, nanos) == Some(text@),
            None => instant_text(seconds, nanos) is None,
        },
{
    chrono::DateTime::<chrono::Utc>::from_timestamp(seconds, nanos).map(|at| at.to_rfc3339())
}

/// The text of seconds since the Unix epoch; empty where there is none.
pub open spec fn formatted(unix: i64) -> Seq<char> {
    match seconds_text(unix) {
        Some(text) => text,
        None => Seq::empty(),
    }
}

/// The seconds since the Unix epoch that a text spells, at any offset.
pub open spec fn parsed(raw: Seq<char>) -> Option<i64> {
    match instant_in(raw) {
        Some(at) => Some(at.seconds),
        None => None,
    }
}

/// Spells seconds since the Unix epoch as a date-time with a `Z`. What is
/// spelled in the years 0 to 9999 reads back as it was.
pub fn format(unix: i64) -> (result: String)
    ensures
        result@ == formatted(unix),
        has_plain_year(unix) ==> parsed(result@) == Some(unix),
{
    match spell_seconds(unix) {
        Some(text) => text,
        None => String::new(),
    }
}

/// Reads a date-time as seconds since the Unix epoch.
pub fn parse(raw: &str) -> (result: Option<i64>)
    ensures
        result == parsed(raw@),
{
    match read_instant(raw) {
        Some(at) => Some(at.seconds),
        None => None,
    }
}

/// The time of a commit: the epoch where it cannot be represented.
pub fn timestamp_from_git_time(seconds: i64) -> (result: i64)
    ensures
        result == if seconds_text(seconds) is Some {
            seconds
        } else {
            0
        },
{
    if spell_seconds(seconds).is_some() {
        seconds
    } else {
        0
    }
}

} // verus!
