//! Timestamps as text.

use vstd::prelude::*;

verus! {

/// The least timestamp that can be written down: the first second of the year -9999.
pub const MIN_TIMESTAMP: i64 = -377_705_116_800;

/// The greatest timestamp that can be written down: the last second of the year 9999.
pub const MAX_TIMESTAMP: i64 = 253_402_300_799;

/// How a timestamp is written down, in the format description language of `time`: the date,
/// the time of day, and the note that both are in UTC.
pub const TIMESTAMP_FORMAT: &'static str = "[year]-[month]-[day] [hour]:[minute]:[second] (UTC)";

/// The text of a timestamp, in seconds since the UNIX epoch, as the description asks for it:
/// its date and time in UTC, each component where the description names it. There is no text
/// where the timestamp cannot be written down or `description` is no format description.
pub uninterp spec fn spec_timestamp_text(timestamp: int, description: Seq<char>) -> Option<
    Seq<char>,
>;

/// The text of a timestamp as the description asks for it.
///
/// Trusted: `OffsetDateTime::from_unix_timestamp`, `format_description::parse` and
/// `OffsetDateTime::format` of `time`, one after the other. The text, or that there is none,
/// depends on the timestamp and the description alone and is named `spec_timestamp_text`.
/// The first call refuses the timestamps before the year -9999 and after the year 9999.
#[verifier::external_body]
fn timestamp_text(timestamp: i64, description: &str) -> (r: Option<String>)
    ensures
        match r {
            Some(text) => spec_timestamp_text(timestamp as int, description@) == Some(text@),
            None => spec_timestamp_text(timestamp as int, description@) is None,
        },
        !(MIN_TIMESTAMP <= timestamp <= MAX_TIMESTAMP) ==> r is None,
{
    let time = ::time::OffsetDateTime::from_unix_timestamp(timestamp).ok()?;
    let items = ::time::format_description::parse(description).ok()?;
    time.format(&items).ok()
}

/// Writes a timestamp down as its date and time in UTC, in the format
/// [`TIMESTAMP_FORMAT`].
pub fn format_unix_timestamp(timestamp: i64) -> (r: String)
    requires
        spec_timestamp_text(timestamp as int, TIMESTAMP_FORMAT@) is Some,
    ensures
        spec_timestamp_text(timestamp as int, TIMESTAMP_FORMAT@) == Some(r@),
        MIN_TIMESTAMP <= timestamp <= MAX_TIMESTAMP,
{
    match timestamp_text(timestamp, TIMESTAMP_FORMAT) {
        Some(text) => text,
        None => vstd::pervasive::unreached(),
    }
}

/// Writes a timestamp down as its date and time in UTC, in the format
/// [`TIMESTAMP_FORMAT`], if it has a text in that format. No timestamp before the year
/// -9999 or after the year 9999 has one.
pub fn try_format_unix_timestamp(timestamp: i64) -> (r: Option<String>)
    ensures
        match r {
            Some(text) => spec_timestamp_text(timestamp as int, TIMESTAMP_FORMAT@) == Some(text@)
                && MIN_TIMESTAMP <= timestamp <= MAX_TIMESTAMP,
            None => spec_timestamp_text(timestamp as int, TIMESTAMP_FORMAT@) is None,
        },
{
    match timestamp_text(timestamp, TIMESTAMP_FORMAT) {
        Some(_) => Some(format_unix_timestamp(timestamp)),
        None => None,
    }
}

} // verus!
