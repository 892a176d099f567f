//! Instants and their texts: calendar days in UTC, timestamps of RFC 3339

use vstd::prelude::*;

verus! {

/// The text of the instant `nanos` (nanoseconds since the Unix epoch), taken
/// as a date and time in UTC and written as the format description
/// `description` says; where the instant has no such text, the words in which
/// the crate `time` says why.
pub uninterp spec fn utc_text(nanos: int, description: Seq<char>) -> Result<Seq<char>, Seq<char>>;

/// `OffsetDateTime::from_unix_timestamp_nanos`, `format_description::parse` and
/// `OffsetDateTime::format` of the crate `time`: the text of an instant in UTC
/// under a format description. It fails, with the crate's message, where the
/// description is malformed, where the instant is outside of the dates that
/// the crate can hold, and where the crate cannot write it.
#[verifier::external_body]
fn format_utc(nanos: i128, description: &str) -> (text: Result<String, String>)
    ensures
        utc_text(nanos as int, description@) == match text {
            Ok(t) => Ok::<Seq<char>, Seq<char>>(t@),
            Err(e) => Err::<Seq<char>, Seq<char>>(e@),
        },
{
    let items = time::format_description::parse(description).map_err(|e| e.to_string())?;
    let at = time::OffsetDateTime::from_unix_timestamp_nanos(nanos).map_err(|e| e.to_string())?;
    at.format(&items).map_err(|e| e.to_string())
}

/// The calendar day in UTC of an instant, as `YYYY-MM-DD`, or why the instant
/// has no such day.
pub open spec fn day_text(nanos: int) -> Result<Seq<char>, Seq<char>> {
    utc_text(nanos, "[year]-[month]-[day]"@)
}

/// The calendar day in UTC of an instant, as `YYYY-MM-DD`; an error where the
/// instant has no such day.
pub fn day_of(nanos: i128) -> (day: Result<String, String>)
    ensures
        day_text(nanos as int) == match day {
            Ok(t) => Ok::<Seq<char>, Seq<char>>(t@),
            Err(e) => Err::<Seq<char>, Seq<char>>(e@),
        },
{
    format_utc(nanos, "[year]-[month]-[day]")
}

/// The instant, in nanoseconds since the Unix epoch, that a text names as a
/// timestamp of RFC 3339; where the text is no such timestamp, the words in
/// which the crate `time` says why.
pub uninterp spec fn rfc3339_nanos(text: Seq<char>) -> Result<int, Seq<char>>;

/// `OffsetDateTime::parse` with the format `Rfc3339`, and
/// `OffsetDateTime::unix_timestamp_nanos`, of the crate `time`: the instant of
/// a timestamp of RFC 3339. It fails, with the crate's message, where the text
/// is no such timestamp.
#[verifier::external_body]
pub(crate) fn parse_rfc3339(text: &str) -> (nanos: Result<i128, String>)
    ensures
        rfc3339_nanos(text@) == match nanos {
            Ok(n) => Ok::<int, Seq<char>>(n as int),
            Err(e) => Err::<int, Seq<char>>(e@),
        },
{
    let format = time::format_description::well_known::Rfc3339;
    let at = time::OffsetDateTime::parse(text, &format).map_err(|e| e.to_string())?;
    Ok(at.unix_timestamp_nanos())
}

} // verus!
