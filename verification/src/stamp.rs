//! Formatting of timestamps, which the `chrono` crate does.

use vstd::prelude::*;
use crate::model::Timestamp;

verus! {

/// The text that `chrono` writes for an instant under a `strftime` pattern,
/// or `None` where it writes none: the instant or the offset is outside the
/// range that `chrono` represents, or the pattern holds an item that
/// `chrono` cannot write for a date and time with an offset.
pub uninterp spec fn formatted_timestamp(
    seconds: i64,
    nanos: u32,
    offset_seconds: i32,
    pattern: Seq<char>,
) -> Option<Seq<char>>;

/// An optional string by its view.
pub open spec fn optional_text(text: Option<String>) -> Option<Seq<char>> {
    match text {
        Some(text) => Some(text@),
        None => None,
    }
}

/// Formats `stamp` under `pattern` with `chrono`.
///
/// The instant is built with `DateTime::from_timestamp`, moved into the zone
/// that `FixedOffset::east_opt` gives for the offset with
/// `DateTime::with_timezone`, and written with `DateTime::format` and
/// `DelayedFormat::write_to`. Nothing is claimed of the text but that it is
/// the one `chrono` gives for these values, the same on every call.
#[verifier::external_body]
pub(crate) fn format_timestamp(stamp: &Timestamp, pattern: &str) -> (out: Option<String>)
    ensures
        optional_text(out) == formatted_timestamp(
            stamp.seconds,
            stamp.nanos,
            stamp.offset_seconds,
            pattern@,
        ),
{
    let zone = chrono::FixedOffset::east_opt(stamp.offset_seconds)?;
    let instant = chrono::DateTime::from_timestamp(stamp.seconds, stamp.nanos)?;
    let mut text = String::new();
    match instant.with_timezone(&zone).format(pattern).write_to(&mut text) {
        Ok(()) => Some(text),
        Err(_) => None,
    }
}

} // verus!
