//! Time: reading the timestamp of a record, the hour bucket it falls in,
//! and the texts that the `chrono` crate renders for file names and
//! durations.

use crate::pattern::{opt_text, regex_first_group, Pattern};
use chrono::{DateTime, NaiveDateTime, TimeDelta};
use vstd::prelude::*;

verus! {

/// Milliseconds in one hour bucket.
pub const BUCKET_MILLIS: i64 = 3_600_000;

/// Seconds in one hour bucket.
pub const BUCKET_SECONDS: i64 = 3_600;

/// The time that `text` denotes when read by the format `format`, in
/// milliseconds since the epoch: the result of
/// `chrono::NaiveDateTime::parse_from_str`, `None` where that fails.
pub uninterp spec fn parsed_millis(text: Seq<char>, format: Seq<char>) -> Option<i64>;

/// The text that `chrono` renders for the time `seconds` after the epoch
/// under the format `pattern`; `None` when the time is out of range or the
/// format cannot be rendered.
pub uninterp spec fn formatted_time(seconds: i64, pattern: Seq<char>) -> Option<Seq<char>>;

/// The text that `chrono` displays for a duration of `millis` milliseconds.
pub uninterp spec fn duration_text(millis: i64) -> Option<Seq<char>>;

/// Calls `chrono::NaiveDateTime::parse_from_str` and converts the time to
/// milliseconds since the epoch. Trusted: the result is the named reading
/// of `text` under `format`.
#[verifier::external_body]
fn parse_millis(text: &str, format: &str) -> (r: Option<i64>)
    ensures
        r == parsed_millis(text@, format@),
{
    match NaiveDateTime::parse_from_str(text, format) {
        Ok(time) => Some(time.and_utc().timestamp_millis()),
        Err(_) => None,
    }
}

/// Calls `chrono::DateTime::from_timestamp` and renders the time through
/// `chrono::NaiveDateTime::format`. Trusted: the result is the named
/// rendering of `seconds` under `pattern`.
#[verifier::external_body]
fn format_seconds(seconds: i64, pattern: &str) -> (r: Option<String>)
    ensures
        opt_text(r) == formatted_time(seconds, pattern@),
{
    let time = DateTime::from_timestamp(seconds, 0)?.naive_utc();
    let mut out = String::new();
    match time.format(pattern).write_to(&mut out) {
        Ok(()) => Some(out),
        Err(_) => None,
    }
}

/// Calls `chrono::TimeDelta::try_milliseconds` and displays the duration.
/// Trusted: the result is the named text, and there is one for every
/// duration but the least `i64`, the only one `chrono` cannot hold.
#[verifier::external_body]
fn display_millis(millis: i64) -> (r: Option<String>)
    ensures
        opt_text(r) == duration_text(millis),
        millis > i64::MIN ==> r is Some,
{
    match TimeDelta::try_milliseconds(millis) {
        Some(delta) => Some(delta.to_string()),
        None => None,
    }
}

/// The hour bucket of a time: the number of whole hours from the epoch to
/// it, rounded down.
pub open spec fn bucket_key(millis: int) -> int {
    millis / (BUCKET_MILLIS as int)
}

/// The hour bucket that `millis` falls in.
pub fn bucket_of(millis: i64) -> (hour: i64)
    ensures
        hour == bucket_key(millis as int),
{
    if millis >= 0 {
        millis / BUCKET_MILLIS
    } else {
        let below: i64 = -(millis + 1);
        -(below / BUCKET_MILLIS) - 1
    }
}

/// The second at which the bucket `hour` begins, where an `i64` holds it.
pub open spec fn bucket_start(hour: i64) -> Option<i64> {
    if i64::MIN <= hour * BUCKET_SECONDS <= i64::MAX {
        Some((hour * BUCKET_SECONDS) as i64)
    } else {
        None
    }
}

/// The second at which the bucket `hour` begins.
pub fn start_of_bucket(hour: i64) -> (r: Option<i64>)
    ensures
        r == bucket_start(hour),
{
    hour.checked_mul(BUCKET_SECONDS)
}

/// The timestamp of a record: what group 1 of the start pattern captures,
/// read by the time format.
pub open spec fn record_millis(pattern: Seq<char>, format: Seq<char>, text: Seq<char>) -> Option<
    i64,
> {
    match regex_first_group(pattern, text) {
        Some(stamp) => parsed_millis(stamp, format),
        None => None,
    }
}

/// Reads the timestamp of the record `text`, in milliseconds since the
/// epoch. `None` when the pattern captures nothing in `text` or the format
/// cannot read what it captured.
pub fn read_millis(pattern: &Pattern, format: &str, text: &str) -> (r: Option<i64>)
    ensures
        r == record_millis(pattern@, format@, text@),
{
    match pattern.capture(text) {
        Some(stamp) => parse_millis(stamp.as_str(), format),
        None => None,
    }
}

/// The name of the destination for a bucket: the name pattern rendered for
/// the start of the bucket.
pub open spec fn rendered_name(pattern: Seq<char>, hour: i64) -> Option<Seq<char>> {
    match bucket_start(hour) {
        Some(seconds) => formatted_time(seconds, pattern),
        None => None,
    }
}

/// Renders the name pattern for the start of the bucket `hour`.
pub fn render_name(pattern: &str, hour: i64) -> (r: Option<String>)
    ensures
        opt_text(r) == rendered_name(pattern@, hour),
{
    match start_of_bucket(hour) {
        Some(seconds) => format_seconds(seconds, pattern),
        None => None,
    }
}

/// The text of an elapsed time of `millis` milliseconds.
pub fn elapsed_text(millis: i64) -> (r: Option<String>)
    ensures
        opt_text(r) == duration_text(millis),
        millis > i64::MIN ==> r is Some,
{
    display_millis(millis)
}

} // verus!
