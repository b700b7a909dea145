//! Instants and the text that stands for them. `chrono` reads and writes the
//! text.

use vstd::prelude::*;

verus! {

/// A point in time: whole seconds since 1970 in UTC, and nanoseconds on top.
pub type Instant = (i64, u32);

/// The instant that `chrono::DateTime::parse_from_rfc3339` reads out of a
/// text, and nothing where it reports an error.
pub uninterp spec fn instant_of(text: Seq<char>) -> Option<(i64, u32)>;

/// What `chrono` writes for a number of milliseconds since 1970 under the
/// pattern `%Y-%m-%dT%H:%M:%S%.3fZ`, and nothing where the number is out of
/// its range.
pub uninterp spec fn stamp_of(millis: i64) -> Option<Seq<char>>;

/// Calls `chrono::DateTime::parse_from_rfc3339` and takes the seconds and the
/// nanoseconds of what it returns, which do not depend on the offset in the
/// text.
#[verifier::external_body]
pub(crate) fn parse_instant(text: &str) -> (at: Option<(i64, u32)>)
    ensures
        at == instant_of(text@),
{
    chrono::DateTime::parse_from_rfc3339(text).ok().map(
        |at| (at.timestamp(), at.timestamp_subsec_nanos()),
    )
}

/// The first millisecond of the year 0 and the first of the year 10000: between
/// them a stamp has a year of four digits, as RFC 3339 asks.
pub open spec fn has_four_digit_year(millis: i64) -> bool {
    -62_167_219_200_000 <= millis && millis < 253_402_300_800_000
}

/// Calls `chrono::DateTime::from_timestamp_millis` and formats what it returns.
/// A stamp with a year of four digits is read back by
/// `chrono::DateTime::parse_from_rfc3339` as the same millisecond.
#[verifier::external_body]
pub(crate) fn format_millis(millis: i64) -> (stamp: Option<String>)
    ensures
        stamp_of(millis) == (match stamp {
            Some(stamp) => Some(stamp@),
            None => None::<Seq<char>>,
        }),
        has_four_digit_year(millis) ==> (stamp matches Some(stamp) && instant_of(stamp@) == Some(
            ((millis as int / 1000) as i64, ((millis as int % 1000) * 1_000_000) as u32),
        )),
{
    chrono::DateTime::from_timestamp_millis(millis).map(
        |at| at.format("%Y-%m-%dT%H:%M:%S%.3fZ").to_string(),
    )
}

/// Whether `a` is at or before `b`.
pub open spec fn not_after(a: Instant, b: Instant) -> bool {
    a.0 < b.0 || (a.0 == b.0 && a.1 <= b.1)
}

/// Whether `a` is at or before `b`.
pub fn is_not_after(a: Instant, b: Instant) -> (yes: bool)
    ensures
        yes == not_after(a, b),
{
    a.0 < b.0 || (a.0 == b.0 && a.1 <= b.1)
}

/// Instants are ordered by the nanoseconds since 1970 that they come to.
pub proof fn instants_are_ordered_by_their_nanoseconds(a: Instant, b: Instant)
    requires
        a.1 < 1_000_000_000,
        b.1 < 1_000_000_000,
    ensures
        not_after(a, b) <==> a.0 * 1_000_000_000 + a.1 <= b.0 * 1_000_000_000 + b.1,
{
}

} // verus!
