//! Day numbers: whole days since the Unix epoch, held in 16 bits.
use vstd::prelude::*;

verus! {

/// Seconds in one day.
pub const SECONDS_PER_DAY: i64 = 86400;

/// The day number of a Unix timestamp (seconds), by integer division that
/// truncates toward zero; `None` where the quotient does not fit in a `u16`.
pub open spec fn day_of(ts: int) -> Option<u16> {
    if -86400 < ts && ts < 65536 * 86400 {
        Some((if ts < 0 { 0 } else { ts / 86400 }) as u16)
    } else {
        None
    }
}

/// The day number of a Unix timestamp, or `None` where it cannot be held.
pub fn timestamp_to_uday(ts: i64) -> (r: Option<u16>)
    ensures
        r == day_of(ts as int),
{
    if ts <= -SECONDS_PER_DAY || ts >= 65536 * SECONDS_PER_DAY {
        None
    } else if ts < 0 {
        Some(0)
    } else {
        let q: u64 = (ts as u64) / (SECONDS_PER_DAY as u64);
        Some(q as u16)
    }
}

/// The `YYYY-MM-DD` calendar date (UTC) on which a day number falls.
pub uninterp spec fn calendar_label_of(day: u16) -> Seq<char>;

/// Relies on time's `OffsetDateTime::UNIX_EPOCH` plus `Duration::days`, on
/// `format_description::parse_borrowed` (version 1) of `[year]-[month]-[day]`, and on
/// `OffsetDateTime::format`: the UTC calendar date `day` days after the
/// epoch. Every day number lies within the years time accepts, and the
/// description asks only for the date, which the value has.
#[verifier::external_body]
pub(crate) fn uday_to_date(day: u16) -> (r: String)
    ensures
        r@ == calendar_label_of(day),
{
    let at = time::OffsetDateTime::UNIX_EPOCH + time::Duration::days(day as i64);
    let description = time::format_description::parse_borrowed::<1>("[year]-[month]-[day]").unwrap();
    at.format(&description).unwrap()
}

} // verus!
