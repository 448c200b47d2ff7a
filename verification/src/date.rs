//! Rendering of a modification timestamp as a short date string such as
//! "Thu, Jan  1 1970": abbreviated weekday, comma, abbreviated month,
//! space-padded day of month, four-digit year, all in UTC.

use vstd::prelude::*;

verus! {

/// The largest number of seconds since the Unix epoch that a timestamp may
/// carry: the last second of year 9999, comfortably inside the range that
/// the date library accepts.
pub const MAX_TIMESTAMP_SECS: u64 = 253402300799;

/// The date string that a timestamp of `secs` seconds since the Unix epoch
/// renders to. Its exact text is decided by the date library; it depends on
/// `secs` alone.
pub uninterp spec fn date_string_of(secs: int) -> Seq<char>;

/// Relies on chrono's `DateTime::<Utc>::from_timestamp`, which returns
/// `Some` for every second count up to `MAX_TIMESTAMP_SECS`, and on its
/// `format`, whose output is a function of the timestamp alone.
#[verifier::external_body]
pub fn format_timestamp(secs: u64) -> (r: String)
    requires
        secs <= MAX_TIMESTAMP_SECS,
    ensures
        r@ == date_string_of(secs as int),
{
    let dt = chrono::DateTime::<chrono::Utc>::from_timestamp(secs as i64, 0).unwrap();
    dt.format("%a, %b %e %Y").to_string()
}

} // verus!
