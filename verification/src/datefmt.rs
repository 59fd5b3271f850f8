//! Trusted boundary around chrono: the release header's authorship date,
//! formatted as a full month-day-year line.

use vstd::prelude::*;

verus! {

/// Whether chrono accepts `secs` as a unix timestamp.
pub uninterp spec fn timestamp_in_range(secs: int) -> bool;

/// The "%B %e, %Y" rendering of the timestamp `secs`.
pub uninterp spec fn date_line_of(secs: int) -> Seq<char>;

/// Relies on chrono's `DateTime::<Utc>::from_timestamp`, which is `None`
/// exactly on an out-of-range number of seconds, and on formatting the
/// resulting date with "%B %e, %Y" (a full month name, day, year line);
/// both are functions of the timestamp alone.
#[verifier::external_body]
pub(crate) fn format_date_line(secs: i64) -> (r: Option<String>)
    ensures
        r is Some <==> timestamp_in_range(secs as int),
        r matches Some(s) ==> s@ == date_line_of(secs as int),
{
    match chrono::DateTime::<chrono::Utc>::from_timestamp(secs, 0) {
        Some(t) => Some(t.format("%B %e, %Y").to_string()),
        None => None,
    }
}

} // verus!
