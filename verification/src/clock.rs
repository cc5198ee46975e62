//! Rendering of wall-clock instants as RFC 3339 text.
//!
//! The device's clock hands the pipeline a Unix instant (seconds and
//! nanoseconds); observations carry that instant rendered as RFC 3339
//! text, the form in which it is served and forwarded.

use vstd::prelude::*;

verus! {

/// The RFC 3339 rendering of the UTC instant `secs` seconds plus `nanos`
/// nanoseconds after the Unix epoch. The rendering is a function of the
/// instant alone.
pub uninterp spec fn rfc3339_of(secs: int, nanos: int) -> Seq<char>;

/// Whether the instant lies in the range the calendar rendering covers:
/// in-range seconds and a valid nanosecond part. Determined by the
/// instant alone.
pub uninterp spec fn rfc3339_representable(secs: int, nanos: int) -> bool;

/// Relies on chrono's `DateTime::<Utc>::from_timestamp`, which returns
/// `Some` exactly on a representable instant (`None` on out-of-range
/// seconds or an invalid nanosecond part), and `DateTime::to_rfc3339`,
/// whose text depends on the instant alone and never fails.
#[verifier::external_body]
pub(crate) fn rfc3339_from_instant(secs: i64, nanos: u32) -> (r: Option<String>)
    ensures
        r is Some <==> rfc3339_representable(secs as int, nanos as int),
        r matches Some(s) ==> s@ == rfc3339_of(secs as int, nanos as int),
{
    match chrono::DateTime::<chrono::Utc>::from_timestamp(secs, nanos) {
        Some(d) => Some(d.to_rfc3339()),
        None => None,
    }
}

} // verus!
