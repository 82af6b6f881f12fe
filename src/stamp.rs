//! Arrival offsets from the feed's pair of timestamps.

use vstd::prelude::*;

verus! {

/// The layout of both timestamps in the feed: `YYYYMMDD HH:MM:SS`, with no
/// time zone.
pub const STAMP_FORMAT: &'static str = "%Y%m%d %H:%M:%S";

/// What chrono gives for the pair of texts `seen` and `due`, both read in
/// layout `fmt` as naive date-times: the whole seconds from the first to the
/// second, or `None` where either text does not match `fmt`.
pub uninterp spec fn chrono_offset(seen: Seq<char>, due: Seq<char>, fmt: Seq<char>) -> Option<i64>;

/// Relies on chrono's `NaiveDateTime::parse_from_str` to read both texts in
/// layout `fmt`, and on `signed_duration_since(..).num_seconds()` for the
/// whole seconds between them.
#[verifier::external_body]
fn chrono_seconds_between(seen: &str, due: &str, fmt: &str) -> (r: Option<i64>)
    ensures
        r == chrono_offset(seen@, due@, fmt@),
{
    let parsed = (
        chrono::NaiveDateTime::parse_from_str(seen, fmt),
        chrono::NaiveDateTime::parse_from_str(due, fmt),
    );
    match parsed {
        (Ok(a), Ok(b)) => Some(b.signed_duration_since(a).num_seconds()),
        _ => None,
    }
}

/// Seconds from the observation time `tmstmp` to the predicted arrival time
/// `prdtm`, both in `STAMP_FORMAT`, or `None` when either does not read.
pub open spec fn offset_of(tmstmp: Seq<char>, prdtm: Seq<char>) -> Option<i64> {
    chrono_offset(tmstmp, prdtm, STAMP_FORMAT@)
}

/// Whole seconds until arrival: the predicted time minus the observation
/// time, both read in `STAMP_FORMAT`. `None` when either fails to read.
pub fn arrival_offset(tmstmp: &str, prdtm: &str) -> (r: Option<i64>)
    ensures
        r == offset_of(tmstmp@, prdtm@),
{
    chrono_seconds_between(tmstmp, prdtm, STAMP_FORMAT)
}

} // verus!
