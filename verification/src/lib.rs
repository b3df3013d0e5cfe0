//! A personal time-tracking library: projects made of tasks, tasks made of
//! timed sessions. `model` holds the record types and their invariants,
//! `lifecycle` the resume/finish/status operations over them, and `codec`
//! the stored textual form with a proved parse/serialize round trip.
//! All I/O — the command line, the clock display, the files on disk —
//! stays outside; callers hand in plain values and get plain values back.

pub mod codec;
pub mod ext;
pub mod lifecycle;
pub mod model;

use vstd::prelude::*;

verus! {

/// Latest timestamp the library represents: 9999-12-31 23:59:59 UTC,
/// in seconds since the Unix epoch. Keeping timestamps in this range
/// keeps the serialized date-time form at four-digit years.
pub const TS_MAX: i64 = 253_402_300_799;

/// Clamp an arbitrary clock reading into the representable range.
pub fn clamp_ts(t: i64) -> (r: i64)
    ensures
        0 <= r <= TS_MAX,
        0 <= t <= TS_MAX ==> r == t,
{
    if t < 0 {
        0
    } else if t > TS_MAX {
        TS_MAX
    } else {
        t
    }
}

} // verus!
