use vstd::prelude::*;

verus! {

/// The characters of the library's textual date-time rendering
/// (`%Y-%m-%d %H:%M:%S`, UTC) of a timestamp in seconds since the epoch.
/// The rendering depends on the timestamp alone; it is named here and
/// pinned down only by the two wrappers below.
pub uninterp spec fn ts_chars_of(t: int) -> Seq<char>;

/// Relies on chrono's `DateTime::<Utc>::from_timestamp` and `format`:
/// rendering a UTC timestamp with a fixed format string is a function of
/// the timestamp alone, and every timestamp in `[0, TS_MAX]` is within
/// chrono's supported range, so `from_timestamp` returns `Some` there.
#[verifier::external_body]
pub(crate) fn format_ts(t: i64) -> (r: Vec<char>)
    requires
        0 <= t <= crate::TS_MAX,
    ensures
        r@ == ts_chars_of(t as int),
{
    let dt = chrono::DateTime::<chrono::Utc>::from_timestamp(t, 0).unwrap();
    dt.format("%Y-%m-%d %H:%M:%S").to_string().chars().collect()
}

/// Relies on chrono's `NaiveDateTime::parse_from_str` with the same fixed
/// format string: parsing the rendering of a timestamp yields that
/// timestamp back (the format spells out every field of a naive UTC
/// date-time, so the mapping inverts on the rendered range).
#[verifier::external_body]
pub(crate) fn parse_ts(v: &Vec<char>) -> (r: Option<i64>)
    ensures
        forall|t: int|
            0 <= t <= crate::TS_MAX && v@ == #[trigger] ts_chars_of(t) ==> r == Some(t as i64),
{
    let s: String = v.iter().collect();
    match chrono::NaiveDateTime::parse_from_str(&s, "%Y-%m-%d %H:%M:%S") {
        Ok(d) => Some(d.and_utc().timestamp()),
        Err(_) => None,
    }
}

/// Relies on the standard library's `SystemTime` clock: a reading in
/// seconds since the Unix epoch, about which nothing is promised. Both
/// arms of `duration_since` are taken, so a clock set before the epoch
/// reads as zero instead of panicking.
#[verifier::external_body]
pub(crate) fn now_seconds() -> i64 {
    match std::time::SystemTime::now().duration_since(std::time::UNIX_EPOCH) {
        Ok(d) => d.as_secs() as i64,
        Err(_) => 0,
    }
}

/// Relies on the standard library's `FromIterator` for `String`: collecting
/// characters yields the string of exactly those characters.
#[verifier::external_body]
pub(crate) fn chars_to_string(v: &Vec<char>) -> (r: String)
    ensures
        r@ == v@,
{
    v.iter().collect()
}

} // verus!
