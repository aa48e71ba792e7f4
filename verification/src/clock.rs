use vstd::prelude::*;

verus! {

/// Milliseconds from the Unix epoch to the first instant of the year 9999.
/// Timestamps handled by this crate stay below it: httpdate panics there, and
/// chrono's millisecond constructor is total below it.
pub const YEAR_9999_MILLIS: u64 = 253402300800000;

/// The ISO-8601 rendering (millisecond precision, +00:00 offset) of a Unix
/// timestamp in milliseconds, as chrono's `%Y-%m-%dT%H:%M:%S%.3f%:z` format
/// produces it. Left uninterpreted: a function of the timestamp alone.
pub uninterp spec fn iso8601_utc_of(millis: u64) -> Seq<char>;

/// Relies on chrono: `DateTime::from_timestamp_millis` (defined for every
/// timestamp below the year 9999) and `DateTime::format`.
#[verifier::external_body]
pub(crate) fn format_iso8601_utc(millis: u64) -> (r: String)
    requires
        millis < YEAR_9999_MILLIS,
    ensures
        r@ == iso8601_utc_of(millis),
{
    let dt = chrono::DateTime::<chrono::Utc>::from_timestamp_millis(millis as i64).unwrap();
    format!("{}", dt.format("%Y-%m-%dT%H:%M:%S%.3f%:z"))
}

/// The RFC 7231 IMF-fixdate rendering of a Unix timestamp in milliseconds,
/// as `httpdate::fmt_http_date` produces it (sub-second part discarded).
/// Left uninterpreted: a function of the timestamp alone.
pub uninterp spec fn http_date_of(millis: u64) -> Seq<char>;

/// Relies on `httpdate::fmt_http_date`, which renders every time from the
/// epoch up to the year 9999 and panics beyond it.
#[verifier::external_body]
pub(crate) fn format_http_date(millis: u64) -> (r: String)
    requires
        millis < YEAR_9999_MILLIS,
    ensures
        r@ == http_date_of(millis),
{
    let t = std::time::UNIX_EPOCH + std::time::Duration::from_millis(millis);
    httpdate::fmt_http_date(t)
}

/// Relies on std's `SystemTime::now`; milliseconds since the Unix epoch.
/// Nothing is promised of the clock's value.
#[verifier::external_body]
pub(crate) fn now_unix_millis() -> u64 {
    match std::time::SystemTime::now().duration_since(std::time::UNIX_EPOCH) {
        Ok(d) => d.as_millis() as u64,
        Err(_) => 0,
    }
}

} // verus!
