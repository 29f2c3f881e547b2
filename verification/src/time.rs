//! Wall-clock rendering of SD record timestamps (UTC time of day).

use vstd::prelude::*;
use vstd::string::{StrSliceExecFns, StringExecFns};

verus! {

/// The decimal digit character for `d` (0 to 9).
pub open spec fn digit_char(d: int) -> char {
    (48 + d) as char
}

/// `n` (below 100) as two decimal digits, zero-padded.
pub open spec fn two_digits(n: int) -> Seq<char> {
    seq![digit_char(n / 10), digit_char(n % 10)]
}

/// `n` (below 1000) as three decimal digits, zero-padded.
pub open spec fn three_digits(n: int) -> Seq<char> {
    seq![digit_char(n / 100), digit_char(n / 10 % 10), digit_char(n % 10)]
}

/// Whether a UNIX time of `secs` seconds plus `nanos` nanoseconds names an
/// instant: the nanoseconds stay below one second, except that a leap second
/// (up to two seconds) may follow a minute's 59th second.
pub open spec fn timestamp_accepted(secs: int, nanos: int) -> bool {
    nanos < 1_000_000_000 || (nanos < 2_000_000_000 && secs % 60 == 59)
}

/// The UTC time of day of that instant as `HH:MM:SS.mmm` (a leap second
/// shows as second 60).
pub open spec fn clock_text(secs: int, nanos: int) -> Seq<char> {
    let tod = secs % 86400;
    two_digits(tod / 3600) + ":"@ + two_digits(tod % 3600 / 60) + ":"@ + two_digits(
        tod % 60 + nanos / 1_000_000_000,
    ) + "."@ + three_digits(nanos / 1_000_000 % 1000)
}

/// `n` (below 10000) as four decimal digits, zero-padded.
pub open spec fn four_digits(n: int) -> Seq<char> {
    seq![digit_char(n / 1000), digit_char(n / 100 % 10), digit_char(n / 10 % 10), digit_char(n % 10)]
}

/// The Gregorian calendar date (year, month 1 to 12, day 1 to 31) of the day
/// `z` days after 1970-01-01 (`z` not negative): the day's place in its
/// 400-year cycle of 146097 days, then in its year counted from 1 March, then
/// in its month.
pub open spec fn civil_from_days(z: int) -> (int, int, int) {
    let z = z + 719468;
    let era = z / 146097;
    let doe = z - era * 146097;
    let yoe = (doe - doe / 1460 + doe / 36524 - doe / 146096) / 365;
    let doy = doe - (365 * yoe + yoe / 4 - yoe / 100);
    let mp = (5 * doy + 2) / 153;
    let d = doy - (153 * mp + 2) / 5 + 1;
    let m = if mp < 10 {
        mp + 3
    } else {
        mp - 9
    };
    let y = yoe + era * 400 + if m <= 2 {
        1int
    } else {
        0int
    };
    (y, m, d)
}

/// The UTC calendar date, as `YYYY-MM-DD`, of the day in which the UNIX time
/// `secs` (not negative) falls.
pub open spec fn utc_date_text(secs: int) -> Seq<char> {
    let (y, m, d) = civil_from_days(secs / 86400);
    four_digits(y) + "-"@ + two_digits(m) + "-"@ + two_digits(d)
}

/// The full UTC rendering of an instant: date, time of day, and zone name.
pub open spec fn timestamp_text(secs: int, nanos: int) -> Seq<char> {
    utc_date_text(secs) + " "@ + clock_text(secs, nanos) + " UTC"@
}

/// Calls `chrono::DateTime::<Utc>::from_timestamp(secs, nanos)` and renders
/// the instant with chrono's `format("%Y-%m-%d %H:%M:%S%.3f UTC")`. Trusted:
/// the instant exists exactly when the nanoseconds are below one second, or
/// below two seconds at second 59 of a minute (chrono's leap-second
/// representation; any 32-bit count of seconds lies within chrono's date
/// range); the text is the Gregorian calendar date with its four-digit year
/// (`utc_date_text`), a space, the two-digit hour, minute and second (60 for
/// a leap second) with the three-digit milliseconds, and " UTC", as chrono's
/// strftime documentation describes.
#[verifier::external_body]
fn utc_timestamp(secs: i64, nanos: u32) -> (r: Option<String>)
    requires
        0 <= secs <= u32::MAX,
    ensures
        r is Some <==> timestamp_accepted(secs as int, nanos as int),
        r matches Some(s) ==> s@ == utc_date_text(secs as int) + " "@ + clock_text(
            secs as int,
            nanos as int,
        ) + " UTC"@ && s@.len() == 27,
{
    match chrono::DateTime::from_timestamp(secs, nanos) {
        Some(dt) => Some(dt.format("%Y-%m-%d %H:%M:%S%.3f UTC").to_string()),
        None => None,
    }
}

/// The UTC date and time at which an SD record was logged, from its UNIX
/// time and milliseconds, or `None` when they name no instant (see
/// `timestamp_accepted`).
pub fn record_utc_timestamp(unix_time: u32, milliseconds: u16) -> (r: Option<String>)
    requires
        milliseconds as int * 1_000_000 <= u32::MAX,
    ensures
        r is Some <==> timestamp_accepted(unix_time as int, milliseconds as int * 1_000_000),
        r matches Some(s) ==> s@ == timestamp_text(
            unix_time as int,
            milliseconds as int * 1_000_000,
        ),
{
    let nanos: u32 = milliseconds as u32 * 1_000_000;
    utc_timestamp(unix_time as i64, nanos)
}

/// The time of day within a full timestamp text (`YYYY-MM-DD HH:MM:SS.mmm
/// UTC`): its characters 11 to 22.
pub fn clock_part(text: &str) -> (clock: String)
    requires
        text@.len() == 27,
    ensures
        clock@ == text@.subrange(11, 23),
{
    String::from_str(text.substring_char(11, 23))
}

/// The UTC time of day at which an SD record was logged, as `HH:MM:SS.mmm`,
/// or `None` when its time fields name no instant.
pub fn record_utc_time(unix_time: u32, milliseconds: u16) -> (r: Option<String>)
    requires
        milliseconds as int * 1_000_000 <= u32::MAX,
    ensures
        r is Some <==> timestamp_accepted(unix_time as int, milliseconds as int * 1_000_000),
        r matches Some(s) ==> s@ == clock_text(unix_time as int, milliseconds as int * 1_000_000),
{
    let nanos: u32 = milliseconds as u32 * 1_000_000;
    match utc_timestamp(unix_time as i64, nanos) {
        Some(full) => {
            let ghost date = utc_date_text(unix_time as int);
            let ghost clock = clock_text(unix_time as int, nanos as int);
            proof {
                reveal_strlit(" ");
                reveal_strlit(" UTC");
                reveal_strlit(":");
                reveal_strlit(".");
            }
            assert(clock.len() == 12);
            assert(date.len() == 10);
            assert(full@.subrange(11, 23) =~= clock);
            Some(clock_part(full.as_str()))
        },
        None => None,
    }
}

} // verus!
