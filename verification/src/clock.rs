//! The system clock, and instants printed by `chrono`.
use std::time::{Duration, SystemTime, SystemTimeError};

use vstd::prelude::*;

verus! {

/// `std::time::SystemTime`, carried opaquely.
#[verifier::external_type_specification]
#[verifier::external_body]
pub struct ExSystemTime(SystemTime);

/// `std::time::SystemTimeError`, carried opaquely.
#[verifier::external_type_specification]
#[verifier::external_body]
pub struct ExSystemTimeError(SystemTimeError);

/// Nanoseconds in a second.
pub const NANOS_PER_SEC: u32 = 1_000_000_000;

/// Seconds from the Unix epoch to 0000-01-01T00:00:00Z.
pub const YEAR_ZERO_SECS: i64 = -62_167_219_200;

/// Seconds from the Unix epoch to 10000-01-01T00:00:00Z.
pub const YEAR_TEN_THOUSAND_SECS: i64 = 253_402_300_800;

/// The instant `secs` seconds and `nanos` nanoseconds from the epoch falls
/// in a year from 0 to 9999 and is no leap second.
pub open spec fn four_digit_year(secs: i64, nanos: u32) -> bool {
    YEAR_ZERO_SECS <= secs < YEAR_TEN_THOUSAND_SECS && nanos < NANOS_PER_SEC
}

/// The value of the decimal digit `c`.
pub open spec fn digit_value(c: char) -> int {
    c as int - '0' as int
}

/// `t[from..to]` are decimal digits.
pub open spec fn digits_at(t: Seq<char>, from: int, to: int) -> bool {
    forall|k: int| from <= k < to ==> '0' <= #[trigger] t[k] <= '9'
}

/// The two-digit number at `t[at..at + 2]`.
pub open spec fn two_digits(t: Seq<char>, at: int) -> int {
    10 * digit_value(t[at]) + digit_value(t[at + 1])
}

/// The three-digit number at `t[at..at + 3]`.
pub open spec fn three_digits(t: Seq<char>, at: int) -> int {
    100 * digit_value(t[at]) + 10 * digit_value(t[at + 1]) + digit_value(t[at + 2])
}

/// The seconds past midnight (UTC) of the instant `secs` from the epoch.
pub open spec fn second_of_day(secs: i64) -> int {
    secs as int % 86_400
}

/// The hour, minute and second of the instant `secs` stand at `t[at..]` as
/// two digits each, with `sep` between them (none when `sep` is `None`).
pub open spec fn clock_digits(t: Seq<char>, at: int, secs: i64, sep: Option<char>) -> bool {
    let w = if sep is Some { 3int } else { 2int };
    let day = second_of_day(secs);
    &&& digits_at(t, at, at + 2) && digits_at(t, at + w, at + w + 2) && digits_at(
        t,
        at + 2 * w,
        at + 2 * w + 2,
    )
    &&& two_digits(t, at) == day / 3600
    &&& two_digits(t, at + w) == day % 3600 / 60
    &&& two_digits(t, at + 2 * w) == day % 60
    &&& sep matches Some(c) ==> t[at + 2] == c && t[at + 5] == c
}

/// How many characters the fraction of a second takes in an RFC 3339 stamp
/// that `chrono` prints: none for a whole second, else a `.` and three, six
/// or nine digits, the fewest that show `nanos` exactly.
pub open spec fn fraction_len(nanos: u32) -> int {
    if nanos == 0 {
        0
    } else if nanos % 1_000_000 == 0 {
        4
    } else if nanos % 1000 == 0 {
        7
    } else {
        10
    }
}

/// `t` is an RFC 3339 stamp of the instant in UTC with a four-digit year:
/// `YYYY-MM-DDTHH:MM:SS`, the fraction of a second, then `+00:00`.
pub open spec fn rfc3339_utc_shape(t: Seq<char>, secs: i64, nanos: u32) -> bool {
    &&& t.len() == 25 + fraction_len(nanos)
    &&& digits_at(t, 0, 4) && t[4] == '-' && digits_at(t, 5, 7) && t[7] == '-' && digits_at(
        t,
        8,
        10,
    )
    &&& t[10] == 'T'
    &&& clock_digits(t, 11, secs, Some(':'))
    &&& fraction_len(nanos) > 0 ==> t[19] == '.' && digits_at(t, 20, 19 + fraction_len(nanos))
    &&& t.subrange(t.len() - 6, t.len() as int) == seq!['+', '0', '0', ':', '0', '0']
}

/// The pattern of the time-stamped file names: date, `T`, time with
/// milliseconds, `Z`.
pub open spec fn file_stem_pattern() -> Seq<char> {
    "%Y%m%dT%H%M%S%3fZ"@
}

/// `t` is what the file-stem pattern prints for the instant with a
/// four-digit year: eight date digits, `T`, the hour, minute and second,
/// the milliseconds, and `Z`.
pub open spec fn stem_shape(t: Seq<char>, secs: i64, nanos: u32) -> bool {
    &&& t.len() == 19
    &&& digits_at(t, 0, 8)
    &&& t[8] == 'T'
    &&& clock_digits(t, 9, secs, None)
    &&& digits_at(t, 15, 18) && three_digits(t, 15) == nanos / 1_000_000
    &&& t[18] == 'Z'
}

// ── The system clock ────────────────────────────────────────────────────────

/// `SystemTime::now`: what the clock reads, so nothing is stated.
#[verifier::external_body]
fn system_now() -> (now: SystemTime) {
    SystemTime::now()
}

/// `SystemTime::duration_since(UNIX_EPOCH)`: how far `t` lies after the
/// epoch, or an error when it lies before it. Nothing of `t` is visible
/// here, so nothing is stated.
#[verifier::external_body]
fn since_epoch(t: &SystemTime) -> (since: Result<Duration, SystemTimeError>) {
    t.duration_since(std::time::UNIX_EPOCH)
}

/// `SystemTimeError::duration`: how far before the epoch the time lay.
#[verifier::external_body]
fn before_epoch(e: &SystemTimeError) -> (before: Duration) {
    e.duration()
}

/// `Duration::as_secs`: the whole seconds of `d`.
#[verifier::external_body]
fn whole_secs(d: &Duration) -> (secs: u64) {
    d.as_secs()
}

/// `Duration::subsec_nanos`: the nanoseconds past the whole seconds, which
/// std documents as always less than one billion.
#[verifier::external_body]
fn sub_nanos(d: &Duration) -> (nanos: u32)
    ensures
        nanos < NANOS_PER_SEC,
{
    d.subsec_nanos()
}

/// A time `secs` seconds and `nanos` nanoseconds after the epoch as signed
/// seconds and the nanoseconds past them; `None` when the seconds do not fit
/// in an `i64`.
pub fn reading_after_epoch(secs: u64, nanos: u32) -> (r: Option<(i64, u32)>)
    requires
        nanos < NANOS_PER_SEC,
    ensures
        r is Some <==> secs <= i64::MAX,
        r matches Some((s, n)) ==> s == secs && n == nanos,
{
    if secs <= 9_223_372_036_854_775_807u64 {
        Some((secs as i64, nanos))
    } else {
        None
    }
}

/// A time `secs` seconds and `nanos` nanoseconds before the epoch as signed
/// seconds, rounded down, and the nanoseconds past them; `None` when the
/// seconds do not fit in an `i64`.
pub fn reading_before_epoch(secs: u64, nanos: u32) -> (r: Option<(i64, u32)>)
    requires
        nanos < NANOS_PER_SEC,
    ensures
        r is Some <==> (if nanos == 0 {
            secs <= i64::MAX + 1
        } else {
            secs <= i64::MAX
        }),
        r matches Some((s, n)) ==> n < NANOS_PER_SEC && s * 1_000_000_000 + n == -(secs
            * 1_000_000_000 + nanos),
{
    if nanos == 0 {
        if secs <= 9_223_372_036_854_775_807u64 {
            let s: i64 = secs as i64;
            Some((-s, 0))
        } else if secs == 9_223_372_036_854_775_808u64 {
            Some((i64::MIN, 0))
        } else {
            None
        }
    } else if secs <= 9_223_372_036_854_775_807u64 {
        let s: i64 = secs as i64;
        Some((-s - 1, NANOS_PER_SEC - nanos))
    } else {
        None
    }
}

/// The clock now, as seconds from the epoch (negative before it) and the
/// nanoseconds past them; `None` when the seconds do not fit in an `i64`.
pub fn clock_now() -> (r: Option<(i64, u32)>)
    ensures
        r matches Some((_, n)) ==> n < NANOS_PER_SEC,
{
    let now = system_now();
    match since_epoch(&now) {
        Ok(d) => reading_after_epoch(whole_secs(&d), sub_nanos(&d)),
        Err(e) => {
            let d = before_epoch(&e);
            reading_before_epoch(whole_secs(&d), sub_nanos(&d))
        },
    }
}

// ── Printing instants ───────────────────────────────────────────────────────

/// The text `chrono` prints with `to_rfc3339` for the UTC instant `secs`
/// seconds and `nanos` nanoseconds from the epoch.
pub uninterp spec fn rfc3339_text(secs: i64, nanos: u32) -> Seq<char>;

/// `chrono::DateTime::from_timestamp(secs, nanos)` printed with
/// `to_rfc3339`: `None` when chrono cannot place the instant, which it can
/// for every four-digit year; there the text has the RFC 3339 UTC shape,
/// with the instant's time of day.
#[verifier::external_body]
fn rfc3339_at(secs: i64, nanos: u32) -> (text: Option<String>)
    ensures
        match text {
            Some(t) => t@ == rfc3339_text(secs, nanos) && (four_digit_year(secs, nanos)
                ==> rfc3339_utc_shape(t@, secs, nanos)),
            None => !four_digit_year(secs, nanos),
        },
{
    match chrono::DateTime::from_timestamp(secs, nanos) {
        Some(t) => Some(t.to_rfc3339()),
        None => None,
    }
}

/// The text `chrono` prints with `format(pattern)` for the UTC instant
/// `secs` seconds and `nanos` nanoseconds from the epoch.
pub uninterp spec fn formatted_text(secs: i64, nanos: u32, pattern: Seq<char>) -> Seq<char>;

/// `chrono::DateTime::from_timestamp(secs, nanos)` printed with
/// `format(pattern)`. Printing panics on patterns chrono cannot print, so
/// only the file-stem pattern is admitted. `None` when chrono cannot place
/// the instant, which it can for every four-digit year; there the text has
/// the stem's shape, with the instant's time of day and milliseconds.
#[verifier::external_body]
fn format_at(secs: i64, nanos: u32, pattern: &str) -> (text: Option<String>)
    requires
        pattern@ == file_stem_pattern(),
    ensures
        match text {
            Some(t) => t@ == formatted_text(secs, nanos, pattern@) && (four_digit_year(secs, nanos)
                ==> stem_shape(t@, secs, nanos)),
            None => !four_digit_year(secs, nanos),
        },
{
    match chrono::DateTime::from_timestamp(secs, nanos) {
        Some(t) => Some(t.format(pattern).to_string()),
        None => None,
    }
}

/// The RFC 3339 stamp, in UTC, of the instant `secs` seconds and `nanos`
/// nanoseconds from the epoch; `None` where chrono cannot place it.
pub fn rfc3339_stamp(secs: i64, nanos: u32) -> (stamp: Option<String>)
    ensures
        match stamp {
            Some(t) => t@ == rfc3339_text(secs, nanos) && (four_digit_year(secs, nanos)
                ==> rfc3339_utc_shape(t@, secs, nanos)),
            None => !four_digit_year(secs, nanos),
        },
{
    rfc3339_at(secs, nanos)
}

/// The file stem of the instant: the file-stem pattern printed for it;
/// `None` where chrono cannot place it.
pub fn file_stem(secs: i64, nanos: u32) -> (stem: Option<String>)
    ensures
        match stem {
            Some(t) => t@ == formatted_text(secs, nanos, file_stem_pattern()) && (four_digit_year(
                secs,
                nanos,
            ) ==> stem_shape(t@, secs, nanos)),
            None => !four_digit_year(secs, nanos),
        },
{
    let pattern = "%Y%m%dT%H%M%S%3fZ";
    proof {
        assert(pattern@ == file_stem_pattern());
    }
    format_at(secs, nanos, pattern)
}

} // verus!
