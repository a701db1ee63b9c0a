//! Wall-clock time and the naming of hourly persistent log files. The clock
//! itself and the calendar rendering of a file name come from chrono; the
//! hour arithmetic that drives rotation is verified here.

use vstd::prelude::*;

verus! {

/// Seconds in one wall-clock hour.
pub const SECS_PER_HOUR: u64 = 3600;

/// Largest timestamp, in seconds since the Unix epoch, that the core
/// supports; the bound under which chrono renders a calendar date.
pub const MAX_TIMESTAMP_SECS: u64 = 0x7fff_ffff_ffff_ffff;

/// The name of the persistent log file for the given wall-clock hour
/// (`YYYY-MM-DD_HH.log`, UTC). The rendering is chrono's; the core relies
/// only on the name being a function of the hour.
pub uninterp spec fn log_file_name_of(hour: int) -> Seq<char>;

/// Relies on chrono's `DateTime::<Utc>::from_timestamp` and `format`: for
/// timestamps in chrono's range the rendered `%Y-%m-%d_%H.log` name depends
/// only on the wall-clock hour, every sub-hour part being truncated away.
#[verifier::external_body]
pub fn log_file_name(secs: u64) -> (r: String)
    ensures
        secs <= MAX_TIMESTAMP_SECS ==> r@ == log_file_name_of(secs as int / SECS_PER_HOUR as int),
{
    match chrono::DateTime::<chrono::Utc>::from_timestamp(secs as i64, 0) {
        Some(at) => at.format("%Y-%m-%d_%H.log").to_string(),
        None => String::new(),
    }
}

/// Relies on chrono's `Utc::now`: seconds since the Unix epoch, clamped to
/// zero before the epoch. Nothing is promised of which moment it is.
#[verifier::external_body]
pub fn unix_now_secs() -> (r: u64)
    ensures
        r <= MAX_TIMESTAMP_SECS,
{
    match u64::try_from(chrono::Utc::now().timestamp()) {
        Ok(secs) => secs,
        Err(_) => 0,
    }
}

/// The wall-clock hour that a timestamp falls in.
pub open spec fn spec_hour_of(secs: u64) -> int {
    secs as int / SECS_PER_HOUR as int
}

/// Computes `spec_hour_of`.
pub fn hour_of(secs: u64) -> (r: u64)
    ensures
        r == spec_hour_of(secs),
{
    secs / SECS_PER_HOUR
}

/// Seconds from `now` to the top of the next wall-clock hour: the delay the
/// rotation timer is armed with, recomputed from the clock after every fire
/// so alignment survives long pauses.
pub fn secs_until_next_hour(now: u64) -> (r: u64)
    requires
        now <= MAX_TIMESTAMP_SECS,
    ensures
        r == SECS_PER_HOUR - now % SECS_PER_HOUR,
        1 <= r <= SECS_PER_HOUR,
        spec_hour_of((now + r) as u64) == spec_hour_of(now) + 1,
{
    let r = SECS_PER_HOUR - now % SECS_PER_HOUR;
    proof {
        let n = now as int;
        let k = r as int;
        assert(n + k == 3600 * (n / 3600) + 3600) by (nonlinear_arith)
            requires k == 3600 - n % 3600, n >= 0;
        assert((n + k) / 3600 == n / 3600 + 1) by (nonlinear_arith)
            requires n + k == 3600 * (n / 3600) + 3600, n >= 0;
    }
    r
}

/// Samples the clock and returns it with the delay to the next hour.
pub fn next_rotation_delay() -> (r: (u64, u64))
    ensures
        r.0 <= MAX_TIMESTAMP_SECS,
        r.1 == SECS_PER_HOUR - r.0 % SECS_PER_HOUR,
        1 <= r.1 <= SECS_PER_HOUR,
{
    let now = unix_now_secs();
    let delay = secs_until_next_hour(now);
    (now, delay)
}

} // verus!
