use vstd::prelude::*;

verus! {

/// An instant (seconds since the epoch) at which the game clock read 06:00.
pub const TYRIA_CLOCK_REFERENCE: i64 = 1759264200;

/// An instant (seconds since the epoch) at which a two-hour game cycle began.
pub const TYRIA_CYCLE_REFERENCE: i64 = 1759262400;

/// Length of the game's day-and-night cycle, in seconds.
pub const TYRIA_CYCLE_SECONDS: i64 = 7200;

pub const SECONDS_PER_DAY: i64 = 86400;

/// Offset of the catalog's local day from UTC, in seconds (UTC-3).
pub const LOCAL_DAY_OFFSET_SECONDS: i64 = -10800;

/// Division rounding toward zero.
pub open spec fn trunc_div(a: int, b: int) -> int
    recommends
        b > 0,
{
    if a >= 0 {
        a / b
    } else {
        -((-a) / b)
    }
}

/// The game clock (hours, minutes) at `utc`: twelve game seconds pass per
/// real second, starting from 06:00 at the reference instant.
pub open spec fn tyria_clock(utc: int) -> (int, int) {
    let game_minutes = trunc_div((utc - TYRIA_CLOCK_REFERENCE as int) * 12, 60);
    let in_day = (360 + game_minutes) % 1440;
    (in_day / 60, in_day % 60)
}

pub fn calculate_tyria_time(utc_timestamp: i64) -> (r: (i32, i32))
    ensures
        (r.0 as int, r.1 as int) == tyria_clock(utc_timestamp as int),
        0 <= r.0 < 24,
        0 <= r.1 < 60,
{
    let real_seconds: i128 = utc_timestamp as i128 - TYRIA_CLOCK_REFERENCE as i128;
    let game_seconds: i128 = real_seconds * 12;
    let game_minutes: i128 = match game_seconds.checked_div(60) {
        Some(m) => m,
        None => 0,
    };
    let total: i128 = 360 + game_minutes;
    let in_day: i128 = match total.checked_rem_euclid(1440) {
        Some(m) => m,
        None => 0,
    };
    proof {
        assert(0 <= in_day < 1440);
        assert(game_minutes == trunc_div(game_seconds as int, 60));
    }
    let hours: i32 = (in_day as i32) / 60;
    let minutes: i32 = (in_day as i32) % 60;
    (hours, minutes)
}

/// The start of the two-hour game cycle containing `now`, counting whole
/// cycles from the reference toward zero.
pub open spec fn tyria_base(now: int) -> int {
    TYRIA_CYCLE_REFERENCE as int + trunc_div(
        now - TYRIA_CYCLE_REFERENCE as int,
        TYRIA_CYCLE_SECONDS as int,
    ) * TYRIA_CYCLE_SECONDS as int
}

/// The last local (UTC-3) midnight at or before `now`.
pub open spec fn local_day_start(now: int) -> int {
    now - (now + LOCAL_DAY_OFFSET_SECONDS as int) % (SECONDS_PER_DAY as int)
}

pub fn calculate_tyria_base_time(current_time: i64) -> (r: i64)
    ensures
        r == tyria_base(current_time as int),
{
    let since: i128 = current_time as i128 - TYRIA_CYCLE_REFERENCE as i128;
    let cycles: i128 = match since.checked_div(TYRIA_CYCLE_SECONDS as i128) {
        Some(c) => c,
        None => 0,
    };
    proof {
        let d = TYRIA_CYCLE_SECONDS as int;
        let x = since as int;
        assert(cycles == trunc_div(x, d));
        if x >= 0 {
            assert(0 <= (x / d) * d <= x) by (nonlinear_arith)
                requires
                    x >= 0,
                    d > 0,
            ;
        } else {
            assert(0 <= ((-x) / d) * d <= -x) by (nonlinear_arith)
                requires
                    x < 0,
                    d > 0,
            ;
        }
    }
    (TYRIA_CYCLE_REFERENCE as i128 + cycles * TYRIA_CYCLE_SECONDS as i128) as i64
}

/// The canthan cycle runs in step with the tyrian one.
pub fn calculate_cantha_base_time(current_time: i64) -> (r: i64)
    ensures
        r == tyria_base(current_time as int),
{
    calculate_tyria_base_time(current_time)
}

pub fn calculate_local_day_start_time(current_time: i64) -> (r: i64)
    requires
        current_time >= i64::MIN + SECONDS_PER_DAY,
    ensures
        r == local_day_start(current_time as int),
{
    let shifted: i128 = current_time as i128 + LOCAL_DAY_OFFSET_SECONDS as i128;
    let into_day: i128 = match shifted.checked_rem_euclid(SECONDS_PER_DAY as i128) {
        Some(m) => m,
        None => 0,
    };
    (current_time as i128 - into_day) as i64
}

/// How a catalog track's anchor time is found.
pub open spec fn base_time_for(calculator: Seq<char>, now: int) -> int {
    if calculator == "tyria_cycle"@ || calculator == "cantha_cycle"@ {
        tyria_base(now)
    } else {
        local_day_start(now)
    }
}

/// The anchor time of a catalog track whose calculator is named
/// `calculator`; an unknown name falls back to the local day start.
pub fn get_base_time_from_calculator(calculator: &str, current_time: i64) -> (r: i64)
    requires
        current_time >= i64::MIN + SECONDS_PER_DAY,
    ensures
        r == base_time_for(calculator@, current_time as int),
{
    let name = calculator.to_owned();
    if name == "tyria_cycle".to_owned() {
        calculate_tyria_base_time(current_time)
    } else if name == "cantha_cycle".to_owned() {
        calculate_cantha_base_time(current_time)
    } else {
        calculate_local_day_start_time(current_time)
    }
}

} // verus!
