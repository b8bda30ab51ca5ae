use event_timers::time_utils::{
    calculate_cantha_base_time, calculate_local_day_start_time, calculate_tyria_base_time,
    calculate_tyria_time, get_base_time_from_calculator,
};

const CLOCK_REF: i64 = 1759264200;
const CYCLE_REF: i64 = 1759262400;

#[test]
fn game_clock_runs_twelve_times_faster() {
    assert_eq!(calculate_tyria_time(CLOCK_REF), (6, 0));
    assert_eq!(calculate_tyria_time(CLOCK_REF + 300), (7, 0));
    assert_eq!(calculate_tyria_time(CLOCK_REF + 7200), (6, 0));
    assert_eq!(calculate_tyria_time(CLOCK_REF - 300), (5, 0));
    assert_eq!(calculate_tyria_time(CLOCK_REF + 5), (6, 1));
}

#[test]
fn game_clock_truncates_toward_zero() {
    // -12 game seconds is 0 whole game minutes
    assert_eq!(calculate_tyria_time(CLOCK_REF - 1), (6, 0));
}

#[test]
fn cycle_start_counts_whole_cycles() {
    assert_eq!(calculate_tyria_base_time(CYCLE_REF + 100), CYCLE_REF);
    assert_eq!(calculate_tyria_base_time(CYCLE_REF + 7300), CYCLE_REF + 7200);
    assert_eq!(calculate_tyria_base_time(CYCLE_REF - 100), CYCLE_REF);
    assert_eq!(calculate_cantha_base_time(CYCLE_REF + 7300), CYCLE_REF + 7200);
}

#[test]
fn local_day_starts_at_utc_minus_three_midnight() {
    assert_eq!(calculate_local_day_start_time(10800), 10800);
    assert_eq!(calculate_local_day_start_time(10799), -75600);
    assert_eq!(calculate_local_day_start_time(100000), 97200);
}

#[test]
fn calculator_names_choose_the_anchor() {
    assert_eq!(get_base_time_from_calculator("tyria_cycle", CYCLE_REF + 100), CYCLE_REF);
    assert_eq!(get_base_time_from_calculator("cantha_cycle", CYCLE_REF + 100), CYCLE_REF);
    assert_eq!(get_base_time_from_calculator("local_day_start", 100000), 97200);
    assert_eq!(get_base_time_from_calculator("something_else", 100000), 97200);
}
