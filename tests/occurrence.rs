use event_timers::occurrence::calculate_event_timing;

#[test]
fn two_hour_event_pending_active_pending() {
    // cycle 7200 s, offset 0, duration 300 s, anchored at 0
    let pending = calculate_event_timing(0, 0, 300, 7200, 7150).unwrap();
    assert_eq!(pending.1, 50);
    assert_eq!(pending.2, -1);
    assert_eq!(pending.0, 7200);

    let active = calculate_event_timing(0, 0, 300, 7200, 7200).unwrap();
    assert_eq!(active.1, 0);
    assert_eq!(active.2, 0);
    assert_eq!(active.0, 7200);

    let later = calculate_event_timing(0, 0, 300, 7200, 7500).unwrap();
    assert_eq!(later.1, 6900);
    assert_eq!(later.2, -1);
    assert_eq!(later.0, 14400);
}

#[test]
fn active_in_the_middle_of_an_occurrence() {
    let t = calculate_event_timing(1000, 600, 900, 3600, 1000 + 3600 * 3 + 700).unwrap();
    assert_eq!(t, (1000 + 3600 * 3 + 600, 0, 100, 900, 3));
}

#[test]
fn zero_or_negative_cycle_is_skipped() {
    assert_eq!(calculate_event_timing(0, 0, 300, 0, 7150), None);
    assert_eq!(calculate_event_timing(0, 0, 300, -7200, 7150), None);
}

#[test]
fn anchor_in_the_future_uses_euclidean_phase() {
    // elapsed = -10000, phase = 4400, next start 2800 s away, index floor(-10000/7200)+1
    let t = calculate_event_timing(10000, 0, 300, 7200, 0).unwrap();
    assert_eq!(t, (2800, 2800, -1, 300, -1));
}

#[test]
fn duration_longer_than_cycle_is_always_active() {
    for now in [0i64, 1, 3599, 3600, 12345] {
        let t = calculate_event_timing(0, 0, 7200, 3600, now).unwrap();
        assert!(t.2 >= 0);
        assert_eq!(t.1, 0);
    }
}

#[test]
fn exactly_one_of_active_or_pending() {
    for now in (0i64..20000).step_by(37) {
        let t = calculate_event_timing(50, 1000, 500, 7200, now).unwrap();
        let active = t.2 >= 0 && t.1 == 0;
        let pending = t.2 == -1 && t.1 > 0 && t.1 < 7200;
        assert!(active != pending, "at {}", now);
        if pending {
            assert_eq!(t.0, now + t.1);
        } else {
            assert_eq!(t.0 + t.2, now);
        }
    }
}

#[test]
fn start_beyond_the_largest_instant_is_no_occurrence() {
    // i64::MAX % 7200 == 5407: the next start would lie past i64::MAX
    assert_eq!(calculate_event_timing(0, 0, 1, 7200, i64::MAX), None);
}

#[test]
fn negative_offset_is_reduced_into_the_cycle() {
    // -10000 mod 7200 is 4400
    let t = calculate_event_timing(0, -10000, 300, 7200, 0).unwrap();
    assert_eq!(t, (4400, 4400, -1, 300, 0));
    let a = calculate_event_timing(0, -10000, 300, 7200, 4500).unwrap();
    assert_eq!(a, (4400, 0, 100, 300, 0));
}

#[test]
fn offset_past_the_cycle_is_reduced_into_it() {
    // 8000 mod 7200 is 800; at elapsed 1000 it has passed, so the next start is in the next cycle
    let t = calculate_event_timing(0, 8000, 100, 7200, 1000).unwrap();
    assert_eq!(t, (8000, 7000, -1, 100, 1));
    assert!(t.1 < 7200);
}

#[test]
fn whole_cycle_offset_event_as_long_as_the_cycle_is_always_on() {
    for now in [0i64, 1, 3600, 7199, 7200, 100_000] {
        let t = calculate_event_timing(0, 7200, 7200, 7200, now).unwrap();
        assert_eq!(t.1, 0);
        assert!(t.2 >= 0 && t.2 < 7200);
    }
}
