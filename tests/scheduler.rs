use event_timers::catalog::{EventColor, EventTrack, TimelineEvent, TimelineType, TrackedEventId};
use event_timers::notification_logic::{update_notifications, NotificationConfig, ReminderConfig};
use event_timers::notifications::NotificationState;
use event_timers::subscriptions::{remove_oneshot_events, Subscriptions};

fn color() -> EventColor {
    EventColor { r: 1, g: 2, b: 3, a: 4 }
}

fn event(name: &str, start_offset: i64, duration: i64, cycle_duration: i64) -> TimelineEvent {
    TimelineEvent {
        name: name.to_string(),
        start_offset,
        duration,
        cycle_duration,
        color: color(),
        copy_text: format!("[&{}]", name),
        enabled: true,
    }
}

fn track(name: &str, events: Vec<TimelineEvent>) -> EventTrack {
    EventTrack {
        name: name.to_string(),
        timeline_type: TimelineType::GameTime,
        events,
        base_time: 0,
        visible: true,
        height: 4000,
        category: "Core".to_string(),
    }
}

fn lead(minutes_before: u32) -> ReminderConfig {
    ReminderConfig {
        name: "Starting soon".to_string(),
        minutes_before,
        text_color: color(),
        ongoing_interval_minutes: 0,
    }
}

fn repeating(interval: u32) -> ReminderConfig {
    ReminderConfig {
        name: "Happening now".to_string(),
        minutes_before: 0,
        text_color: color(),
        ongoing_interval_minutes: interval,
    }
}

fn config(reminders: Vec<ReminderConfig>) -> NotificationConfig {
    NotificationConfig {
        toast_enabled: true,
        toast_duration_ms: 1_000_000_000,
        max_visible_toasts: 100,
        max_upcoming_events: 10,
        reminders,
    }
}

fn id(t: &str, e: &str) -> TrackedEventId {
    TrackedEventId::new(t, e)
}

#[test]
fn lead_reminder_fires_once_at_ten_minutes() {
    let tracks = vec![track("World", vec![event("Boss", 0, 300, 7200)])];
    let cfg = config(vec![lead(10)]);
    let followed = vec![id("World", "Boss")];
    let mut state = NotificationState::new();
    update_notifications(&mut state, &tracks, &cfg, &followed, &vec![], 6599, 0);
    assert!(state.toast_queue.is_empty());
    update_notifications(&mut state, &tracks, &cfg, &followed, &vec![], 6600, 0);
    assert_eq!(state.toast_queue.len(), 1);
    let t = &state.toast_queue[0];
    assert_eq!(t.event_start_time, 7200);
    assert_eq!(t.minutes_until, 10);
    assert_eq!(t.minutes_before, 10);
    assert_eq!(t.copy_text, "[&Boss]");
    assert_eq!(t.reminder_name, "Starting soon");
    update_notifications(&mut state, &tracks, &cfg, &followed, &vec![], 6601, 0);
    assert_eq!(state.toast_queue.len(), 1);
}

#[test]
fn repeated_ticks_make_one_toast_per_lead() {
    let tracks = vec![track("World", vec![event("Boss", 0, 300, 7200)])];
    let cfg = config(vec![lead(10)]);
    let followed = vec![id("World", "Boss")];
    let mut state = NotificationState::new();
    for now in 6000..7200 {
        update_notifications(&mut state, &tracks, &cfg, &followed, &vec![], now, 0);
        update_notifications(&mut state, &tracks, &cfg, &followed, &vec![], now, 0);
    }
    assert_eq!(state.toast_queue.len(), 1);
    assert_eq!(state.next_toast_id, 1);
}

#[test]
fn ticking_twice_at_one_second_changes_nothing_more() {
    let tracks = vec![track("World", vec![event("Boss", 0, 300, 7200), event("Rift", 900, 300, 3600)])];
    let cfg = config(vec![lead(15)]);
    let followed = vec![id("World", "Boss"), id("World", "Rift")];
    let mut state = NotificationState::new();
    update_notifications(&mut state, &tracks, &cfg, &followed, &vec![], 6600, 0);
    let ids_after_first = state.next_toast_id;
    let upcoming: Vec<(i64, i64)> =
        state.upcoming_events.iter().map(|u| (u.start_time, u.seconds_until)).collect();
    let removals = update_notifications(&mut state, &tracks, &cfg, &followed, &vec![], 6600, 5);
    let again: Vec<(i64, i64)> =
        state.upcoming_events.iter().map(|u| (u.start_time, u.seconds_until)).collect();
    assert_eq!(upcoming, again);
    assert_eq!(state.next_toast_id, ids_after_first);
    assert!(removals.is_empty());
}

#[test]
fn simultaneous_thresholds_are_two_seconds_apart() {
    let tracks = vec![track("World", vec![event("A", 0, 300, 7200), event("B", 0, 300, 7200)])];
    let cfg = config(vec![lead(10)]);
    let followed = vec![id("World", "A"), id("World", "B")];
    let mut state = NotificationState::new();
    let mut made: Vec<(i64, String)> = Vec::new();
    for now in 6600..6610 {
        let before = state.toast_queue.len();
        update_notifications(&mut state, &tracks, &cfg, &followed, &vec![], now, 0);
        if state.toast_queue.len() > before {
            made.push((now, state.toast_queue.last().unwrap().event_id.event_name.clone()));
        }
    }
    assert_eq!(made, vec![(6600, "A".to_string()), (6602, "B".to_string())]);
}

#[test]
fn repeating_reminder_skips_the_last_interval() {
    // a 20-minute event, reminders every 5 minutes while it runs
    let tracks = vec![track("World", vec![event("Meta", 0, 1200, 7200)])];
    let cfg = config(vec![repeating(5)]);
    let followed = vec![id("World", "Meta")];
    let mut state = NotificationState::new();
    let mut made: Vec<(i64, i64)> = Vec::new();
    for now in 7200..8400 {
        let before = state.toast_queue.len();
        update_notifications(&mut state, &tracks, &cfg, &followed, &vec![], now, 0);
        if state.toast_queue.len() > before {
            made.push((now - 7200, state.toast_queue.last().unwrap().minutes_until));
        }
    }
    assert_eq!(made, vec![(0, 0), (300, -5), (600, -10)]);
}

#[test]
fn repeating_reminder_interval_longer_than_event_never_fires() {
    let tracks = vec![track("World", vec![event("Short", 0, 240, 7200)])];
    let cfg = config(vec![repeating(5)]);
    let followed = vec![id("World", "Short")];
    let mut state = NotificationState::new();
    for now in 7200..7440 {
        update_notifications(&mut state, &tracks, &cfg, &followed, &vec![], now, 0);
    }
    assert!(state.toast_queue.is_empty());
}

#[test]
fn queue_stays_within_its_bound() {
    let events: Vec<TimelineEvent> = (0..6).map(|i| event(&format!("E{}", i), 600 * i, 60, 7200)).collect();
    let followed: Vec<TrackedEventId> = (0..6).map(|i| id("World", &format!("E{}", i))).collect();
    let tracks = vec![track("World", events)];
    let mut cfg = config(vec![lead(1)]);
    cfg.max_visible_toasts = 2;
    let mut state = NotificationState::new();
    for now in 7000..11000 {
        update_notifications(&mut state, &tracks, &cfg, &followed, &vec![], now, 0);
        assert!(state.toast_queue.len() <= 2);
    }
    assert!(state.next_toast_id >= 3);
}

#[test]
fn zero_visible_toasts_keeps_the_queue_empty() {
    let tracks = vec![track("World", vec![event("Boss", 0, 300, 7200)])];
    let mut cfg = config(vec![lead(10)]);
    cfg.max_visible_toasts = 0;
    let mut state = NotificationState::new();
    update_notifications(&mut state, &tracks, &cfg, &vec![id("World", "Boss")], &vec![], 6600, 0);
    assert!(state.toast_queue.is_empty());
    assert_eq!(state.next_toast_id, 1);
    update_notifications(&mut state, &tracks, &cfg, &vec![id("World", "Boss")], &vec![], 6700, 0);
    assert_eq!(state.next_toast_id, 1);
}

#[test]
fn upcoming_sorted_and_capped() {
    let tracks = vec![
        track("One", vec![event("Late", 3000, 300, 7200), event("Now", 0, 600, 7200)]),
        track("Two", vec![event("Soon", 1000, 300, 7200), event("Unfollowed", 500, 300, 7200)]),
    ];
    let mut cfg = config(vec![]);
    cfg.max_upcoming_events = 2;
    let followed = vec![id("One", "Late"), id("One", "Now"), id("Two", "Soon")];
    let mut state = NotificationState::new();
    update_notifications(&mut state, &tracks, &cfg, &followed, &vec![], 100, 0);
    let got: Vec<(String, i64, i64)> = state
        .upcoming_events
        .iter()
        .map(|u| (u.event_id.event_name.clone(), u.seconds_until, u.seconds_into))
        .collect();
    assert_eq!(got, vec![("Now".to_string(), 0, 100), ("Soon".to_string(), 900, 0)]);
}

#[test]
fn no_subscriptions_clears_upcoming() {
    let tracks = vec![track("World", vec![event("Boss", 0, 300, 7200)])];
    let cfg = config(vec![lead(10)]);
    let mut state = NotificationState::new();
    update_notifications(&mut state, &tracks, &cfg, &vec![id("World", "Boss")], &vec![], 100, 0);
    assert_eq!(state.upcoming_events.len(), 1);
    update_notifications(&mut state, &tracks, &cfg, &vec![], &vec![], 101, 0);
    assert!(state.upcoming_events.is_empty());
}

#[test]
fn one_shot_ends_when_the_occurrence_begins() {
    let tracks = vec![track("World", vec![event("Boss", 0, 300, 7200)])];
    let cfg = config(vec![lead(10)]);
    let mut subs = Subscriptions::new();
    subs.oneshot_events.push(id("World", "Boss"));
    let mut state = NotificationState::new();
    let r = update_notifications(&mut state, &tracks, &cfg, &subs.tracked_events, &subs.oneshot_events, 7199, 0);
    assert!(r.is_empty());
    let r = update_notifications(&mut state, &tracks, &cfg, &subs.tracked_events, &subs.oneshot_events, 7200, 0);
    assert_eq!(r.len(), 1);
    remove_oneshot_events(&mut subs, &r);
    assert!(subs.oneshot_events.is_empty());
}

#[test]
fn disabled_toasts_still_list_upcoming() {
    let tracks = vec![track("World", vec![event("Boss", 0, 300, 7200)])];
    let mut cfg = config(vec![lead(10)]);
    cfg.toast_enabled = false;
    let mut state = NotificationState::new();
    update_notifications(&mut state, &tracks, &cfg, &vec![id("World", "Boss")], &vec![], 6600, 0);
    assert!(state.toast_queue.is_empty());
    assert_eq!(state.upcoming_events.len(), 1);
    assert_eq!(state.upcoming_events[0].seconds_until, 600);
}

#[test]
fn bad_cycle_is_skipped_not_fatal() {
    let tracks = vec![track("World", vec![event("Broken", 0, 300, 0), event("Boss", 0, 300, 7200)])];
    let cfg = config(vec![lead(10)]);
    let followed = vec![id("World", "Broken"), id("World", "Boss")];
    let mut state = NotificationState::new();
    update_notifications(&mut state, &tracks, &cfg, &followed, &vec![], 6600, 0);
    assert_eq!(state.upcoming_events.len(), 1);
    assert_eq!(state.upcoming_events[0].event_id.event_name, "Boss");
    assert_eq!(state.toast_queue.len(), 1);
}

#[test]
fn hidden_track_and_disabled_event_are_ignored() {
    let mut hidden = track("Hidden", vec![event("Boss", 0, 300, 7200)]);
    hidden.visible = false;
    let mut off = event("Off", 0, 300, 7200);
    off.enabled = false;
    let tracks = vec![hidden, track("World", vec![off])];
    let cfg = config(vec![lead(10)]);
    let followed = vec![id("Hidden", "Boss"), id("World", "Off")];
    let mut state = NotificationState::new();
    update_notifications(&mut state, &tracks, &cfg, &followed, &vec![], 6600, 0);
    assert!(state.upcoming_events.is_empty());
    assert!(state.toast_queue.is_empty());
}

#[test]
fn lead_minutes_round_up() {
    let tracks = vec![track("World", vec![event("Boss", 0, 300, 7200)])];
    let cfg = config(vec![lead(10)]);
    let mut state = NotificationState::new();
    update_notifications(&mut state, &tracks, &cfg, &vec![id("World", "Boss")], &vec![], 6601, 0);
    assert_eq!(state.toast_queue[0].minutes_until, 10);
    let mut state = NotificationState::new();
    update_notifications(&mut state, &tracks, &cfg, &vec![id("World", "Boss")], &vec![], 6660, 0);
    assert_eq!(state.toast_queue[0].minutes_until, 9);
}
