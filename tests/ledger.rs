use event_timers::catalog::{EventColor, TrackedEventId};
use event_timers::notifications::NotificationState;

fn white() -> EventColor {
    EventColor { r: 0x3f800000, g: 0x3f800000, b: 0x3f800000, a: 0x3f800000 }
}

fn add(state: &mut NotificationState, event: &str, now: i64, now_ms: u64) {
    state.add_toast(
        TrackedEventId::new("Track", event),
        now + 600,
        10,
        10,
        String::new(),
        "Soon".to_string(),
        white(),
        now,
        now_ms,
    );
}

#[test]
fn global_gate_needs_two_seconds() {
    let mut state = NotificationState::new();
    assert!(state.can_add_toast(2));
    add(&mut state, "A", 100, 0);
    assert!(!state.can_add_toast(100));
    assert!(!state.can_add_toast(101));
    assert!(state.can_add_toast(102));
}

#[test]
fn per_event_gate_needs_thirty_seconds() {
    let mut state = NotificationState::new();
    let id = TrackedEventId::new("Track", "A");
    let other = TrackedEventId::new("Track", "B");
    assert!(state.can_notify_event(&id, 0));
    state.mark_event_notified(&id, 1000);
    assert!(!state.can_notify_event(&id, 1029));
    assert!(state.can_notify_event(&id, 1030));
    assert!(state.can_notify_event(&other, 1001));
    state.mark_event_notified(&id, 2000);
    assert!(!state.can_notify_event(&id, 2010));
    assert_eq!(state.event_last_notified.len(), 1);
}

#[test]
fn lead_records_are_per_occurrence_and_lead() {
    let mut state = NotificationState::new();
    let id = TrackedEventId::new("Track", "A");
    assert!(!state.was_notified(&id, 7200, 10));
    state.mark_notified(&id, 7200, 10);
    assert!(state.was_notified(&id, 7200, 10));
    assert!(!state.was_notified(&id, 7200, 5));
    assert!(!state.was_notified(&id, 14400, 10));
    assert!(!state.was_notified(&TrackedEventId::new("Other", "A"), 7200, 10));
}

#[test]
fn repeating_gate_waits_one_interval() {
    let mut state = NotificationState::new();
    let id = TrackedEventId::new("Track", "A");
    assert!(state.should_show_ongoing(&id, 7200, 7200, 300));
    state.mark_ongoing_notified(&id, 7200, 7200);
    assert!(!state.should_show_ongoing(&id, 7200, 7499, 300));
    assert!(state.should_show_ongoing(&id, 7200, 7500, 300));
    assert!(state.should_show_ongoing(&id, 14400, 7201, 300));
    state.mark_ongoing_notified(&id, 7200, 7500);
    assert!(!state.should_show_ongoing(&id, 7200, 7600, 300));
    assert_eq!(state.ongoing_last_notified.len(), 1);
}

#[test]
fn cleanup_drops_old_records_only() {
    let mut state = NotificationState::new();
    let id = TrackedEventId::new("Track", "A");
    let b = TrackedEventId::new("Track", "B");
    let now = 200_000;
    state.mark_notified(&id, now - 86401, 10);
    state.mark_notified(&id, now - 86400, 10);
    state.mark_ongoing_notified(&id, now - 86401, now - 86000);
    state.mark_ongoing_notified(&id, now - 86400, now - 50);
    state.mark_event_notified(&id, now - 301);
    state.mark_event_notified(&b, now - 300);
    state.cleanup_old_notifications(now);
    assert!(!state.was_notified(&id, now - 86401, 10));
    assert!(state.was_notified(&id, now - 86400, 10));
    assert!(state.should_show_ongoing(&id, now - 86401, now, 1_000_000));
    assert!(!state.should_show_ongoing(&id, now - 86400, now, 1_000_000));
    assert_eq!(state.event_last_notified.len(), 1);
    assert!(state.can_notify_event(&id, now - 300));
    assert!(!state.can_notify_event(&b, now - 300 + 29));
}

#[test]
fn five_second_toast_fades_in_its_last_second() {
    let mut state = NotificationState::new();
    add(&mut state, "A", 100, 10_000);
    state.update_toasts(5000, 5, 10_000 + 3999);
    assert_eq!(state.toast_queue[0].opacity, 1000);
    state.update_toasts(5000, 5, 10_000 + 4000);
    assert_eq!(state.toast_queue[0].opacity, 1000);
    state.update_toasts(5000, 5, 10_000 + 4001);
    assert_eq!(state.toast_queue[0].opacity, 999);
    state.update_toasts(5000, 5, 10_000 + 4500);
    assert_eq!(state.toast_queue[0].opacity, 500);
    state.update_toasts(5000, 5, 10_000 + 4999);
    assert_eq!(state.toast_queue[0].opacity, 1);
    state.update_toasts(5000, 5, 10_000 + 5001);
    assert!(state.toast_queue.is_empty());
}

#[test]
fn opacity_strictly_falls_over_the_last_second() {
    let mut last = 1001;
    for e in 4000u64..=4999 {
        let mut state = NotificationState::new();
        add(&mut state, "A", 100, 0);
        state.update_toasts(5000, 5, e);
        let o = state.toast_queue[0].opacity;
        assert!(o < last, "at {}", e);
        last = o;
    }
}

#[test]
fn dismissed_toast_leaves_on_next_step() {
    let mut state = NotificationState::new();
    add(&mut state, "A", 100, 0);
    add(&mut state, "B", 102, 0);
    let first = state.toast_queue[0].id;
    state.dismiss_toast(first);
    assert!(state.toast_queue[0].dismissed);
    assert!(!state.toast_queue[1].dismissed);
    state.update_toasts(5000, 5, 10);
    assert_eq!(state.toast_queue.len(), 1);
    assert_ne!(state.toast_queue[0].id, first);
}

#[test]
fn eviction_keeps_the_newest() {
    let mut state = NotificationState::new();
    add(&mut state, "A", 100, 0);
    add(&mut state, "B", 102, 0);
    add(&mut state, "C", 104, 0);
    state.update_toasts(5000, 2, 1);
    assert_eq!(state.toast_queue.len(), 2);
    assert_eq!(state.toast_queue[0].event_id.event_name, "B");
    assert_eq!(state.toast_queue[1].event_id.event_name, "C");
    state.update_toasts(5000, 0, 1);
    assert!(state.toast_queue.is_empty());
}

#[test]
fn toast_ids_are_never_reused() {
    let mut state = NotificationState::new();
    add(&mut state, "A", 100, 0);
    state.show_preview("Preview", white(), 0);
    add(&mut state, "B", 102, 0);
    let ids: Vec<u64> = state.toast_queue.iter().map(|t| t.id).collect();
    assert_eq!(ids, vec![0, 2]);
    assert_eq!(state.preview_toast.as_ref().unwrap().id, 1);
    assert!(state.has_toast_ids_left());
}

#[test]
fn preview_shows_sample_and_fades_out() {
    let mut state = NotificationState::default();
    state.show_preview("Starting soon!", white(), 1000);
    let p = state.preview_toast.as_ref().unwrap();
    assert_eq!(p.event_id.track_name, "Example Track");
    assert_eq!(p.event_id.event_name, "Example Event");
    assert_eq!(p.copy_text, "[&Example]");
    assert_eq!(p.reminder_name, "Starting soon!");
    assert_eq!(p.minutes_until, 5);
    state.update_preview(5000, 1000 + 4600);
    assert_eq!(state.preview_toast.as_ref().unwrap().opacity, 400);
    state.update_preview(5000, 1000 + 5001);
    assert!(state.preview_toast.is_none());
}

#[test]
fn refresh_happens_once_per_second() {
    let mut state = NotificationState::new();
    assert!(state.needs_refresh(5));
    state.set_refresh_time(5);
    assert!(!state.needs_refresh(5));
    assert!(state.needs_refresh(6));
}

#[test]
fn preview_leaves_when_its_time_is_up() {
    let mut state = NotificationState::new();
    state.show_preview("Soon", white(), 0);
    state.update_preview(5000, 4999);
    assert_eq!(state.preview_toast.as_ref().unwrap().opacity, 1);
    state.update_preview(5000, 5000);
    assert!(state.preview_toast.is_none());
}

#[test]
fn fade_keeps_opacity_before_the_last_second() {
    let mut state = NotificationState::new();
    add(&mut state, "A", 100, 0);
    state.update_toasts(1500, 5, 1000);
    assert_eq!(state.toast_queue[0].opacity, 500);
    state.update_toasts(100_000, 5, 1000);
    assert_eq!(state.toast_queue[0].opacity, 500);
}
