use event_timers::catalog::TrackedEventId;
use event_timers::subscriptions::{
    is_event_tracked, set_event_tracking, toggle_event_tracking, toggle_oneshot_tracking,
    untrack_event, Subscriptions,
};

#[test]
fn toggle_follows_then_unfollows() {
    let mut subs = Subscriptions::new();
    assert!(!is_event_tracked(&subs, "World", "Boss"));
    toggle_event_tracking(&mut subs, "World", "Boss");
    assert!(is_event_tracked(&subs, "World", "Boss"));
    assert!(!is_event_tracked(&subs, "World", "Other"));
    toggle_event_tracking(&mut subs, "World", "Boss");
    assert!(!is_event_tracked(&subs, "World", "Boss"));
    assert!(subs.tracked_events.is_empty());
}

#[test]
fn set_tracking_is_idempotent() {
    let mut subs = Subscriptions::new();
    set_event_tracking(&mut subs, "World", "Boss", true);
    set_event_tracking(&mut subs, "World", "Boss", true);
    assert_eq!(subs.tracked_events.len(), 1);
    set_event_tracking(&mut subs, "World", "Boss", false);
    assert!(!is_event_tracked(&subs, "World", "Boss"));
    set_event_tracking(&mut subs, "World", "Boss", false);
    assert!(subs.tracked_events.is_empty());
}

#[test]
fn one_shot_toggle_is_separate() {
    let mut subs = Subscriptions::new();
    toggle_oneshot_tracking(&mut subs, "World", "Boss");
    assert_eq!(subs.oneshot_events.len(), 1);
    assert!(!is_event_tracked(&subs, "World", "Boss"));
    toggle_oneshot_tracking(&mut subs, "World", "Boss");
    assert!(subs.oneshot_events.is_empty());
}

#[test]
fn untrack_removes_both_kinds() {
    let mut subs = Subscriptions::new();
    toggle_event_tracking(&mut subs, "World", "Boss");
    toggle_oneshot_tracking(&mut subs, "World", "Boss");
    toggle_event_tracking(&mut subs, "World", "Other");
    untrack_event(&mut subs, &TrackedEventId::new("World", "Boss"));
    assert!(!is_event_tracked(&subs, "World", "Boss"));
    assert!(is_event_tracked(&subs, "World", "Other"));
    assert!(subs.oneshot_events.is_empty());
}
