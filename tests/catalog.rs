use event_timers::catalog::{EventColor, EventTrack, TimelineEvent, TimelineType};
use event_timers::config::{apply_user_overrides, extract_user_overrides, TrackOverride};
use event_timers::schedule::{build_track, expand_schedule, tracks_from_catalog, CategorySource, ScheduleSource, TrackSource};

fn color() -> EventColor {
    EventColor { r: 1, g: 2, b: 3, a: 4 }
}

fn schedule(name: &str, offset: i32, interval: i32, duration: i32) -> ScheduleSource {
    ScheduleSource {
        name: name.to_string(),
        offset,
        interval,
        duration,
        color: color(),
        copy_text: "[&wp]".to_string(),
    }
}

fn event(name: &str, enabled: bool) -> TimelineEvent {
    TimelineEvent {
        name: name.to_string(),
        start_offset: 0,
        duration: 60,
        cycle_duration: 7200,
        color: color(),
        copy_text: String::new(),
        enabled,
    }
}

fn track(name: &str, events: Vec<TimelineEvent>) -> EventTrack {
    EventTrack {
        name: name.to_string(),
        timeline_type: TimelineType::RealTime,
        events,
        base_time: 0,
        visible: true,
        height: 4000,
        category: String::new(),
    }
}

#[test]
fn single_schedule_line_makes_one_event() {
    let r = expand_schedule(&schedule("Boss", 15, 0, 10), 120);
    assert_eq!(r.len(), 1);
    assert_eq!(r[0].start_offset, 900);
    assert_eq!(r[0].duration, 600);
    assert_eq!(r[0].cycle_duration, 7200);
    assert_eq!(r[0].copy_text, "[&wp]");
    assert!(r[0].enabled);
}

#[test]
fn repeating_schedule_line_fills_the_cycle() {
    let r = expand_schedule(&schedule("Rift", 5, 30, 10), 120);
    let starts: Vec<i64> = r.iter().map(|e| e.start_offset).collect();
    assert_eq!(starts, vec![300, 2100, 3900, 5700]);
}

#[test]
fn negative_interval_makes_nothing() {
    assert!(expand_schedule(&schedule("Odd", 5, -30, 10), 120).is_empty());
    assert!(expand_schedule(&schedule("Odd", 5, 200, 10), 120).is_empty());
}

#[test]
fn catalog_tracks_carry_events_then_schedules() {
    let src = TrackSource {
        name: "World".to_string(),
        timeline_type: TimelineType::GameTime,
        base_time_calculator: "local_day_start".to_string(),
        visible: true,
        height: 4000,
        schedules: vec![schedule("Rift", 0, 360, 15)],
        events: vec![event("Fixed", true)],
    };
    let t = build_track(&src, &"Core".to_string(), 100000);
    assert_eq!(t.base_time, 97200);
    assert_eq!(t.category, "Core");
    let names: Vec<&str> = t.events.iter().map(|e| e.name.as_str()).collect();
    assert_eq!(names, vec!["Fixed", "Rift", "Rift", "Rift", "Rift"]);
    assert_eq!(t.events[4].start_offset, 1080 * 60);
    assert_eq!(t.events[1].cycle_duration, 86400);

    let cats = vec![
        CategorySource { name: "Core".to_string(), tracks: vec![src] },
        CategorySource { name: "Empty".to_string(), tracks: vec![] },
    ];
    let (tracks, names) = tracks_from_catalog(&cats, 100000);
    assert_eq!(tracks.len(), 1);
    assert_eq!(names, vec!["Core".to_string(), "Empty".to_string()]);
}

#[test]
fn user_tracks_are_cleaned_and_overrides_applied() {
    let defaults = vec![track("World", vec![event("Boss", true), event("Rift", true)]), track("Map", vec![])];
    let mut custom = vec![track("Mine", vec![]), track("World", vec![]), track("Mine", vec![event("x", true)])];
    let overrides = vec![(
        "World".to_string(),
        TrackOverride { visible: Some(false), height: Some(6000), disabled_events: vec!["Rift".to_string()] },
    )];
    let tracks = apply_user_overrides(&mut custom, &overrides, &defaults);
    assert_eq!(custom.len(), 1);
    assert!(custom[0].events.is_empty());
    let names: Vec<&str> = tracks.iter().map(|t| t.name.as_str()).collect();
    assert_eq!(names, vec!["World", "Map", "Mine"]);
    assert!(!tracks[0].visible);
    assert_eq!(tracks[0].height, 6000);
    assert!(tracks[0].events[0].enabled);
    assert!(!tracks[0].events[1].enabled);
    assert!(tracks[1].visible);
}

#[test]
fn overrides_record_only_differences() {
    let defaults = vec![track("World", vec![event("Boss", true)]), track("Map", vec![])];
    let mut changed = track("World", vec![event("Boss", false)]);
    changed.height = 4005;
    let mut moved = track("Map", vec![]);
    moved.height = 4020;
    let current = vec![changed, moved, track("Mine", vec![])];
    let (overrides, custom) = extract_user_overrides(&current, &defaults);
    assert_eq!(custom.len(), 1);
    assert_eq!(custom[0].name, "Mine");
    assert_eq!(overrides.len(), 2);
    let world = &overrides.iter().find(|o| o.0 == "World").unwrap().1;
    assert_eq!(world.visible, None);
    assert_eq!(world.height, None);
    assert_eq!(world.disabled_events, vec!["Boss".to_string()]);
    let map = &overrides.iter().find(|o| o.0 == "Map").unwrap().1;
    assert_eq!(map.height, Some(4020));
    assert!(map.disabled_events.is_empty());
}
