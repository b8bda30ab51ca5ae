use vstd::prelude::*;

use crate::catalog::{EventColor, EventTrack, TimelineEvent, TimelineType};
use crate::time_utils::{base_time_for, get_base_time_from_calculator, SECONDS_PER_DAY};

verus! {

/// A schedule line of the catalog: an event at `offset` minutes into the
/// cycle, lasting `duration` minutes, repeated every `interval` minutes
/// (`0`: once per cycle).
#[derive(Debug)]
pub struct ScheduleSource {
    pub name: String,
    pub offset: i32,
    pub interval: i32,
    pub duration: i32,
    pub color: EventColor,
    pub copy_text: String,
}

/// A track of the catalog as written: explicit events and schedule lines.
#[derive(Debug)]
pub struct TrackSource {
    pub name: String,
    pub timeline_type: TimelineType,
    /// Names how the anchor time is found (`tyria_cycle`, `cantha_cycle`, `local_day_start`).
    pub base_time_calculator: String,
    pub visible: bool,
    /// In hundredths of a pixel.
    pub height: u32,
    pub schedules: Vec<ScheduleSource>,
    pub events: Vec<TimelineEvent>,
}

/// A named group of catalog tracks.
#[derive(Debug)]
pub struct CategorySource {
    pub name: String,
    pub tracks: Vec<TrackSource>,
}

pub open spec fn magnitude(a: int) -> int {
    if a >= 0 {
        a
    } else {
        -a
    }
}

/// Integer division rounding toward zero.
pub open spec fn quot(a: int, b: int) -> int
    recommends
        b != 0,
{
    if (a >= 0) == (b > 0) {
        magnitude(a) / magnitude(b)
    } else {
        -(magnitude(a) / magnitude(b))
    }
}

/// How many events a schedule line makes in a cycle of `cycle_minutes`.
pub open spec fn repetitions(s: ScheduleSource, cycle_minutes: int) -> int {
    if s.interval == 0 {
        1
    } else if quot(cycle_minutes, s.interval as int) > 0 {
        quot(cycle_minutes, s.interval as int)
    } else {
        0
    }
}

/// `e` is the event that schedule line `s` makes at `spawn` minutes.
pub open spec fn schedule_event(
    e: TimelineEvent,
    s: ScheduleSource,
    spawn: int,
    cycle_minutes: int,
) -> bool {
    &&& e.name@ == s.name@
    &&& e.start_offset == spawn * 60
    &&& e.duration == s.duration * 60
    &&& e.cycle_duration == cycle_minutes * 60
    &&& e.color == s.color
    &&& e.copy_text@ == s.copy_text@
    &&& e.enabled
}

/// The events of a schedule line: the `i`-th starts `offset + i * interval`
/// minutes into the cycle.
pub fn expand_schedule(schedule: &ScheduleSource, cycle_minutes: i32) -> (r: Vec<TimelineEvent>)
    ensures
        r@.len() == repetitions(*schedule, cycle_minutes as int),
        forall|i: int|
            0 <= i < r@.len() ==> schedule_event(
                #[trigger] r@[i],
                *schedule,
                schedule.offset + i * schedule.interval,
                cycle_minutes as int,
            ),
{
    let reps: i64 = if schedule.interval == 0 {
        1
    } else {
        let q: i64 = match (cycle_minutes as i64).checked_div(schedule.interval as i64) {
            Some(q) => q,
            None => 0,
        };
        if q > 0 {
            q
        } else {
            0
        }
    };
    proof {
        let a = cycle_minutes as int;
        let b = schedule.interval as int;
        if b != 0 {
            assert(quot(a, b) == if a == 0 {
                0
            } else if a > 0 && b > 0 {
                a / b
            } else if a < 0 && b < 0 {
                (a * -1) / (b * -1)
            } else if a < 0 {
                ((a * -1) / b) * -1
            } else {
                (a / (b * -1)) * -1
            });
        }
        assert(reps == repetitions(*schedule, a));
    }
    let mut r: Vec<TimelineEvent> = Vec::new();
    let mut i: i64 = 0;
    while i < reps
        invariant
            0 <= i <= reps,
            reps == repetitions(*schedule, cycle_minutes as int),
            r@.len() == i,
            forall|j: int|
                0 <= j < i ==> schedule_event(
                    #[trigger] r@[j],
                    *schedule,
                    schedule.offset + j * schedule.interval,
                    cycle_minutes as int,
                ),
        decreases reps - i,
    {
        proof {
            let a = cycle_minutes as int;
            let b = schedule.interval as int;
            let ii = i as int;
            if b != 0 {
                let aa = magnitude(a);
                let bb = magnitude(b);
                let qq = aa / bb;
                assert(ii < qq);
                assert(ii * bb <= aa) by (nonlinear_arith)
                    requires
                        0 <= ii < qq,
                        qq == aa / bb,
                        bb > 0,
                        aa >= 0,
                {
                    assert(ii * bb <= qq * bb);
                    assert(qq * bb <= aa);
                }
                if b > 0 {
                    assert(ii * b == ii * bb);
                } else {
                    assert(ii * b == -(ii * bb)) by (nonlinear_arith)
                        requires
                            bb == -b,
                    ;
                }
            } else {
                assert(ii == 0);
            }
        }
        let spawn: i64 = schedule.offset as i64 + i * schedule.interval as i64;
        r.push(
            TimelineEvent {
                name: schedule.name.clone(),
                start_offset: spawn * 60,
                duration: schedule.duration as i64 * 60,
                cycle_duration: cycle_minutes as i64 * 60,
                color: schedule.color,
                copy_text: schedule.copy_text.clone(),
                enabled: true,
            },
        );
        i = i + 1;
    }
    r
}

/// Length, in minutes, of the cycle of a catalog track's schedule lines.
pub open spec fn cycle_minutes_for(calculator: Seq<char>) -> int {
    if calculator == "tyria_cycle"@ || calculator == "cantha_cycle"@ {
        120
    } else {
        1440
    }
}

/// How many events the first `k` schedule lines make.
pub open spec fn reps_before(ss: Seq<ScheduleSource>, k: int, cycle_minutes: int) -> int
    decreases k,
{
    if k <= 0 {
        0
    } else {
        reps_before(ss, k - 1, cycle_minutes) + repetitions(ss[k - 1], cycle_minutes)
    }
}

proof fn lemma_reps_before_mono(ss: Seq<ScheduleSource>, j: int, k: int, cm: int)
    requires
        0 <= j <= k,
    ensures
        reps_before(ss, j, cm) <= reps_before(ss, k, cm),
    decreases k - j,
{
    if j < k {
        lemma_reps_before_mono(ss, j, k - 1, cm);
        assert(repetitions(ss[k - 1], cm) >= 0);
    }
}

/// `t` is the track that the catalog track `src`, of category `category`,
/// gives at `now`: its own events, then those of each schedule line in turn.
pub open spec fn built_track(t: EventTrack, src: TrackSource, category: Seq<char>, now: int) -> bool {
    let cm = cycle_minutes_for(src.base_time_calculator@);
    let n0 = src.events@.len() as int;
    let ss = src.schedules@;
    &&& t.name@ == src.name@
    &&& t.timeline_type == src.timeline_type
    &&& t.base_time == base_time_for(src.base_time_calculator@, now)
    &&& t.visible == src.visible
    &&& t.height == src.height
    &&& t.category@ == category
    &&& t.events@.len() == n0 + reps_before(ss, ss.len() as int, cm)
    &&& forall|i: int| 0 <= i < n0 ==> #[trigger] t.events@[i] == src.events@[i]
    &&& forall|k: int, i: int|
        0 <= k < ss.len() && 0 <= i < repetitions(ss[k], cm) ==> schedule_event(
            #[trigger] t.events@[n0 + reps_before(ss, k, cm) + i],
            ss[k],
            ss[k].offset + i * ss[k].interval,
            cm,
        )
}

/// The track that the catalog track `src` gives at `current_time`.
pub fn build_track(src: &TrackSource, category: &String, current_time: i64) -> (t: EventTrack)
    requires
        current_time >= i64::MIN + SECONDS_PER_DAY,
    ensures
        built_track(t, *src, category@, current_time as int),
{
    let calc = src.base_time_calculator.clone();
    let cycle_minutes: i32 = if calc == "tyria_cycle".to_owned() || calc == "cantha_cycle".to_owned() {
        120
    } else {
        1440
    };
    let ghost cm = cycle_minutes as int;
    let ghost ss = src.schedules@;
    let ghost n0 = src.events@.len() as int;
    let mut events = src.events.clone();
    proof {
        assert forall|i: int| 0 <= i < events@.len() implies events@[i] == src.events@[i] by {
            assert(cloned::<TimelineEvent>(src.events[i], events[i]));
        }
    }
    let mut k: usize = 0;
    while k < src.schedules.len()
        invariant
            k <= ss.len(),
            ss == src.schedules@,
            cm == cycle_minutes,
            cm == cycle_minutes_for(src.base_time_calculator@),
            n0 == src.events@.len(),
            events@.len() == n0 + reps_before(ss, k as int, cm),
            forall|i: int| 0 <= i < n0 ==> #[trigger] events@[i] == src.events@[i],
            forall|kk: int, i: int|
                0 <= kk < k && 0 <= i < repetitions(ss[kk], cm) ==> schedule_event(
                    #[trigger] events@[n0 + reps_before(ss, kk, cm) + i],
                    ss[kk],
                    ss[kk].offset + i * ss[kk].interval,
                    cm,
                ),
        decreases ss.len() - k,
    {
        let ex = expand_schedule(&src.schedules[k], cycle_minutes);
        let base = events.len();
        let ghost before = events@;
        let mut i: usize = 0;
        while i < ex.len()
            invariant
                i <= ex@.len(),
                base == before.len(),
                events@.len() == base + i,
                forall|a: int| 0 <= a < base ==> #[trigger] events@[a] == before[a],
                forall|a: int| 0 <= a < i ==> #[trigger] events@[base + a] == ex@[a],
            decreases ex@.len() - i,
        {
            let e = ex[i].clone();
            events.push(e);
            i = i + 1;
        }
        proof {
            let kk0 = k as int;
            assert forall|kk: int, j: int|
                0 <= kk < kk0 + 1 && 0 <= j < repetitions(ss[kk], cm) implies schedule_event(
                #[trigger] events@[n0 + reps_before(ss, kk, cm) + j],
                ss[kk],
                ss[kk].offset + j * ss[kk].interval,
                cm,
            ) by {
                if kk < kk0 {
                    lemma_reps_before_mono(ss, kk + 1, kk0, cm);
                    assert(reps_before(ss, kk + 1, cm) == reps_before(ss, kk, cm) + repetitions(
                        ss[kk],
                        cm,
                    ));
                    assert(n0 + reps_before(ss, kk, cm) + j < before.len());
                    lemma_reps_before_mono(ss, 0, kk, cm);
                    assert(events@[n0 + reps_before(ss, kk, cm) + j] == before[n0 + reps_before(
                        ss,
                        kk,
                        cm,
                    ) + j]);
                } else {
                    assert(events@[n0 + reps_before(ss, kk, cm) + j] == ex@[j]);
                }
            }
            assert forall|a: int| 0 <= a < n0 implies #[trigger] events@[a] == src.events@[a] by {
                lemma_reps_before_mono(ss, 0, kk0, cm);
                assert(events@[a] == before[a]);
            }
        }
        k = k + 1;
    }
    EventTrack {
        name: src.name.clone(),
        timeline_type: src.timeline_type,
        events,
        base_time: get_base_time_from_calculator(src.base_time_calculator.as_str(), current_time),
        visible: src.visible,
        height: src.height,
        category: category.clone(),
    }
}

/// How many tracks the first `c` categories hold.
pub open spec fn tracks_before(cats: Seq<CategorySource>, c: int) -> int
    decreases c,
{
    if c <= 0 {
        0
    } else {
        tracks_before(cats, c - 1) + cats[c - 1].tracks@.len()
    }
}

proof fn lemma_tracks_before_mono(cats: Seq<CategorySource>, j: int, k: int)
    requires
        0 <= j <= k,
    ensures
        tracks_before(cats, j) <= tracks_before(cats, k),
    decreases k - j,
{
    if j < k {
        lemma_tracks_before_mono(cats, j, k - 1);
    }
}

/// The tracks of the catalog at `current_time`, category by category, and
/// the category names.
pub fn tracks_from_catalog(categories: &Vec<CategorySource>, current_time: i64) -> (r: (
    Vec<EventTrack>,
    Vec<String>,
))
    requires
        current_time >= i64::MIN + SECONDS_PER_DAY,
    ensures
        r.1@.len() == categories@.len(),
        forall|c: int| 0 <= c < categories@.len() ==> (#[trigger] r.1@[c])@ == categories@[c].name@,
        r.0@.len() == tracks_before(categories@, categories@.len() as int),
        forall|c: int, t: int|
            0 <= c < categories@.len() && 0 <= t < categories@[c].tracks@.len() ==> built_track(
                #[trigger] r.0@[tracks_before(categories@, c) + t],
                categories@[c].tracks@[t],
                categories@[c].name@,
                current_time as int,
            ),
{
    let ghost cats = categories@;
    let mut tracks: Vec<EventTrack> = Vec::new();
    let mut names: Vec<String> = Vec::new();
    let mut c: usize = 0;
    while c < categories.len()
        invariant
            c <= cats.len(),
            cats == categories@,
            current_time >= i64::MIN + SECONDS_PER_DAY,
            names@.len() == c,
            forall|a: int| 0 <= a < c ==> (#[trigger] names@[a])@ == cats[a].name@,
            tracks@.len() == tracks_before(cats, c as int),
            forall|a: int, t: int|
                0 <= a < c && 0 <= t < cats[a].tracks@.len() ==> built_track(
                    #[trigger] tracks@[tracks_before(cats, a) + t],
                    cats[a].tracks@[t],
                    cats[a].name@,
                    current_time as int,
                ),
        decreases cats.len() - c,
    {
        let cat = &categories[c];
        names.push(cat.name.clone());
        let ghost before = tracks@;
        let mut t: usize = 0;
        while t < cat.tracks.len()
            invariant
                t <= cat.tracks@.len(),
                current_time >= i64::MIN + SECONDS_PER_DAY,
                tracks@.len() == before.len() + t,
                forall|a: int| 0 <= a < before.len() ==> #[trigger] tracks@[a] == before[a],
                forall|b: int|
                    0 <= b < t ==> built_track(
                        #[trigger] tracks@[before.len() + b],
                        cat.tracks@[b],
                        cat.name@,
                        current_time as int,
                    ),
            decreases cat.tracks@.len() - t,
        {
            let nt = build_track(&cat.tracks[t], &cat.name, current_time);
            tracks.push(nt);
            t = t + 1;
        }
        proof {
            let c0 = c as int;
            assert forall|a: int, tt: int|
                0 <= a < c0 + 1 && 0 <= tt < cats[a].tracks@.len() implies built_track(
                #[trigger] tracks@[tracks_before(cats, a) + tt],
                cats[a].tracks@[tt],
                cats[a].name@,
                current_time as int,
            ) by {
                if a < c0 {
                    lemma_tracks_before_mono(cats, a + 1, c0);
                    assert(tracks_before(cats, a + 1) == tracks_before(cats, a) + cats[a].tracks@.len());
                    assert(tracks_before(cats, a) + tt < before.len());
                    lemma_tracks_before_mono(cats, 0, a);
                    assert(tracks@[tracks_before(cats, a) + tt] == before[tracks_before(cats, a)
                        + tt]);
                }
            }
        }
        c = c + 1;
    }
    (tracks, names)
}

} // verus!
