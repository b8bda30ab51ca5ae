use vstd::prelude::*;
use vstd::seq_lib::{to_multiset_build, to_multiset_insert};

use crate::catalog::{
    contains_id, id_listed, EventColor, EventKey, EventTrack, TimelineEvent, TrackedEventId,
};
use crate::notifications::{
    lemma_fade_origin,
    faded, keep_newest, visible, cooldowns_live, occurrences_after, queue_after_fade, records_after, NotificationState,
    NotifiedView, OngoingView, ToastNotification, UpcomingEvent, UpcomingView,
    EVENT_COOLDOWN_SECONDS, FULL_OPACITY, GLOBAL_COOLDOWN_SECONDS, RECORD_RETENTION_SECONDS,
};
use crate::occurrence::{calculate_event_timing, timing_fits, timing_spec, timing_view, TimingSpec};

verus! {

/// A reminder: `minutes_before > 0` fires once that many minutes ahead of
/// an occurrence; `minutes_before == 0` repeats every
/// `ongoing_interval_minutes` (at least one) while it is active.
#[derive(Debug)]
pub struct ReminderConfig {
    pub name: String,
    pub minutes_before: u32,
    pub text_color: EventColor,
    pub ongoing_interval_minutes: u32,
}

/// Notification settings read by each tick.
#[derive(Debug)]
pub struct NotificationConfig {
    pub toast_enabled: bool,
    /// How long a toast stays, in milliseconds.
    pub toast_duration_ms: u64,
    pub max_visible_toasts: usize,
    pub max_upcoming_events: usize,
    pub reminders: Vec<ReminderConfig>,
}

/// The ledger as values: lead-reminder records, repeating-reminder records,
/// per-event cooldowns and the instant of the last toast.
pub type Ledger = (Set<NotifiedView>, Map<OngoingView, int>, Map<EventKey, int>, int);

pub open spec fn ledger(s: NotificationState) -> Ledger {
    (s.notified(), s.ongoing(), s.cooldowns(), s.last_toast_time as int)
}

/// The ledger of `s` after garbage collection at `now`.
pub open spec fn cleaned(s: NotificationState, now: int) -> Ledger {
    (
        records_after(s.notified(), now - RECORD_RETENTION_SECONDS),
        occurrences_after(s.ongoing(), now - RECORD_RETENTION_SECONDS),
        cooldowns_live(s.cooldowns(), now),
        s.last_toast_time as int,
    )
}

pub open spec fn ids_set(ids: Seq<TrackedEventId>) -> Set<EventKey> {
    Set::new(|k: EventKey| id_listed(ids, k))
}

pub open spec fn key_of(t: EventTrack, e: TimelineEvent) -> EventKey {
    (t.name@, e.name@)
}

pub open spec fn event_timing(t: EventTrack, e: TimelineEvent, now: int) -> TimingSpec {
    timing_spec(
        t.base_time as int,
        e.start_offset as int,
        e.duration as int,
        e.cycle_duration as int,
        now,
    )
}

/// Whether a tick looks at event `e` of track `t`: the track is visible,
/// the event enabled and subscribed, and its occurrence computable.
pub open spec fn counted(
    t: EventTrack,
    e: TimelineEvent,
    persistent: Set<EventKey>,
    oneshot: Set<EventKey>,
    now: int,
) -> bool {
    &&& t.visible
    &&& e.enabled
    &&& (persistent.contains(key_of(t, e)) || oneshot.contains(key_of(t, e)))
    &&& e.cycle_duration > 0
    &&& timing_fits(event_timing(t, e, now))
}

/// Seconds between repeats of a repeating reminder.
pub open spec fn interval_of(r: ReminderConfig) -> int {
    (if r.ongoing_interval_minutes >= 1 {
        r.ongoing_interval_minutes as int
    } else {
        1
    }) * 60
}

/// Whether reminder `r` fires for the occurrence `tm` of event `id` at
/// `now`, given ledger `l`: the global gate, the per-event gate, and the
/// reminder's own rule must all pass.
pub open spec fn reminder_due(
    l: Ledger,
    id: EventKey,
    tm: TimingSpec,
    r: ReminderConfig,
    now: int,
) -> bool {
    &&& now - l.3 >= GLOBAL_COOLDOWN_SECONDS
    &&& (!l.2.contains_key(id) || now - l.2[id] >= EVENT_COOLDOWN_SECONDS)
    &&& if r.minutes_before == 0 {
        &&& tm.2 >= 0
        &&& tm.3 - tm.2 > interval_of(r)
        &&& (!l.1.contains_key((id, tm.0)) || now - l.1[(id, tm.0)] >= interval_of(r))
    } else {
        &&& 0 < tm.1 <= r.minutes_before as int * 60
        &&& !l.0.contains((id, tm.0, r.minutes_before))
    }
}

/// The ledger after reminder `r` fired for occurrence `tm` of `id` at `now`.
pub open spec fn record(l: Ledger, id: EventKey, tm: TimingSpec, r: ReminderConfig, now: int) -> Ledger {
    (
        if r.minutes_before == 0 {
            l.0
        } else {
            l.0.insert((id, tm.0, r.minutes_before))
        },
        if r.minutes_before == 0 {
            l.1.insert((id, tm.0), now)
        } else {
            l.1
        },
        l.2.insert(id, now),
        now,
    )
}

/// The minutes a toast shows: until the start for a lead reminder (rounded
/// up), or minus the minutes since the start for a repeating one.
pub open spec fn toast_minutes(tm: TimingSpec, r: ReminderConfig) -> int {
    if r.minutes_before == 0 {
        -(tm.2 / 60)
    } else {
        (tm.1 + 59) / 60
    }
}

/// Whether `t` is the toast with id `id` of reminder `r` for the occurrence
/// `tm` of event `key`, made at `now_ms`.
pub open spec fn toast_is(
    t: ToastNotification,
    id: u64,
    key: EventKey,
    tm: TimingSpec,
    r: ReminderConfig,
    copy_text: Seq<char>,
    now_ms: u64,
) -> bool {
    &&& t.id == id
    &&& t.event_id@ == key
    &&& t.event_start_time == tm.0
    &&& t.minutes_until == toast_minutes(tm, r)
    &&& t.minutes_before == r.minutes_before
    &&& t.created_at == now_ms
    &&& t.opacity == FULL_OPACITY
    &&& !t.dismissed
    &&& t.copy_text@ == copy_text
    &&& t.reminder_name@ == r.name@
    &&& t.reminder_color == r.text_color
}

pub open spec fn toast_for(
    t: ToastNotification,
    id: u64,
    track: EventTrack,
    e: TimelineEvent,
    r: ReminderConfig,
    now: int,
    now_ms: u64,
) -> bool {
    toast_is(t, id, key_of(track, e), event_timing(track, e, now), r, e.copy_text@, now_ms)
}

pub open spec fn lex_lt(a: int, b: int, c: int, x: int, y: int, z: int) -> bool {
    a < x || (a == x && (b < y || (b == y && c < z)))
}

/// Whether reminder `r` of event `e` of track `t` fires in a tick whose
/// ledger (after garbage collection) is `l`.
pub open spec fn fires_at(
    ts: Seq<EventTrack>,
    cfg: NotificationConfig,
    persistent: Set<EventKey>,
    oneshot: Set<EventKey>,
    l: Ledger,
    now: int,
    t: int,
    e: int,
    r: int,
) -> bool {
    &&& 0 <= t < ts.len()
    &&& 0 <= e < ts[t].events@.len()
    &&& 0 <= r < cfg.reminders@.len()
    &&& cfg.toast_enabled
    &&& counted(ts[t], ts[t].events@[e], persistent, oneshot, now)
    &&& reminder_due(
        l,
        key_of(ts[t], ts[t].events@[e]),
        event_timing(ts[t], ts[t].events@[e], now),
        cfg.reminders@[r],
        now,
    )
}

/// Whether some reminder before position `(t, e, r)`, in the order of
/// tracks, their events and the reminders, fires.
pub open spec fn fires_before(
    ts: Seq<EventTrack>,
    cfg: NotificationConfig,
    persistent: Set<EventKey>,
    oneshot: Set<EventKey>,
    l: Ledger,
    now: int,
    t: int,
    e: int,
    r: int,
) -> bool {
    exists|t2: int, e2: int, r2: int|
        #[trigger] fires_at(ts, cfg, persistent, oneshot, l, now, t2, e2, r2) && lex_lt(
            t2,
            e2,
            r2,
            t,
            e,
            r,
        )
}

/// The state after the toast of reminder `r` of event `e` of track `t` was
/// made, from ledger `l`, queue `q` and next id `next`.
pub open spec fn minted(
    s: NotificationState,
    ts: Seq<EventTrack>,
    cfg: NotificationConfig,
    l: Ledger,
    q: Seq<ToastNotification>,
    next: u64,
    now: int,
    now_ms: u64,
    t: int,
    e: int,
    r: int,
) -> bool {
    let track = ts[t];
    let ev = track.events@[e];
    let rem = cfg.reminders@[r];
    &&& ledger(s) == record(l, key_of(track, ev), event_timing(track, ev, now), rem, now)
    &&& s.toast_queue@.len() == q.len() + 1
    &&& s.toast_queue@.drop_last() == q
    &&& toast_for(s.toast_queue@.last(), next, track, ev, rem, now, now_ms)
    &&& s.next_toast_id == next + 1
}

/// The outcome of the reminders of a tick: the toast of the first reminder
/// that fires, if any, and its records; else the ledger `l` and queue `q`
/// as they were.
pub open spec fn reminders_outcome(
    s: NotificationState,
    ts: Seq<EventTrack>,
    cfg: NotificationConfig,
    persistent: Set<EventKey>,
    oneshot: Set<EventKey>,
    l: Ledger,
    q: Seq<ToastNotification>,
    next: u64,
    now: int,
    now_ms: u64,
    t: int,
    e: int,
    r: int,
) -> bool {
    if fires_before(ts, cfg, persistent, oneshot, l, now, t, e, r) {
        exists|t2: int, e2: int, r2: int|
            #[trigger] fires_at(ts, cfg, persistent, oneshot, l, now, t2, e2, r2) && !fires_before(
                ts,
                cfg,
                persistent,
                oneshot,
                l,
                now,
                t2,
                e2,
                r2,
            ) && lex_lt(t2, e2, r2, t, e, r) && minted(
                s,
                ts,
                cfg,
                l,
                q,
                next,
                now,
                now_ms,
                t2,
                e2,
                r2,
            )
    } else {
        &&& ledger(s) == l
        &&& s.toast_queue@ == q
        &&& s.next_toast_id == next
    }
}

/// The state after the toast of reminder `r` of event `e` of track `t` was
/// made from ledger `l`, queue `q` and next id `next`, and the oldest toasts
/// were then evicted down to `max`.
pub open spec fn minted_kept(
    s: NotificationState,
    ts: Seq<EventTrack>,
    cfg: NotificationConfig,
    l: Ledger,
    q: Seq<ToastNotification>,
    next: u64,
    now: int,
    now_ms: u64,
    t: int,
    e: int,
    r: int,
) -> bool {
    let track = ts[t];
    let ev = track.events@[e];
    let rem = cfg.reminders@[r];
    &&& ledger(s) == record(l, key_of(track, ev), event_timing(track, ev, now), rem, now)
    &&& s.next_toast_id == next + 1
    &&& exists|toast: ToastNotification|
        #[trigger] toast_for(toast, next, track, ev, rem, now, now_ms) && s.toast_queue@
            == keep_newest(q.push(toast), cfg.max_visible_toasts as int)
}

/// The outcome of the reminders of a refreshing tick: the toast of the
/// first reminder that fires, if any, with its records, the queue then cut
/// to the newest `max_visible_toasts`; else ledger `l` and queue `q` as
/// they were.
pub open spec fn tick_outcome(
    s: NotificationState,
    ts: Seq<EventTrack>,
    cfg: NotificationConfig,
    persistent: Set<EventKey>,
    oneshot: Set<EventKey>,
    l: Ledger,
    q: Seq<ToastNotification>,
    next: u64,
    now: int,
    now_ms: u64,
) -> bool {
    if fires_before(ts, cfg, persistent, oneshot, l, now, ts.len() as int, 0, 0) {
        exists|t2: int, e2: int, r2: int|
            #[trigger] fires_at(ts, cfg, persistent, oneshot, l, now, t2, e2, r2) && !fires_before(
                ts,
                cfg,
                persistent,
                oneshot,
                l,
                now,
                t2,
                e2,
                r2,
            ) && minted_kept(s, ts, cfg, l, q, next, now, now_ms, t2, e2, r2)
    } else {
        &&& ledger(s) == l
        &&& s.toast_queue@ == q
        &&& s.next_toast_id == next
    }
}

proof fn lemma_fires_before_step(
    ts: Seq<EventTrack>,
    cfg: NotificationConfig,
    persistent: Set<EventKey>,
    oneshot: Set<EventKey>,
    l: Ledger,
    now: int,
    t: int,
    e: int,
    r: int,
)
    ensures
        fires_before(ts, cfg, persistent, oneshot, l, now, t, e, r + 1) == (fires_before(
            ts,
            cfg,
            persistent,
            oneshot,
            l,
            now,
            t,
            e,
            r,
        ) || fires_at(ts, cfg, persistent, oneshot, l, now, t, e, r)),
{
    if fires_before(ts, cfg, persistent, oneshot, l, now, t, e, r + 1) {
        let (t2, e2, r2) = choose|t2: int, e2: int, r2: int|
            #[trigger] fires_at(ts, cfg, persistent, oneshot, l, now, t2, e2, r2) && lex_lt(
                t2,
                e2,
                r2,
                t,
                e,
                r + 1,
            );
        if !(t2 == t && e2 == e && r2 == r) {
            assert(lex_lt(t2, e2, r2, t, e, r));
        }
    }
    if fires_at(ts, cfg, persistent, oneshot, l, now, t, e, r) {
        assert(lex_lt(t, e, r, t, e, r + 1));
    }
    if fires_before(ts, cfg, persistent, oneshot, l, now, t, e, r) {
        let (t2, e2, r2) = choose|t2: int, e2: int, r2: int|
            #[trigger] fires_at(ts, cfg, persistent, oneshot, l, now, t2, e2, r2) && lex_lt(
                t2,
                e2,
                r2,
                t,
                e,
                r,
            );
        assert(lex_lt(t2, e2, r2, t, e, r + 1));
    }
}

/// Moving from the end of one event's reminders to the next event, or from
/// an event whose reminders cannot fire, changes nothing.
proof fn lemma_fires_before_next_event(
    ts: Seq<EventTrack>,
    cfg: NotificationConfig,
    persistent: Set<EventKey>,
    oneshot: Set<EventKey>,
    l: Ledger,
    now: int,
    t: int,
    e: int,
    r: int,
)
    requires
        0 <= r,
        forall|r2: int| r <= r2 ==> !#[trigger] fires_at(ts, cfg, persistent, oneshot, l, now, t, e, r2),
    ensures
        fires_before(ts, cfg, persistent, oneshot, l, now, t, e + 1, 0) == fires_before(
            ts,
            cfg,
            persistent,
            oneshot,
            l,
            now,
            t,
            e,
            r,
        ),
{
    if fires_before(ts, cfg, persistent, oneshot, l, now, t, e + 1, 0) {
        let (t2, e2, r2) = choose|t2: int, e2: int, r2: int|
            #[trigger] fires_at(ts, cfg, persistent, oneshot, l, now, t2, e2, r2) && lex_lt(
                t2,
                e2,
                r2,
                t,
                e + 1,
                0,
            );
        if t2 == t && e2 == e {
            assert(r2 < r);
        }
        assert(lex_lt(t2, e2, r2, t, e, r));
    }
    if fires_before(ts, cfg, persistent, oneshot, l, now, t, e, r) {
        let (t2, e2, r2) = choose|t2: int, e2: int, r2: int|
            #[trigger] fires_at(ts, cfg, persistent, oneshot, l, now, t2, e2, r2) && lex_lt(
                t2,
                e2,
                r2,
                t,
                e,
                r,
            );
        assert(lex_lt(t2, e2, r2, t, e + 1, 0));
    }
}

proof fn lemma_fires_before_next_track(
    ts: Seq<EventTrack>,
    cfg: NotificationConfig,
    persistent: Set<EventKey>,
    oneshot: Set<EventKey>,
    l: Ledger,
    now: int,
    t: int,
)
    requires
        0 <= t < ts.len(),
    ensures
        fires_before(ts, cfg, persistent, oneshot, l, now, t + 1, 0, 0) == fires_before(
            ts,
            cfg,
            persistent,
            oneshot,
            l,
            now,
            t,
            ts[t].events@.len() as int,
            0,
        ),
{
    if fires_before(ts, cfg, persistent, oneshot, l, now, t + 1, 0, 0) {
        let (t2, e2, r2) = choose|t2: int, e2: int, r2: int|
            #[trigger] fires_at(ts, cfg, persistent, oneshot, l, now, t2, e2, r2) && lex_lt(
                t2,
                e2,
                r2,
                t + 1,
                0,
                0,
            );
        assert(lex_lt(t2, e2, r2, t, ts[t].events@.len() as int, 0));
    }
    if fires_before(ts, cfg, persistent, oneshot, l, now, t, ts[t].events@.len() as int, 0) {
        let (t2, e2, r2) = choose|t2: int, e2: int, r2: int|
            #[trigger] fires_at(ts, cfg, persistent, oneshot, l, now, t2, e2, r2) && lex_lt(
                t2,
                e2,
                r2,
                t,
                ts[t].events@.len() as int,
                0,
            );
        assert(lex_lt(t2, e2, r2, t + 1, 0, 0));
    }
}

/// Tries one reminder for one occurrence: when `reminder_due` holds on the
/// ledger of `state`, makes the toast and records it.
fn try_remind(
    state: &mut NotificationState,
    r: &ReminderConfig,
    id: &TrackedEventId,
    copy_text: &String,
    tm: (i64, i64, i64, i64, i64),
    now: i64,
    now_ms: u64,
) -> (fired: bool)
    requires
        old(state).wf(),
        reminder_due(ledger(*old(state)), id@, timing_view(tm), *r, now as int)
            ==> old(state).next_toast_id < u64::MAX,
    ensures
        final(state).wf(),
        fired == reminder_due(ledger(*old(state)), id@, timing_view(tm), *r, now as int),
        fired ==> {
            &&& ledger(*final(state)) == record(
                ledger(*old(state)),
                id@,
                timing_view(tm),
                *r,
                now as int,
            )
            &&& final(state).toast_queue@.len() == old(state).toast_queue@.len() + 1
            &&& final(state).toast_queue@.drop_last() == old(state).toast_queue@
            &&& toast_is(
                final(state).toast_queue@.last(),
                old(state).next_toast_id,
                id@,
                timing_view(tm),
                *r,
                copy_text@,
                now_ms,
            )
            &&& final(state).next_toast_id == old(state).next_toast_id + 1
        },
        !fired ==> *final(state) == *old(state),
        final(state).preview_toast == old(state).preview_toast,
        final(state).last_refresh_time == old(state).last_refresh_time,
        final(state).upcoming_events == old(state).upcoming_events,
{
    let ghost t = timing_view(tm);
    if !state.can_add_toast(now) || !state.can_notify_event(id, now) {
        return false;
    }
    if r.minutes_before == 0 {
        let interval: i64 = if r.ongoing_interval_minutes >= 1 {
            r.ongoing_interval_minutes as i64 * 60
        } else {
            60
        };
        if tm.2 < 0 || tm.3 as i128 - tm.2 as i128 <= interval as i128 || !state.should_show_ongoing(
            id,
            tm.0,
            now,
            interval,
        ) {
            return false;
        }
        let minutes_ago: i64 = -((tm.2 as u64 / 60) as i64);
        let ghost q0 = state.toast_queue@;
        state.add_toast(
            id.clone(),
            tm.0,
            minutes_ago,
            0,
            copy_text.clone(),
            r.name.clone(),
            r.text_color,
            now,
            now_ms,
        );
        assert(state.toast_queue@.drop_last() =~= q0);
        state.mark_ongoing_notified(id, tm.0, now);
        state.mark_event_notified(id, now);
        true
    } else {
        let lead: i64 = r.minutes_before as i64 * 60;
        if tm.1 <= 0 || tm.1 > lead || state.was_notified(id, tm.0, r.minutes_before) {
            return false;
        }
        let minutes_until: i64 = ((tm.1 as u64 + 59) / 60) as i64;
        let ghost q0 = state.toast_queue@;
        state.add_toast(
            id.clone(),
            tm.0,
            minutes_until,
            r.minutes_before,
            copy_text.clone(),
            r.name.clone(),
            r.text_color,
            now,
            now_ms,
        );
        assert(state.toast_queue@.drop_last() =~= q0);
        state.mark_notified(id, tm.0, r.minutes_before);
        state.mark_event_notified(id, now);
        true
    }
}

/// Runs every reminder of the configuration on event `ei` of track `ti`,
/// whose occurrence is `tm`.
fn remind_event(
    state: &mut NotificationState,
    cfg: &NotificationConfig,
    id: &TrackedEventId,
    copy_text: &String,
    tm: (i64, i64, i64, i64, i64),
    now: i64,
    now_ms: u64,
    Ghost(ts): Ghost<Seq<EventTrack>>,
    Ghost(ti): Ghost<int>,
    Ghost(ei): Ghost<int>,
    Ghost(ps): Ghost<Set<EventKey>>,
    Ghost(os): Ghost<Set<EventKey>>,
    Ghost(l): Ghost<Ledger>,
    Ghost(q): Ghost<Seq<ToastNotification>>,
    Ghost(next): Ghost<u64>,
)
    requires
        old(state).wf(),
        next < u64::MAX,
        cfg.toast_enabled,
        0 <= ti < ts.len(),
        0 <= ei < ts[ti].events@.len(),
        counted(ts[ti], ts[ti].events@[ei], ps, os, now as int),
        id@ == key_of(ts[ti], ts[ti].events@[ei]),
        timing_view(tm) == event_timing(ts[ti], ts[ti].events@[ei], now as int),
        copy_text@ == ts[ti].events@[ei].copy_text@,
        reminders_outcome(*old(state), ts, *cfg, ps, os, l, q, next, now as int, now_ms, ti, ei, 0),
    ensures
        final(state).wf(),
        reminders_outcome(
            *final(state),
            ts,
            *cfg,
            ps,
            os,
            l,
            q,
            next,
            now as int,
            now_ms,
            ti,
            ei + 1,
            0,
        ),
        final(state).preview_toast == old(state).preview_toast,
        final(state).last_refresh_time == old(state).last_refresh_time,
        final(state).upcoming_events == old(state).upcoming_events,
{
    let ghost s0 = *old(state);
    let ghost nw = now as int;
    let mut k: usize = 0;
    while k < cfg.reminders.len()
        invariant
            state.wf(),
            next < u64::MAX,
            cfg.toast_enabled,
            0 <= ti < ts.len(),
            0 <= ei < ts[ti].events@.len(),
            nw == now,
            counted(ts[ti], ts[ti].events@[ei], ps, os, nw),
            id@ == key_of(ts[ti], ts[ti].events@[ei]),
            timing_view(tm) == event_timing(ts[ti], ts[ti].events@[ei], nw),
            copy_text@ == ts[ti].events@[ei].copy_text@,
            k <= cfg.reminders@.len(),
            reminders_outcome(*state, ts, *cfg, ps, os, l, q, next, nw, now_ms, ti, ei, k as int),
            state.preview_toast == s0.preview_toast,
            state.last_refresh_time == s0.last_refresh_time,
            state.upcoming_events == s0.upcoming_events,
        decreases cfg.reminders@.len() - k,
    {
        let ghost before = *state;
        let ghost kk = k as int;
        proof {
            lemma_fires_before_step(ts, *cfg, ps, os, l, nw, ti, ei, kk);
            if fires_before(ts, *cfg, ps, os, l, nw, ti, ei, kk) {
                let (t2, e2, r2) = choose|t2: int, e2: int, r2: int|
                    #[trigger] fires_at(ts, *cfg, ps, os, l, nw, t2, e2, r2) && !fires_before(
                        ts,
                        *cfg,
                        ps,
                        os,
                        l,
                        nw,
                        t2,
                        e2,
                        r2,
                    ) && lex_lt(t2, e2, r2, ti, ei, kk) && minted(
                        before,
                        ts,
                        *cfg,
                        l,
                        q,
                        next,
                        nw,
                        now_ms,
                        t2,
                        e2,
                        r2,
                    );
                assert(ledger(before).3 == nw);
            }
        }
        let fired = try_remind(state, &cfg.reminders[k], id, copy_text, tm, now, now_ms);
        proof {
            if fires_before(ts, *cfg, ps, os, l, nw, ti, ei, kk) {
                let (t2, e2, r2) = choose|t2: int, e2: int, r2: int|
                    #[trigger] fires_at(ts, *cfg, ps, os, l, nw, t2, e2, r2) && !fires_before(
                        ts,
                        *cfg,
                        ps,
                        os,
                        l,
                        nw,
                        t2,
                        e2,
                        r2,
                    ) && lex_lt(t2, e2, r2, ti, ei, kk) && minted(
                        before,
                        ts,
                        *cfg,
                        l,
                        q,
                        next,
                        nw,
                        now_ms,
                        t2,
                        e2,
                        r2,
                    );
                assert(!fired);
                assert(lex_lt(t2, e2, r2, ti, ei, kk + 1));
            } else if fired {
                assert(fires_at(ts, *cfg, ps, os, l, nw, ti, ei, kk));
                assert(lex_lt(ti, ei, kk, ti, ei, kk + 1));
                assert(minted(*state, ts, *cfg, l, q, next, nw, now_ms, ti, ei, kk));
            } else {
                assert(!fires_at(ts, *cfg, ps, os, l, nw, ti, ei, kk));
            }
        }
        k = k + 1;
    }
    proof {
        let rn = cfg.reminders@.len() as int;
        lemma_fires_before_next_event(ts, *cfg, ps, os, l, nw, ti, ei, rn);
        if fires_before(ts, *cfg, ps, os, l, nw, ti, ei, rn) {
            let (t2, e2, r2) = choose|t2: int, e2: int, r2: int|
                #[trigger] fires_at(ts, *cfg, ps, os, l, nw, t2, e2, r2) && !fires_before(
                    ts,
                    *cfg,
                    ps,
                    os,
                    l,
                    nw,
                    t2,
                    e2,
                    r2,
                ) && lex_lt(t2, e2, r2, ti, ei, rn) && minted(
                    *state,
                    ts,
                    *cfg,
                    l,
                    q,
                    next,
                    nw,
                    now_ms,
                    t2,
                    e2,
                    r2,
                );
            assert(lex_lt(t2, e2, r2, ti, ei + 1, 0));
        }
    }
}

/// The upcoming entry of event `e` of track `t`, if a tick looks at it.
pub open spec fn upcoming_item(
    t: EventTrack,
    e: TimelineEvent,
    ps: Set<EventKey>,
    os: Set<EventKey>,
    now: int,
) -> Option<UpcomingView> {
    if counted(t, e, ps, os, now) {
        let tm = event_timing(t, e, now);
        Some(
            (
                key_of(t, e),
                tm.0,
                tm.1,
                if tm.2 >= 0 {
                    tm.2
                } else {
                    0
                },
                e.color,
                e.copy_text@,
            ),
        )
    } else {
        None
    }
}

/// The one-shot subscription that event `e` of track `t` ends: a looked-at
/// one-shot event whose occurrence is active.
pub open spec fn removal_item(
    t: EventTrack,
    e: TimelineEvent,
    ps: Set<EventKey>,
    os: Set<EventKey>,
    now: int,
) -> Option<EventKey> {
    if counted(t, e, ps, os, now) && os.contains(key_of(t, e)) && event_timing(t, e, now).2 >= 0 {
        Some(key_of(t, e))
    } else {
        None
    }
}

pub open spec fn events_upcoming(
    t: EventTrack,
    evs: Seq<TimelineEvent>,
    ps: Set<EventKey>,
    os: Set<EventKey>,
    now: int,
) -> Seq<UpcomingView>
    decreases evs.len(),
{
    if evs.len() == 0 {
        Seq::empty()
    } else {
        let rest = events_upcoming(t, evs.drop_last(), ps, os, now);
        match upcoming_item(t, evs.last(), ps, os, now) {
            Some(x) => rest.push(x),
            None => rest,
        }
    }
}

/// The upcoming entries of all tracks, in catalog order.
pub open spec fn tracks_upcoming(
    ts: Seq<EventTrack>,
    ps: Set<EventKey>,
    os: Set<EventKey>,
    now: int,
) -> Seq<UpcomingView>
    decreases ts.len(),
{
    if ts.len() == 0 {
        Seq::empty()
    } else {
        tracks_upcoming(ts.drop_last(), ps, os, now) + events_upcoming(
            ts.last(),
            ts.last().events@,
            ps,
            os,
            now,
        )
    }
}

pub open spec fn events_removals(
    t: EventTrack,
    evs: Seq<TimelineEvent>,
    ps: Set<EventKey>,
    os: Set<EventKey>,
    now: int,
) -> Seq<EventKey>
    decreases evs.len(),
{
    if evs.len() == 0 {
        Seq::empty()
    } else {
        let rest = events_removals(t, evs.drop_last(), ps, os, now);
        match removal_item(t, evs.last(), ps, os, now) {
            Some(x) => rest.push(x),
            None => rest,
        }
    }
}

/// The one-shot subscriptions a tick ends, in catalog order.
pub open spec fn tracks_removals(
    ts: Seq<EventTrack>,
    ps: Set<EventKey>,
    os: Set<EventKey>,
    now: int,
) -> Seq<EventKey>
    decreases ts.len(),
{
    if ts.len() == 0 {
        Seq::empty()
    } else {
        tracks_removals(ts.drop_last(), ps, os, now) + events_removals(
            ts.last(),
            ts.last().events@,
            ps,
            os,
            now,
        )
    }
}

/// Where a stable sort by seconds-until puts an entry with key `k` into
/// the sorted `s`: after every entry whose key is not greater.
pub open spec fn insert_pos(s: Seq<UpcomingView>, k: int) -> int
    decreases s.len(),
{
    if s.len() == 0 {
        0
    } else if s.last().2 <= k {
        s.len() as int
    } else {
        insert_pos(s.drop_last(), k)
    }
}

/// `s` sorted by seconds-until (soonest first), keeping the order of equal keys.
pub open spec fn sort_by_until(s: Seq<UpcomingView>) -> Seq<UpcomingView>
    decreases s.len(),
{
    if s.len() == 0 {
        s
    } else {
        let sorted = sort_by_until(s.drop_last());
        sorted.insert(insert_pos(sorted, s.last().2), s.last())
    }
}

/// Entries in order of seconds-until, soonest first.
pub open spec fn sorted_by_until(s: Seq<UpcomingView>) -> bool {
    forall|i: int, j: int| 0 <= i < j < s.len() ==> (#[trigger] s[i]).2 <= (#[trigger] s[j]).2
}

proof fn lemma_insert_pos(s: Seq<UpcomingView>, k: int)
    requires
        sorted_by_until(s),
    ensures
        0 <= insert_pos(s, k) <= s.len(),
        forall|i: int| 0 <= i < insert_pos(s, k) ==> (#[trigger] s[i]).2 <= k,
        forall|i: int| insert_pos(s, k) <= i < s.len() ==> (#[trigger] s[i]).2 > k,
    decreases s.len(),
{
    if s.len() > 0 {
        let d = s.drop_last();
        if s.last().2 <= k {
            assert forall|i: int| 0 <= i < s.len() implies (#[trigger] s[i]).2 <= k by {
                if i < s.len() - 1 {
                    assert(s[i].2 <= s[s.len() - 1].2);
                }
            }
        } else {
            assert(sorted_by_until(d)) by {
                assert forall|i: int, j: int| 0 <= i < j < d.len() implies (#[trigger] d[i]).2 <= (
                #[trigger] d[j]).2 by {
                    assert(d[i] == s[i] && d[j] == s[j]);
                }
            }
            lemma_insert_pos(d, k);
            assert forall|i: int| 0 <= i < insert_pos(s, k) implies (#[trigger] s[i]).2 <= k by {
                assert(s[i] == d[i]);
            }
            assert forall|i: int| insert_pos(s, k) <= i < s.len() implies (#[trigger] s[i]).2 > k by {
                if i < s.len() - 1 {
                    assert(s[i] == d[i]);
                }
            }
        }
    }
}

/// The stable sort of the upcoming entries is sorted by seconds-until and
/// holds exactly the entries it was given (entries with equal keys keep
/// their order, as each is inserted after those not greater than it).
pub proof fn lemma_sort_by_until(s: Seq<UpcomingView>)
    ensures
        sorted_by_until(sort_by_until(s)),
        sort_by_until(s).to_multiset() == s.to_multiset(),
    decreases s.len(),
{
    if s.len() > 0 {
        let d = s.drop_last();
        let x = s.last();
        lemma_sort_by_until(d);
        let r = sort_by_until(d);
        let p = insert_pos(r, x.2);
        lemma_insert_pos(r, x.2);
        let out = r.insert(p, x);
        assert forall|i: int, j: int| 0 <= i < j < out.len() implies (#[trigger] out[i]).2 <= (
        #[trigger] out[j]).2 by {
            if j < p {
                assert(out[i] == r[i] && out[j] == r[j]);
            } else if j == p {
                assert(out[i] == r[i]);
            } else if i < p {
                assert(out[i] == r[i] && out[j] == r[j - 1]);
            } else if i == p {
                assert(out[j] == r[j - 1]);
            } else {
                assert(out[i] == r[i - 1] && out[j] == r[j - 1]);
            }
        }
        to_multiset_insert(r, p, x);
        assert(s =~= d.push(x));
        to_multiset_build(d, x);
    }
}

/// At most the first `n` items of `s`.
pub open spec fn first_n<A>(s: Seq<A>, n: int) -> Seq<A> {
    if s.len() > n {
        s.take(n)
    } else {
        s
    }
}

pub open spec fn upcoming_views(v: Seq<UpcomingEvent>) -> Seq<UpcomingView> {
    v.map_values(|u: UpcomingEvent| u@)
}

pub open spec fn id_views(v: Seq<TrackedEventId>) -> Seq<EventKey> {
    v.map_values(|u: TrackedEventId| u@)
}

/// The upcoming-events projection of a refresh.
pub open spec fn projection(
    ts: Seq<EventTrack>,
    ps: Set<EventKey>,
    os: Set<EventKey>,
    now: int,
    max: int,
) -> Seq<UpcomingView> {
    first_n(sort_by_until(tracks_upcoming(ts, ps, os, now)), max)
}

impl Clone for UpcomingEvent {
    fn clone(&self) -> (r: Self)
        ensures
            r == *self,
    {
        UpcomingEvent {
            event_id: self.event_id.clone(),
            start_time: self.start_time,
            seconds_until: self.seconds_until,
            seconds_into: self.seconds_into,
            color: self.color,
            copy_text: self.copy_text.clone(),
        }
    }
}

/// Sorts the entries by seconds-until, soonest first; entries with equal
/// keys keep their order.
pub fn sort_upcoming(v: &Vec<UpcomingEvent>) -> (r: Vec<UpcomingEvent>)
    ensures
        upcoming_views(r@) == sort_by_until(upcoming_views(v@)),
{
    let mut sorted: Vec<UpcomingEvent> = Vec::new();
    let mut i: usize = 0;
    while i < v.len()
        invariant
            i <= v.len(),
            upcoming_views(sorted@) == sort_by_until(upcoming_views(v@.take(i as int))),
        decreases v.len() - i,
    {
        let x = v[i].clone();
        let k = x.seconds_until;
        let ghost sv = upcoming_views(sorted@);
        let mut p: usize = sorted.len();
        assert(sv.take(p as int) =~= sv);
        while p > 0 && sorted[p - 1].seconds_until > k
            invariant
                p <= sorted.len(),
                sv == upcoming_views(sorted@),
                insert_pos(sv, k as int) == insert_pos(sv.take(p as int), k as int),
            decreases p,
        {
            proof {
                let t = sv.take(p as int);
                assert(t.drop_last() =~= sv.take(p - 1));
            }
            p = p - 1;
        }
        proof {
            if p > 0 {
                assert(sv.take(p as int).last() == sv[p - 1]);
            }
            assert(insert_pos(sv.take(p as int), k as int) == p);
        }
        let ghost xv = x@;
        sorted.insert(p, x);
        proof {
            let w = v@.take(i + 1);
            assert(upcoming_views(w).drop_last() =~= upcoming_views(v@.take(i as int)));
            assert(upcoming_views(w).last() == xv);
            assert(upcoming_views(sorted@) =~= sv.insert(p as int, xv));
        }
        i = i + 1;
    }
    assert(v@.take(v@.len() as int) =~= v@);
    sorted
}

/// From an event none of whose reminders fires, the outcome carries over
/// to the next event.
proof fn lemma_outcome_next_event(
    s: NotificationState,
    ts: Seq<EventTrack>,
    cfg: NotificationConfig,
    ps: Set<EventKey>,
    os: Set<EventKey>,
    l: Ledger,
    q: Seq<ToastNotification>,
    next: u64,
    now: int,
    now_ms: u64,
    t: int,
    e: int,
)
    requires
        reminders_outcome(s, ts, cfg, ps, os, l, q, next, now, now_ms, t, e, 0),
        forall|r2: int| 0 <= r2 ==> !#[trigger] fires_at(ts, cfg, ps, os, l, now, t, e, r2),
    ensures
        reminders_outcome(s, ts, cfg, ps, os, l, q, next, now, now_ms, t, e + 1, 0),
{
    lemma_fires_before_next_event(ts, cfg, ps, os, l, now, t, e, 0);
    if fires_before(ts, cfg, ps, os, l, now, t, e, 0) {
        let (t2, e2, r2) = choose|t2: int, e2: int, r2: int|
            #[trigger] fires_at(ts, cfg, ps, os, l, now, t2, e2, r2) && !fires_before(
                ts,
                cfg,
                ps,
                os,
                l,
                now,
                t2,
                e2,
                r2,
            ) && lex_lt(t2, e2, r2, t, e, 0) && minted(s, ts, cfg, l, q, next, now, now_ms, t2, e2, r2);
        assert(lex_lt(t2, e2, r2, t, e + 1, 0));
    }
}

proof fn lemma_outcome_next_track(
    s: NotificationState,
    ts: Seq<EventTrack>,
    cfg: NotificationConfig,
    ps: Set<EventKey>,
    os: Set<EventKey>,
    l: Ledger,
    q: Seq<ToastNotification>,
    next: u64,
    now: int,
    now_ms: u64,
    t: int,
)
    requires
        0 <= t < ts.len(),
        reminders_outcome(s, ts, cfg, ps, os, l, q, next, now, now_ms, t, ts[t].events@.len() as int, 0),
    ensures
        reminders_outcome(s, ts, cfg, ps, os, l, q, next, now, now_ms, t + 1, 0, 0),
{
    let en = ts[t].events@.len() as int;
    lemma_fires_before_next_track(ts, cfg, ps, os, l, now, t);
    if fires_before(ts, cfg, ps, os, l, now, t, en, 0) {
        let (t2, e2, r2) = choose|t2: int, e2: int, r2: int|
            #[trigger] fires_at(ts, cfg, ps, os, l, now, t2, e2, r2) && !fires_before(
                ts,
                cfg,
                ps,
                os,
                l,
                now,
                t2,
                e2,
                r2,
            ) && lex_lt(t2, e2, r2, t, en, 0) && minted(s, ts, cfg, l, q, next, now, now_ms, t2, e2, r2);
        assert(lex_lt(t2, e2, r2, t + 1, 0, 0));
    }
}

/// Looks at every event of track `ti`: collects its upcoming entries and
/// ended one-shot subscriptions, and runs the reminders.
fn scan_track(
    state: &mut NotificationState,
    cfg: &NotificationConfig,
    track: &EventTrack,
    tracked_events: &Vec<TrackedEventId>,
    oneshot_events: &Vec<TrackedEventId>,
    now: i64,
    now_ms: u64,
    upcoming: &mut Vec<UpcomingEvent>,
    removals: &mut Vec<TrackedEventId>,
    Ghost(ts): Ghost<Seq<EventTrack>>,
    Ghost(ti): Ghost<int>,
    Ghost(l): Ghost<Ledger>,
    Ghost(q): Ghost<Seq<ToastNotification>>,
    Ghost(next): Ghost<u64>,
)
    requires
        old(state).wf(),
        next < u64::MAX,
        0 <= ti < ts.len(),
        *track == ts[ti],
        reminders_outcome(
            *old(state),
            ts,
            *cfg,
            ids_set(tracked_events@),
            ids_set(oneshot_events@),
            l,
            q,
            next,
            now as int,
            now_ms,
            ti,
            0,
            0,
        ),
    ensures
        final(state).wf(),
        reminders_outcome(
            *final(state),
            ts,
            *cfg,
            ids_set(tracked_events@),
            ids_set(oneshot_events@),
            l,
            q,
            next,
            now as int,
            now_ms,
            ti + 1,
            0,
            0,
        ),
        upcoming_views(final(upcoming)@) == upcoming_views(old(upcoming)@) + events_upcoming(
            *track,
            track.events@,
            ids_set(tracked_events@),
            ids_set(oneshot_events@),
            now as int,
        ),
        id_views(final(removals)@) == id_views(old(removals)@) + events_removals(
            *track,
            track.events@,
            ids_set(tracked_events@),
            ids_set(oneshot_events@),
            now as int,
        ),
        final(state).preview_toast == old(state).preview_toast,
        final(state).last_refresh_time == old(state).last_refresh_time,
        final(state).upcoming_events == old(state).upcoming_events,
{
    let ghost ps = ids_set(tracked_events@);
    let ghost os = ids_set(oneshot_events@);
    let ghost nw = now as int;
    let ghost s0 = *old(state);
    let ghost u0 = upcoming_views(old(upcoming)@);
    let ghost r0 = id_views(old(removals)@);
    let ghost evs = track.events@;
    let mut j: usize = 0;
    while j < track.events.len()
        invariant
            state.wf(),
            next < u64::MAX,
            0 <= ti < ts.len(),
            *track == ts[ti],
            evs == track.events@,
            nw == now,
            ps == ids_set(tracked_events@),
            os == ids_set(oneshot_events@),
            j <= evs.len(),
            reminders_outcome(*state, ts, *cfg, ps, os, l, q, next, nw, now_ms, ti, j as int, 0),
            upcoming_views(upcoming@) == u0 + events_upcoming(*track, evs.take(j as int), ps, os, nw),
            id_views(removals@) == r0 + events_removals(*track, evs.take(j as int), ps, os, nw),
            state.preview_toast == s0.preview_toast,
            state.last_refresh_time == s0.last_refresh_time,
            state.upcoming_events == s0.upcoming_events,
        decreases evs.len() - j,
    {
        let event = &track.events[j];
        let ghost jj = j as int;
        let ghost ev = evs[jj];
        proof {
            assert(evs.take(jj + 1).drop_last() =~= evs.take(jj));
            assert(evs.take(jj + 1).last() == ev);
        }
        let ghost uprev = upcoming_views(upcoming@);
        let ghost rprev = id_views(removals@);
        let mut looked = false;
        if track.visible && event.enabled {
            let id = TrackedEventId::new(track.name.as_str(), event.name.as_str());
            let is_tracked = contains_id(tracked_events, &id);
            let is_oneshot = contains_id(oneshot_events, &id);
            proof {
                assert(ps.contains(id@) == is_tracked);
                assert(os.contains(id@) == is_oneshot);
            }
            if is_tracked || is_oneshot {
                match calculate_event_timing(
                    track.base_time,
                    event.start_offset,
                    event.duration,
                    event.cycle_duration,
                    now,
                ) {
                    None => {},
                    Some(tm) => {
                        looked = true;
                        assert(counted(*track, ev, ps, os, nw));
                        let entry = UpcomingEvent {
                            event_id: id.clone(),
                            start_time: tm.0,
                            seconds_until: tm.1,
                            seconds_into: if tm.2 >= 0 {
                                tm.2
                            } else {
                                0
                            },
                            color: event.color,
                            copy_text: event.copy_text.clone(),
                        };
                        upcoming.push(entry);
                        proof {
                            assert(upcoming_views(upcoming@) =~= uprev.push(
                                upcoming_item(*track, ev, ps, os, nw).unwrap(),
                            ));
                        }
                        if is_oneshot && tm.2 >= 0 {
                            removals.push(id.clone());
                            proof {
                                assert(id_views(removals@) =~= rprev.push(key_of(*track, ev)));
                            }
                        }
                        if cfg.toast_enabled {
                            remind_event(
                                state,
                                cfg,
                                &id,
                                &event.copy_text,
                                tm,
                                now,
                                now_ms,
                                Ghost(ts),
                                Ghost(ti),
                                Ghost(jj),
                                Ghost(ps),
                                Ghost(os),
                                Ghost(l),
                                Ghost(q),
                                Ghost(next),
                            );
                        } else {
                            proof {
                                lemma_outcome_next_event(
                                    *state,
                                    ts,
                                    *cfg,
                                    ps,
                                    os,
                                    l,
                                    q,
                                    next,
                                    nw,
                                    now_ms,
                                    ti,
                                    jj,
                                );
                            }
                        }
                    },
                }
            }
        }
        if !looked {
            proof {
                assert(!counted(*track, ev, ps, os, nw));
                lemma_outcome_next_event(*state, ts, *cfg, ps, os, l, q, next, nw, now_ms, ti, jj);
            }
        }
        j = j + 1;
    }
    proof {
        assert(evs.take(evs.len() as int) =~= evs);
        lemma_outcome_next_track(*state, ts, *cfg, ps, os, l, q, next, nw, now_ms, ti);
    }
}

/// What one tick does; see `update_notifications`.
pub open spec fn tick_post(
    s0: NotificationState,
    s1: NotificationState,
    ts: Seq<EventTrack>,
    cfg: NotificationConfig,
    tracked_events: Seq<TrackedEventId>,
    oneshot_events: Seq<TrackedEventId>,
    now: i64,
    now_ms: u64,
    removals: Seq<TrackedEventId>,
) -> bool {
    let ps = ids_set(tracked_events);
    let os = ids_set(oneshot_events);
    let faded_queue = queue_after_fade(
        s0.toast_queue@,
        cfg.toast_duration_ms as int,
        cfg.max_visible_toasts as int,
        now_ms,
    );
    &&& s1.preview_toast == s0.preview_toast
    &&& tracked_events.len() == 0 && oneshot_events.len() == 0 ==> {
        &&& s1.upcoming_events@.len() == 0
        &&& s1 == (NotificationState { upcoming_events: s1.upcoming_events, ..s0 })
        &&& removals.len() == 0
    }
    &&& (tracked_events.len() > 0 || oneshot_events.len() > 0) && now == s0.last_refresh_time ==> {
        &&& s1.toast_queue@ == faded_queue
        &&& s1 == (NotificationState { toast_queue: s1.toast_queue, ..s0 })
        &&& removals.len() == 0
    }
    &&& (tracked_events.len() > 0 || oneshot_events.len() > 0) && now != s0.last_refresh_time ==> {
        &&& s1.last_refresh_time == now
        &&& upcoming_views(s1.upcoming_events@) == projection(
            ts,
            ps,
            os,
            now as int,
            cfg.max_upcoming_events as int,
        )
        &&& id_views(removals) == tracks_removals(ts, ps, os, now as int)
        &&& tick_outcome(
            s1,
            ts,
            cfg,
            ps,
            os,
            cleaned(s0, now as int),
            faded_queue,
            s0.next_toast_id,
            now as int,
            now_ms,
        )
    }
}

/// One tick of the notification engine at `current_time` (seconds since the
/// epoch) and `now_ms` (monotonic milliseconds); call it every frame.
///
/// With no subscriptions it only clears the upcoming list. Otherwise it
/// advances the toast fades, and once per second refreshes: garbage
/// collection of the ledger, the upcoming list, and the reminders (at most
/// one toast, from the first reminder that fires), after which the oldest
/// toasts are evicted again so that at most `max_visible_toasts` remain.
/// Returns the one-shot
/// subscriptions whose occurrence has begun; the caller removes them.
pub fn update_notifications(
    state: &mut NotificationState,
    tracks: &Vec<EventTrack>,
    config: &NotificationConfig,
    tracked_events: &Vec<TrackedEventId>,
    oneshot_events: &Vec<TrackedEventId>,
    current_time: i64,
    now_ms: u64,
) -> (oneshot_to_remove: Vec<TrackedEventId>)
    requires
        old(state).wf(),
        old(state).next_toast_id < u64::MAX,
    ensures
        final(state).wf(),
        tick_post(
            *old(state),
            *final(state),
            tracks@,
            *config,
            tracked_events@,
            oneshot_events@,
            current_time,
            now_ms,
            oneshot_to_remove@,
        ),
{
    let mut oneshot_to_remove: Vec<TrackedEventId> = Vec::new();
    if tracked_events.len() == 0 && oneshot_events.len() == 0 {
        state.upcoming_events = Vec::new();
        return oneshot_to_remove;
    }
    state.update_toasts(config.toast_duration_ms, config.max_visible_toasts, now_ms);
    if !state.needs_refresh(current_time) {
        return oneshot_to_remove;
    }
    state.set_refresh_time(current_time);
    state.cleanup_old_notifications(current_time);
    let ghost ts = tracks@;
    let ghost ps = ids_set(tracked_events@);
    let ghost os = ids_set(oneshot_events@);
    let ghost nw = current_time as int;
    let ghost l = ledger(*state);
    let ghost q = state.toast_queue@;
    let ghost next = state.next_toast_id;
    let ghost s1 = *state;
    let mut upcoming: Vec<UpcomingEvent> = Vec::new();
    let mut i: usize = 0;
    proof {
        assert(!fires_before(ts, *config, ps, os, l, nw, 0, 0, 0));
        assert(upcoming_views(upcoming@) =~= tracks_upcoming(ts.take(0), ps, os, nw));
        assert(id_views(oneshot_to_remove@) =~= tracks_removals(ts.take(0), ps, os, nw));
    }
    while i < tracks.len()
        invariant
            state.wf(),
            next < u64::MAX,
            ts == tracks@,
            nw == current_time,
            ps == ids_set(tracked_events@),
            os == ids_set(oneshot_events@),
            i <= ts.len(),
            reminders_outcome(*state, ts, *config, ps, os, l, q, next, nw, now_ms, i as int, 0, 0),
            upcoming_views(upcoming@) == tracks_upcoming(ts.take(i as int), ps, os, nw),
            id_views(oneshot_to_remove@) == tracks_removals(ts.take(i as int), ps, os, nw),
            state.preview_toast == s1.preview_toast,
            state.last_refresh_time == s1.last_refresh_time,
        decreases ts.len() - i,
    {
        proof {
            let w = ts.take(i + 1);
            assert(w.drop_last() =~= ts.take(i as int));
            assert(w.last() == ts[i as int]);
        }
        scan_track(
            state,
            config,
            &tracks[i],
            tracked_events,
            oneshot_events,
            current_time,
            now_ms,
            &mut upcoming,
            &mut oneshot_to_remove,
            Ghost(ts),
            Ghost(i as int),
            Ghost(l),
            Ghost(q),
            Ghost(next),
        );
        i = i + 1;
    }
    proof {
        assert(ts.take(ts.len() as int) =~= ts);
    }
    let mut sorted = sort_upcoming(&upcoming);
    let ghost sv = upcoming_views(sorted@);
    sorted.truncate(config.max_upcoming_events);
    proof {
        if sv.len() > config.max_upcoming_events {
            assert(upcoming_views(sorted@) =~= sv.take(config.max_upcoming_events as int));
        }
    }
    state.upcoming_events = sorted;
    let ghost mid = *state;
    state.evict_oldest(config.max_visible_toasts);
    proof {
        let mx = config.max_visible_toasts as int;
        let full = old(state).toast_queue@.map_values(
            |t: ToastNotification| faded(t, config.toast_duration_ms as int, now_ms),
        ).filter(|t: ToastNotification| visible(t));
        lemma_keep_newest_len(full, mx);
        assert(q.len() <= mx);
        if fires_before(ts, *config, ps, os, l, nw, ts.len() as int, 0, 0) {
            let (t2, e2, r2) = choose|t2: int, e2: int, r2: int|
                #[trigger] fires_at(ts, *config, ps, os, l, nw, t2, e2, r2) && !fires_before(
                    ts,
                    *config,
                    ps,
                    os,
                    l,
                    nw,
                    t2,
                    e2,
                    r2,
                ) && lex_lt(t2, e2, r2, ts.len() as int, 0, 0) && minted(
                    mid,
                    ts,
                    *config,
                    l,
                    q,
                    next,
                    nw,
                    now_ms,
                    t2,
                    e2,
                    r2,
                );
            let toast = mid.toast_queue@.last();
            assert(mid.toast_queue@ =~= q.push(toast));
            assert(toast_for(
                toast,
                next,
                ts[t2],
                ts[t2].events@[e2],
                config.reminders@[r2],
                nw,
                now_ms,
            ));
            assert(minted_kept(*state, ts, *config, l, q, next, nw, now_ms, t2, e2, r2));
        } else {
            assert(keep_newest(q, mx) =~= q);
        }
        assert(tick_outcome(*state, ts, *config, ps, os, l, q, next, nw, now_ms));
        assert(l == cleaned(*old(state), nw));
        assert(q == queue_after_fade(
            old(state).toast_queue@,
            config.toast_duration_ms as int,
            config.max_visible_toasts as int,
            now_ms,
        ));
        assert(next == old(state).next_toast_id);
        assert(state.preview_toast == old(state).preview_toast);
        assert(state.last_refresh_time == current_time);
        assert(upcoming_views(state.upcoming_events@) == projection(ts, ps, os, nw, config.max_upcoming_events as int));
        assert(id_views(oneshot_to_remove@) == tracks_removals(ts, ps, os, nw));
    }
    oneshot_to_remove
}

/// A repeating reminder never fires in the last interval of an occurrence:
/// once no more than one interval remains, its gate is closed.
pub proof fn lemma_no_repeat_in_last_interval(
    l: Ledger,
    id: EventKey,
    tm: TimingSpec,
    r: ReminderConfig,
    now: int,
)
    requires
        r.minutes_before == 0,
        tm.3 - tm.2 <= interval_of(r),
    ensures
        !reminder_due(l, id, tm, r, now),
{
}

proof fn lemma_keep_newest_len<A>(s: Seq<A>, max: int)
    requires
        0 <= max,
    ensures
        keep_newest(s, max).len() <= max || keep_newest(s, max) == s,
        keep_newest(s, max).len() <= s.len(),
{
}

/// What a tick that made a toast did: it made exactly one, from a reminder
/// that fired on the garbage-collected ledger.
proof fn lemma_minted_witness(
    s0: NotificationState,
    s1: NotificationState,
    ts: Seq<EventTrack>,
    cfg: NotificationConfig,
    te: Seq<TrackedEventId>,
    oe: Seq<TrackedEventId>,
    now: i64,
    now_ms: u64,
    removals: Seq<TrackedEventId>,
) -> (w: (int, int, int))
    requires
        tick_post(s0, s1, ts, cfg, te, oe, now, now_ms, removals),
        s1.next_toast_id != s0.next_toast_id,
    ensures
        (te.len() > 0 || oe.len() > 0) && now != s0.last_refresh_time,
        fires_at(ts, cfg, ids_set(te), ids_set(oe), cleaned(s0, now as int), now as int, w.0, w.1, w.2),
        minted_kept(
            s1,
            ts,
            cfg,
            cleaned(s0, now as int),
            queue_after_fade(
                s0.toast_queue@,
                cfg.toast_duration_ms as int,
                cfg.max_visible_toasts as int,
                now_ms,
            ),
            s0.next_toast_id,
            now as int,
            now_ms,
            w.0,
            w.1,
            w.2,
        ),
{
    let ps = ids_set(te);
    let os = ids_set(oe);
    let l = cleaned(s0, now as int);
    let q = queue_after_fade(
        s0.toast_queue@,
        cfg.toast_duration_ms as int,
        cfg.max_visible_toasts as int,
        now_ms,
    );
    assert(fires_before(ts, cfg, ps, os, l, now as int, ts.len() as int, 0, 0));
    let (t2, e2, r2) = choose|t2: int, e2: int, r2: int|
        #[trigger] fires_at(ts, cfg, ps, os, l, now as int, t2, e2, r2) && !fires_before(
            ts,
            cfg,
            ps,
            os,
            l,
            now as int,
            t2,
            e2,
            r2,
        ) && minted_kept(s1, ts, cfg, l, q, s0.next_toast_id, now as int, now_ms, t2, e2, r2);
    (t2, e2, r2)
}

/// The toasts left by a fade step all carry ids below the next one.
proof fn lemma_faded_ids(s0: NotificationState, duration: int, max: int, now_ms: u64)
    requires
        s0.wf(),
        0 <= max,
    ensures
        forall|i: int|
            0 <= i < queue_after_fade(s0.toast_queue@, duration, max, now_ms).len() ==> (
            #[trigger] queue_after_fade(s0.toast_queue@, duration, max, now_ms)[i]).id
                < s0.next_toast_id,
{
    assert forall|i: int|
        0 <= i < queue_after_fade(s0.toast_queue@, duration, max, now_ms).len() implies (
        #[trigger] queue_after_fade(s0.toast_queue@, duration, max, now_ms)[i]).id
            < s0.next_toast_id by {
        lemma_fade_origin(s0.toast_queue@, duration, max, now_ms, i);
    }
}

/// A queued toast carrying the id that a tick handed out is the toast that
/// tick made, for a reminder that fired.
proof fn lemma_made_toast(
    s0: NotificationState,
    s1: NotificationState,
    ts: Seq<EventTrack>,
    cfg: NotificationConfig,
    te: Seq<TrackedEventId>,
    oe: Seq<TrackedEventId>,
    now: i64,
    now_ms: u64,
    removals: Seq<TrackedEventId>,
    i: int,
) -> (w: (int, int, int))
    requires
        tick_post(s0, s1, ts, cfg, te, oe, now, now_ms, removals),
        s0.wf(),
        0 <= i < s1.toast_queue@.len(),
        s1.toast_queue@[i].id == s0.next_toast_id,
    ensures
        s1.next_toast_id != s0.next_toast_id,
        fires_at(ts, cfg, ids_set(te), ids_set(oe), cleaned(s0, now as int), now as int, w.0, w.1, w.2),
        minted_kept(
            s1,
            ts,
            cfg,
            cleaned(s0, now as int),
            queue_after_fade(
                s0.toast_queue@,
                cfg.toast_duration_ms as int,
                cfg.max_visible_toasts as int,
                now_ms,
            ),
            s0.next_toast_id,
            now as int,
            now_ms,
            w.0,
            w.1,
            w.2,
        ),
        toast_for(
            s1.toast_queue@[i],
            s0.next_toast_id,
            ts[w.0],
            ts[w.0].events@[w.1],
            cfg.reminders@[w.2],
            now as int,
            now_ms,
        ),
{
    let mx = cfg.max_visible_toasts as int;
    let q = queue_after_fade(s0.toast_queue@, cfg.toast_duration_ms as int, mx, now_ms);
    lemma_faded_ids(s0, cfg.toast_duration_ms as int, mx, now_ms);
    if s1.next_toast_id == s0.next_toast_id {
        if te.len() == 0 && oe.len() == 0 {
            assert(s1.toast_queue@[i] == s0.toast_queue@[i]);
        } else if now == s0.last_refresh_time {
            assert(s1.toast_queue@[i] == q[i]);
        } else {
            let l = cleaned(s0, now as int);
            if fires_before(ts, cfg, ids_set(te), ids_set(oe), l, now as int, ts.len() as int, 0, 0) {
                let w = lemma_minted_witness(s0, s1, ts, cfg, te, oe, now, now_ms, removals);
            }
            assert(s1.toast_queue@[i] == q[i]);
        }
    }
    let w = lemma_minted_witness(s0, s1, ts, cfg, te, oe, now, now_ms, removals);
    let track = ts[w.0];
    let ev = track.events@[w.1];
    let rem = cfg.reminders@[w.2];
    let toast = choose|toast: ToastNotification|
        #[trigger] toast_for(toast, s0.next_toast_id, track, ev, rem, now as int, now_ms)
            && s1.toast_queue@ == keep_newest(q.push(toast), mx);
    let full = q.push(toast);
    let off = if full.len() > mx {
        full.len() - mx
    } else {
        0
    };
    assert(s1.toast_queue@[i] == full[off + i]);
    if off + i < q.len() {
        assert(full[off + i] == q[off + i]);
    }
    w
}

/// A tick makes at most one toast, and only at least two seconds after the
/// previous one; the instant of that toast becomes the last-toast instant.
pub proof fn lemma_one_toast_per_tick(
    s0: NotificationState,
    s1: NotificationState,
    ts: Seq<EventTrack>,
    cfg: NotificationConfig,
    te: Seq<TrackedEventId>,
    oe: Seq<TrackedEventId>,
    now: i64,
    now_ms: u64,
    removals: Seq<TrackedEventId>,
)
    requires
        tick_post(s0, s1, ts, cfg, te, oe, now, now_ms, removals),
    ensures
        s1.next_toast_id == s0.next_toast_id || s1.next_toast_id == s0.next_toast_id + 1,
        s1.next_toast_id != s0.next_toast_id ==> {
            &&& s1.last_toast_time == now
            &&& now - s0.last_toast_time >= GLOBAL_COOLDOWN_SECONDS
        },
        s1.next_toast_id == s0.next_toast_id ==> s1.last_toast_time == s0.last_toast_time,
{
    if s1.next_toast_id != s0.next_toast_id {
        let w = lemma_minted_witness(s0, s1, ts, cfg, te, oe, now, now_ms, removals);
    } else if (te.len() > 0 || oe.len() > 0) && now != s0.last_refresh_time {
        let l = cleaned(s0, now as int);
        if fires_before(ts, cfg, ids_set(te), ids_set(oe), l, now as int, ts.len() as int, 0, 0) {
            let w = lemma_minted_witness(s0, s1, ts, cfg, te, oe, now, now_ms, removals);
        }
    }
}

/// No two toasts are made less than two seconds apart: of two ticks in a
/// row that each make a toast, the second comes at least two seconds after
/// the first.
pub proof fn lemma_global_cooldown(
    s0: NotificationState,
    s1: NotificationState,
    s2: NotificationState,
    ts: Seq<EventTrack>,
    cfg: NotificationConfig,
    te: Seq<TrackedEventId>,
    oe: Seq<TrackedEventId>,
    now1: i64,
    now2: i64,
    ms1: u64,
    ms2: u64,
    removals1: Seq<TrackedEventId>,
    removals2: Seq<TrackedEventId>,
)
    requires
        tick_post(s0, s1, ts, cfg, te, oe, now1, ms1, removals1),
        tick_post(s1, s2, ts, cfg, te, oe, now2, ms2, removals2),
        s1.next_toast_id != s0.next_toast_id,
        s2.next_toast_id != s1.next_toast_id,
    ensures
        now2 - now1 >= GLOBAL_COOLDOWN_SECONDS,
{
    lemma_one_toast_per_tick(s0, s1, ts, cfg, te, oe, now1, ms1, removals1);
    lemma_one_toast_per_tick(s1, s2, ts, cfg, te, oe, now2, ms2, removals2);
}

/// The queue bound: after a tick, at most `max_visible_toasts` toasts are
/// queued (with no subscriptions the queue is left as it was).
pub proof fn lemma_queue_bound(
    s0: NotificationState,
    s1: NotificationState,
    ts: Seq<EventTrack>,
    cfg: NotificationConfig,
    te: Seq<TrackedEventId>,
    oe: Seq<TrackedEventId>,
    now: i64,
    now_ms: u64,
    removals: Seq<TrackedEventId>,
)
    requires
        tick_post(s0, s1, ts, cfg, te, oe, now, now_ms, removals),
        te.len() > 0 || oe.len() > 0 || s0.toast_queue@.len() <= cfg.max_visible_toasts,
    ensures
        s1.toast_queue@.len() <= cfg.max_visible_toasts,
{
    let mx = cfg.max_visible_toasts as int;
    let q = queue_after_fade(s0.toast_queue@, cfg.toast_duration_ms as int, mx, now_ms);
    let full = s0.toast_queue@.map_values(
        |t: ToastNotification| faded(t, cfg.toast_duration_ms as int, now_ms),
    ).filter(|t: ToastNotification| visible(t));
    lemma_keep_newest_len(full, mx);
    assert(q.len() <= mx);
    if s1.next_toast_id != s0.next_toast_id {
        let w = lemma_minted_witness(s0, s1, ts, cfg, te, oe, now, now_ms, removals);
        let track = ts[w.0];
        let ev = track.events@[w.1];
        let rem = cfg.reminders@[w.2];
        let toast = choose|toast: ToastNotification|
            #[trigger] toast_for(toast, s0.next_toast_id, track, ev, rem, now as int, now_ms)
                && s1.toast_queue@ == keep_newest(q.push(toast), mx);
        lemma_keep_newest_len(q.push(toast), mx);
    } else if (te.len() > 0 || oe.len() > 0) && now != s0.last_refresh_time {
        let l = cleaned(s0, now as int);
        if fires_before(ts, cfg, ids_set(te), ids_set(oe), l, now as int, ts.len() as int, 0, 0) {
            let w = lemma_minted_witness(s0, s1, ts, cfg, te, oe, now, now_ms, removals);
        }
    }
}

/// Ticking twice at the same second, with nothing else changed in between,
/// gives the same upcoming list and ledger, makes no toast the second time,
/// and ends no further one-shot subscription.
pub proof fn lemma_tick_idempotent(
    s0: NotificationState,
    s1: NotificationState,
    s2: NotificationState,
    ts: Seq<EventTrack>,
    cfg: NotificationConfig,
    te: Seq<TrackedEventId>,
    oe: Seq<TrackedEventId>,
    now: i64,
    ms1: u64,
    ms2: u64,
    removals1: Seq<TrackedEventId>,
    removals2: Seq<TrackedEventId>,
)
    requires
        tick_post(s0, s1, ts, cfg, te, oe, now, ms1, removals1),
        tick_post(s1, s2, ts, cfg, te, oe, now, ms2, removals2),
    ensures
        s2.upcoming_events@ == s1.upcoming_events@,
        ledger(s2) == ledger(s1),
        s2.next_toast_id == s1.next_toast_id,
        removals2.len() == 0,
{
    if te.len() > 0 || oe.len() > 0 {
        assert(s1.last_refresh_time == now);
    }
}

/// The lead reminder key that a toast stands for.
pub open spec fn lead_key(t: ToastNotification) -> NotifiedView {
    (t.event_id@, t.event_start_time as int, t.minutes_before)
}

/// A lead reminder's toast made by a tick (it carries the id the tick
/// handed out) is made only for a record not yet held, and the tick
/// records it.
pub proof fn lemma_lead_toast_recorded(
    s0: NotificationState,
    s1: NotificationState,
    ts: Seq<EventTrack>,
    cfg: NotificationConfig,
    te: Seq<TrackedEventId>,
    oe: Seq<TrackedEventId>,
    now: i64,
    now_ms: u64,
    removals: Seq<TrackedEventId>,
    i: int,
)
    requires
        tick_post(s0, s1, ts, cfg, te, oe, now, now_ms, removals),
        s0.wf(),
        0 <= i < s1.toast_queue@.len(),
        s1.toast_queue@[i].id == s0.next_toast_id,
        s1.toast_queue@[i].minutes_before > 0,
    ensures
        !s0.notified().contains(lead_key(s1.toast_queue@[i])),
        s1.notified().contains(lead_key(s1.toast_queue@[i])),
        s1.toast_queue@[i].event_start_time > now,
{
    let w = lemma_made_toast(s0, s1, ts, cfg, te, oe, now, now_ms, removals, i);
}

/// Once a lead reminder is recorded, and while the record is kept (its
/// occurrence started at most a day ago), a tick keeps the record and
/// makes no toast for it again.
pub proof fn lemma_lead_record_blocks(
    s0: NotificationState,
    s1: NotificationState,
    ts: Seq<EventTrack>,
    cfg: NotificationConfig,
    te: Seq<TrackedEventId>,
    oe: Seq<TrackedEventId>,
    now: i64,
    now_ms: u64,
    removals: Seq<TrackedEventId>,
    k: NotifiedView,
)
    requires
        tick_post(s0, s1, ts, cfg, te, oe, now, now_ms, removals),
        s0.wf(),
        s0.notified().contains(k),
        k.1 >= now - RECORD_RETENTION_SECONDS,
    ensures
        s1.notified().contains(k),
        forall|i: int|
            0 <= i < s1.toast_queue@.len() && (#[trigger] s1.toast_queue@[i]).id == s0.next_toast_id
                && s1.toast_queue@[i].minutes_before > 0 ==> lead_key(s1.toast_queue@[i]) != k,
{
    if (te.len() > 0 || oe.len() > 0) && now != s0.last_refresh_time {
        let l = cleaned(s0, now as int);
        assert(l.0.contains(k));
        if fires_before(ts, cfg, ids_set(te), ids_set(oe), l, now as int, ts.len() as int, 0, 0) {
            let w = lemma_minted_witness(s0, s1, ts, cfg, te, oe, now, now_ms, removals);
        }
    }
    assert forall|i: int|
        0 <= i < s1.toast_queue@.len() && (#[trigger] s1.toast_queue@[i]).id == s0.next_toast_id
            && s1.toast_queue@[i].minutes_before > 0 implies lead_key(s1.toast_queue@[i]) != k by {
        let w = lemma_made_toast(s0, s1, ts, cfg, te, oe, now, now_ms, removals, i);
    }
}

/// A lead reminder's toast is made at most once per occurrence: after a
/// tick made it, the next tick, while the record is kept (at most a day
/// after the occurrence's start), does not make it again.
pub proof fn lemma_lead_toast_once(
    s0: NotificationState,
    s1: NotificationState,
    s2: NotificationState,
    ts: Seq<EventTrack>,
    cfg: NotificationConfig,
    te: Seq<TrackedEventId>,
    oe: Seq<TrackedEventId>,
    now1: i64,
    now2: i64,
    ms1: u64,
    ms2: u64,
    removals1: Seq<TrackedEventId>,
    removals2: Seq<TrackedEventId>,
    i: int,
    j: int,
)
    requires
        tick_post(s0, s1, ts, cfg, te, oe, now1, ms1, removals1),
        tick_post(s1, s2, ts, cfg, te, oe, now2, ms2, removals2),
        s0.wf(),
        s1.wf(),
        0 <= i < s1.toast_queue@.len(),
        s1.toast_queue@[i].id == s0.next_toast_id,
        s1.toast_queue@[i].minutes_before > 0,
        s1.toast_queue@[i].event_start_time >= now2 - RECORD_RETENTION_SECONDS,
        0 <= j < s2.toast_queue@.len(),
        s2.toast_queue@[j].id == s1.next_toast_id,
        s2.toast_queue@[j].minutes_before > 0,
    ensures
        lead_key(s2.toast_queue@[j]) != lead_key(s1.toast_queue@[i]),
{
    let k = lead_key(s1.toast_queue@[i]);
    lemma_lead_toast_recorded(s0, s1, ts, cfg, te, oe, now1, ms1, removals1, i);
    lemma_lead_record_blocks(s1, s2, ts, cfg, te, oe, now2, ms2, removals2, k);
    assert(s2.toast_queue@[j].id == s1.next_toast_id);
}

} // verus!
