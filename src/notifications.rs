use vstd::prelude::*;

use crate::catalog::{EventColor, EventKey, TrackedEventId};

verus! {

/// Seconds that must pass between any two toasts.
pub const GLOBAL_COOLDOWN_SECONDS: i64 = 2;

/// Seconds that must pass between two toasts of one event.
pub const EVENT_COOLDOWN_SECONDS: i64 = 30;

/// How long (seconds) reminder records are kept after their occurrence's start.
pub const RECORD_RETENTION_SECONDS: i64 = 86400;

/// How long (seconds) a per-event cooldown entry is kept.
pub const COOLDOWN_RETENTION_SECONDS: i64 = 300;

/// Full opacity, in thousandths.
pub const FULL_OPACITY: u32 = 1000;

/// A toast fades out over its last this many milliseconds.
pub const FADE_MS: u64 = 1000;

/// A lead reminder of one occurrence: (event, occurrence start, minutes before).
pub type NotifiedView = (EventKey, int, u32);

/// One occurrence of an event: (event, occurrence start).
pub type OngoingView = (EventKey, int);

/// Records that the reminder `minutes_before` minutes ahead of the occurrence
/// of `event_id` starting at `start_time` has been shown.
#[derive(Debug)]
pub struct NotifiedKey {
    pub event_id: TrackedEventId,
    /// Absolute start time of the occurrence.
    pub start_time: i64,
    pub minutes_before: u32,
}

impl View for NotifiedKey {
    type V = NotifiedView;

    open spec fn view(&self) -> NotifiedView {
        (self.event_id@, self.start_time as int, self.minutes_before)
    }
}

impl Clone for NotifiedKey {
    fn clone(&self) -> (r: Self)
        ensures
            r == *self,
    {
        NotifiedKey {
            event_id: self.event_id.clone(),
            start_time: self.start_time,
            minutes_before: self.minutes_before,
        }
    }
}

/// Identifies one occurrence of an event, for the repeating reminder.
#[derive(Debug)]
pub struct OngoingNotificationKey {
    pub event_id: TrackedEventId,
    /// Absolute start time of the occurrence.
    pub start_time: i64,
}

impl View for OngoingNotificationKey {
    type V = OngoingView;

    open spec fn view(&self) -> OngoingView {
        (self.event_id@, self.start_time as int)
    }
}

impl Clone for OngoingNotificationKey {
    fn clone(&self) -> (r: Self)
        ensures
            r == *self,
    {
        OngoingNotificationKey { event_id: self.event_id.clone(), start_time: self.start_time }
    }
}

impl OngoingNotificationKey {
    /// Whether both keys name the same occurrence.
    pub fn same_as(&self, other: &OngoingNotificationKey) -> (r: bool)
        ensures
            r == (self@ == other@),
    {
        self.event_id.same_as(&other.event_id) && self.start_time == other.start_time
    }
}

/// A notification in the queue.
#[derive(Debug)]
pub struct ToastNotification {
    /// Unique within one `NotificationState`.
    pub id: u64,
    pub event_id: TrackedEventId,
    /// Absolute start time of the occurrence it announces.
    pub event_start_time: i64,
    /// Minutes until the start (positive), since the start (negative), or `0` for now.
    pub minutes_until: i64,
    /// Lead of the reminder that made it; `0` for the repeating reminder.
    pub minutes_before: u32,
    /// Monotonic clock reading, in milliseconds, when it was made.
    pub created_at: u64,
    /// In thousandths: `1000` is fully visible, `0` hidden.
    pub opacity: u32,
    pub dismissed: bool,
    pub copy_text: String,
    pub reminder_name: String,
    pub reminder_color: EventColor,
}

impl Clone for ToastNotification {
    fn clone(&self) -> (r: Self)
        ensures
            r == *self,
    {
        ToastNotification {
            id: self.id,
            event_id: self.event_id.clone(),
            event_start_time: self.event_start_time,
            minutes_until: self.minutes_until,
            minutes_before: self.minutes_before,
            created_at: self.created_at,
            opacity: self.opacity,
            dismissed: self.dismissed,
            copy_text: self.copy_text.clone(),
            reminder_name: self.reminder_name.clone(),
            reminder_color: self.reminder_color,
        }
    }
}

/// An entry of the upcoming-events projection.
#[derive(Debug)]
pub struct UpcomingEvent {
    pub event_id: TrackedEventId,
    /// Absolute start time of the occurrence.
    pub start_time: i64,
    /// Seconds until the start; `0` while active.
    pub seconds_until: i64,
    /// Seconds since the start; `0` while pending.
    pub seconds_into: i64,
    pub color: EventColor,
    pub copy_text: String,
}

/// (event, start, seconds until, seconds into, colour, copy text)
pub type UpcomingView = (EventKey, int, int, int, EventColor, Seq<char>);

impl View for UpcomingEvent {
    type V = UpcomingView;

    open spec fn view(&self) -> UpcomingView {
        (
            self.event_id@,
            self.start_time as int,
            self.seconds_until as int,
            self.seconds_into as int,
            self.color,
            self.copy_text@,
        )
    }
}

/// The lead reminders recorded in `s`.
pub open spec fn notified_set_of(s: Seq<NotifiedKey>) -> Set<NotifiedView> {
    Set::new(|k: NotifiedView| exists|i: int| 0 <= i < s.len() && (#[trigger] s[i])@ == k)
}

pub open spec fn table_has<K: View>(s: Seq<(K, i64)>, k: K::V) -> bool {
    exists|i: int| 0 <= i < s.len() && (#[trigger] s[i]).0@ == k
}

/// The map that a table of `(key, instant)` entries stands for.
pub open spec fn table_map<K: View>(s: Seq<(K, i64)>) -> Map<K::V, int> {
    Map::new(
        |k: K::V| table_has(s, k),
        |k: K::V| s[choose|i: int| 0 <= i < s.len() && (#[trigger] s[i]).0@ == k].1 as int,
    )
}

/// No two entries of the table share a key.
pub open spec fn table_unique<K: View>(s: Seq<(K, i64)>) -> bool {
    forall|i: int, j: int|
        0 <= i < s.len() && 0 <= j < s.len() && (#[trigger] s[i]).0@ == (#[trigger] s[j]).0@
            ==> i == j
}

proof fn lemma_table_entry<K: View>(s: Seq<(K, i64)>, i: int)
    requires
        table_unique(s),
        0 <= i < s.len(),
    ensures
        table_map(s).contains_key(s[i].0@),
        table_map(s)[s[i].0@] == s[i].1 as int,
{
    let k = s[i].0@;
    assert(table_has(s, k));
    let j = choose|j: int| 0 <= j < s.len() && (#[trigger] s[j]).0@ == k;
    assert(j == i);
}

/// `kept` holds, in order, the items of `s` at the indices `src`, and `dst`
/// finds in `kept` each item of `s`, below `upto`, whose index satisfies `keep`.
pub open spec fn selects<A>(
    s: Seq<A>,
    kept: Seq<A>,
    src: Seq<int>,
    dst: Seq<int>,
    keep: spec_fn(int) -> bool,
    upto: int,
) -> bool {
    &&& src.len() == kept.len()
    &&& dst.len() == upto
    &&& forall|a: int|
        0 <= a < kept.len() ==> 0 <= #[trigger] src[a] < upto && kept[a] == s[src[a]] && keep(
            src[a],
        )
    &&& forall|a: int, b: int| 0 <= a < b < kept.len() ==> #[trigger] src[a] < #[trigger] src[b]
    &&& forall|j: int|
        0 <= j < upto && keep(j) ==> 0 <= #[trigger] dst[j] < kept.len() && src[dst[j]] == j
}

pub(crate) proof fn lemma_selects_push<A>(
    s: Seq<A>,
    kept: Seq<A>,
    src: Seq<int>,
    dst: Seq<int>,
    keep: spec_fn(int) -> bool,
    i: int,
)
    requires
        selects(s, kept, src, dst, keep, i),
        0 <= i < s.len(),
        keep(i),
    ensures
        selects(s, kept.push(s[i]), src.push(i), dst.push(kept.len() as int), keep, i + 1),
{
    let k2 = kept.push(s[i]);
    let s2 = src.push(i);
    let d2 = dst.push(kept.len() as int);
    assert forall|a: int| 0 <= a < k2.len() implies 0 <= #[trigger] s2[a] < i + 1 && k2[a]
        == s[s2[a]] && keep(s2[a]) by {
        if a < kept.len() {
            assert(s2[a] == src[a]);
        }
    }
    assert forall|a: int, b: int| 0 <= a < b < k2.len() implies #[trigger] s2[a] < #[trigger] s2[b] by {
        if b < kept.len() {
            assert(s2[a] == src[a] && s2[b] == src[b]);
        } else {
            assert(s2[a] == src[a]);
        }
    }
    assert forall|j: int| 0 <= j < i + 1 && keep(j) implies 0 <= #[trigger] d2[j] < k2.len()
        && s2[d2[j]] == j by {
        if j < i {
            assert(d2[j] == dst[j]);
            assert(s2[dst[j]] == src[dst[j]]);
        }
    }
}

pub(crate) proof fn lemma_selects_skip<A>(
    s: Seq<A>,
    kept: Seq<A>,
    src: Seq<int>,
    dst: Seq<int>,
    keep: spec_fn(int) -> bool,
    i: int,
)
    requires
        selects(s, kept, src, dst, keep, i),
        0 <= i < s.len(),
        !keep(i),
    ensures
        selects(s, kept, src, dst.push(0), keep, i + 1),
{
    let d2 = dst.push(0);
    assert forall|j: int| 0 <= j < i + 1 && keep(j) implies 0 <= #[trigger] d2[j] < kept.len()
        && src[d2[j]] == j by {
        assert(d2[j] == dst[j]);
    }
}

/// A table cut down to the entries whose index satisfies `keep` stands for
/// the map cut down to the keys of those entries.
proof fn lemma_table_select<K: View>(
    s: Seq<(K, i64)>,
    kept: Seq<(K, i64)>,
    src: Seq<int>,
    dst: Seq<int>,
    keep: spec_fn(int) -> bool,
)
    requires
        table_unique(s),
        selects(s, kept, src, dst, keep, s.len() as int),
    ensures
        table_unique(kept),
        forall|k: K::V| #[trigger]
            table_map(kept).contains_key(k) <==> (table_map(s).contains_key(k) && exists|j: int|
                0 <= j < s.len() && s[j].0@ == k && keep(j)),
        forall|k: K::V| #[trigger]
            table_map(kept).contains_key(k) ==> table_map(kept)[k] == table_map(s)[k],
{
    assert forall|a: int, b: int|
        0 <= a < kept.len() && 0 <= b < kept.len() && (#[trigger] kept[a]).0@ == (
        #[trigger] kept[b]).0@ implies a == b by {
        assert(kept[a] == s[src[a]] && kept[b] == s[src[b]]);
        if a < b {
            assert(src[a] < src[b]);
        } else if b < a {
            assert(src[b] < src[a]);
        }
    }
    assert forall|k: K::V| #[trigger]
        table_map(kept).contains_key(k) implies table_map(s).contains_key(k) && (exists|j: int|
            0 <= j < s.len() && s[j].0@ == k && keep(j)) && table_map(kept)[k] == table_map(s)[k] by {
        let a = choose|a: int| 0 <= a < kept.len() && (#[trigger] kept[a]).0@ == k;
        let j = src[a];
        assert(kept[a] == s[j]);
        lemma_table_entry(s, j);
        lemma_table_entry(kept, a);
    }
    assert forall|k: K::V|
        table_map(s).contains_key(k) && (exists|j: int| 0 <= j < s.len() && s[j].0@ == k && keep(j))
        implies #[trigger] table_map(kept).contains_key(k) by {
        let j = choose|j: int| 0 <= j < s.len() && s[j].0@ == k && keep(j);
        let a = dst[j];
        assert(kept[a] == s[j]);
        assert(table_has(kept, k));
    }
}

/// The lead-reminder records whose occurrence started at or after `cutoff`.
pub open spec fn records_after(s: Set<NotifiedView>, cutoff: int) -> Set<NotifiedView> {
    s.filter(|k: NotifiedView| k.1 >= cutoff)
}

/// The repeating-reminder records whose occurrence started at or after `cutoff`.
pub open spec fn occurrences_after(m: Map<OngoingView, int>, cutoff: int) -> Map<OngoingView, int> {
    Map::new(|k: OngoingView| m.contains_key(k) && k.1 >= cutoff, |k: OngoingView| m[k])
}

/// The per-event cooldowns no older than the retention at `now`.
pub open spec fn cooldowns_live(m: Map<EventKey, int>, now: int) -> Map<EventKey, int> {
    Map::new(
        |k: EventKey| m.contains_key(k) && now - m[k] <= COOLDOWN_RETENTION_SECONDS,
        |k: EventKey| m[k],
    )
}

/// Toast ids strictly increase along `q`.
pub open spec fn ids_increase(q: Seq<ToastNotification>) -> bool {
    forall|i: int, j: int| 0 <= i < j < q.len() ==> (#[trigger] q[i]).id < (#[trigger] q[j]).id
}

/// Filtering keeps ids increasing.
proof fn lemma_filter_ids_increase(s: Seq<ToastNotification>, p: spec_fn(ToastNotification) -> bool)
    requires
        ids_increase(s),
    ensures
        ids_increase(s.filter(p)),
    decreases s.len(),
{
    reveal(Seq::filter);
    if s.len() > 0 {
        let d = s.drop_last();
        assert(ids_increase(d)) by {
            assert forall|i: int, j: int| 0 <= i < j < d.len() implies (#[trigger] d[i]).id < (
            #[trigger] d[j]).id by {
                assert(d[i] == s[i] && d[j] == s[j]);
            }
        }
        lemma_filter_ids_increase(d, p);
        let f0 = d.filter(p);
        if p(s.last()) {
            let f = f0.push(s.last());
            assert forall|i: int, j: int| 0 <= i < j < f.len() implies (#[trigger] f[i]).id < (
            #[trigger] f[j]).id by {
                if j == f.len() - 1 {
                    d.lemma_filter_contains_rev(p, f0[i]);
                    let k = choose|k: int| 0 <= k < d.len() && d[k] == f0[i];
                    assert(s[k] == d[k]);
                    assert(s[k].id < s[s.len() - 1].id);
                } else {
                    assert(f[i] == f0[i] && f[j] == f0[j]);
                }
            }
        }
    }
}

/// Opacity (thousandths) of a toast `elapsed` milliseconds old, shown for
/// `duration` milliseconds, whose opacity was `current`: unchanged until
/// the last second, then falling linearly to zero at `duration`.
pub open spec fn fade_opacity(elapsed: int, duration: int, current: int) -> int {
    if elapsed > duration {
        0
    } else if elapsed + FADE_MS > duration {
        duration - elapsed
    } else {
        current
    }
}

/// Milliseconds from `created` to `now` on a monotonic clock (never negative).
pub open spec fn elapsed_ms(created: u64, now: u64) -> int {
    if now >= created {
        now - created
    } else {
        0
    }
}

/// A toast after one fade step at `now`.
pub open spec fn faded(t: ToastNotification, duration: int, now: u64) -> ToastNotification {
    ToastNotification {
        opacity: if t.dismissed {
            0
        } else {
            fade_opacity(elapsed_ms(t.created_at, now), duration, t.opacity as int) as u32
        },
        ..t
    }
}

pub open spec fn visible(t: ToastNotification) -> bool {
    t.opacity > 0
}

/// The newest `max` items of `s`.
pub open spec fn keep_newest<A>(s: Seq<A>, max: int) -> Seq<A> {
    if s.len() > max {
        s.subrange(s.len() - max, s.len() as int)
    } else {
        s
    }
}

/// The queue after fading each toast, dropping the hidden ones and keeping
/// at most `max` of the newest.
pub open spec fn queue_after_fade(
    q: Seq<ToastNotification>,
    duration: int,
    max: int,
    now: u64,
) -> Seq<ToastNotification> {
    keep_newest(q.map_values(|t: ToastNotification| faded(t, duration, now)).filter(|t: ToastNotification| visible(t)), max)
}

/// Runtime state of the notification engine: the dedup/cooldown ledger,
/// the toast queue and the upcoming-events projection.
#[derive(Debug)]
pub struct NotificationState {
    pub toast_queue: Vec<ToastNotification>,
    pub next_toast_id: u64,
    pub notified_reminders: Vec<NotifiedKey>,
    pub ongoing_last_notified: Vec<(OngoingNotificationKey, i64)>,
    pub event_last_notified: Vec<(TrackedEventId, i64)>,
    pub last_toast_time: i64,
    pub upcoming_events: Vec<UpcomingEvent>,
    pub last_refresh_time: i64,
    pub preview_toast: Option<ToastNotification>,
}

impl NotificationState {
    pub open spec fn next_id(&self) -> u64 {
        self.next_toast_id
    }

    /// The instant of the last toast made (seconds since the epoch).
    pub open spec fn last_toast(&self) -> i64 {
        self.last_toast_time
    }

    /// The second of the last refresh.
    pub open spec fn last_refresh(&self) -> i64 {
        self.last_refresh_time
    }

    pub open spec fn notified(&self) -> Set<NotifiedView> {
        notified_set_of(self.notified_reminders@)
    }

    pub open spec fn ongoing(&self) -> Map<OngoingView, int> {
        table_map(self.ongoing_last_notified@)
    }

    pub open spec fn cooldowns(&self) -> Map<EventKey, int> {
        table_map(self.event_last_notified@)
    }

    pub open spec fn wf(&self) -> bool {
        &&& table_unique(self.ongoing_last_notified@)
        &&& table_unique(self.event_last_notified@)
        &&& forall|i: int|
            0 <= i < self.toast_queue.len() ==> (#[trigger] self.toast_queue@[i]).id
                < self.next_toast_id
        &&& ids_increase(self.toast_queue@)
        &&& (self.preview_toast matches Some(p) ==> p.id < self.next_toast_id)
    }

    pub fn new() -> (r: Self)
        ensures
            r.wf(),
            r.toast_queue@.len() == 0,
            r.next_id() == 0,
            r.notified() == Set::<NotifiedView>::empty(),
            r.ongoing() == Map::<OngoingView, int>::empty(),
            r.cooldowns() == Map::<EventKey, int>::empty(),
            r.last_toast() == 0,
            r.upcoming_events@.len() == 0,
            r.last_refresh() == 0,
            r.preview_toast.is_none(),
    {
        let r = NotificationState {
            toast_queue: Vec::new(),
            next_toast_id: 0,
            notified_reminders: Vec::new(),
            ongoing_last_notified: Vec::new(),
            event_last_notified: Vec::new(),
            last_toast_time: 0,
            upcoming_events: Vec::new(),
            last_refresh_time: 0,
            preview_toast: None,
        };
        assert(r.notified() =~= Set::<NotifiedView>::empty());
        assert(r.ongoing() =~= Map::<OngoingView, int>::empty());
        assert(r.cooldowns() =~= Map::<EventKey, int>::empty());
        r
    }

    /// Whether another id can still be handed out.
    pub fn has_toast_ids_left(&self) -> (r: bool)
        ensures
            r == (self.next_id() < u64::MAX),
    {
        self.next_toast_id < u64::MAX
    }

    /// Global gate: at least two seconds since the last toast.
    pub fn can_add_toast(&self, current_time: i64) -> (r: bool)
        ensures
            r == (current_time - self.last_toast() >= GLOBAL_COOLDOWN_SECONDS),
    {
        current_time as i128 - self.last_toast_time as i128 >= GLOBAL_COOLDOWN_SECONDS as i128
    }

    /// Per-event gate: at least thirty seconds since this event's last toast.
    pub fn can_notify_event(&self, event_id: &TrackedEventId, current_time: i64) -> (r: bool)
        requires
            self.wf(),
        ensures
            r == (!self.cooldowns().contains_key(event_id@) || current_time - self.cooldowns()[event_id@]
                >= EVENT_COOLDOWN_SECONDS),
    {
        let mut i: usize = 0;
        while i < self.event_last_notified.len()
            invariant
                i <= self.event_last_notified.len(),
                self.wf(),
                forall|j: int| 0 <= j < i ==> (#[trigger] self.event_last_notified@[j]).0@ != event_id@,
            decreases self.event_last_notified.len() - i,
        {
            if self.event_last_notified[i].0.same_as(event_id) {
                proof {
                    lemma_table_entry(self.event_last_notified@, i as int);
                }
                return current_time as i128 - self.event_last_notified[i].1 as i128
                    >= EVENT_COOLDOWN_SECONDS as i128;
            }
            i = i + 1;
        }
        true
    }

    /// Records that a toast for `event_id` was made at `current_time`.
    pub fn mark_event_notified(&mut self, event_id: &TrackedEventId, current_time: i64)
        requires
            old(self).wf(),
        ensures
            final(self).wf(),
            final(self).cooldowns() == old(self).cooldowns().insert(event_id@, current_time as int),
            final(self).notified() == old(self).notified(),
            final(self).ongoing() == old(self).ongoing(),
            final(self).toast_queue == old(self).toast_queue,
            final(self).next_id() == old(self).next_id(),
            final(self).last_toast() == old(self).last_toast(),
            final(self).last_refresh() == old(self).last_refresh(),
            final(self).upcoming_events == old(self).upcoming_events,
            final(self).preview_toast == old(self).preview_toast,
    {
        let ghost before = self.event_last_notified@;
        let ghost s0 = *self;
        let mut i: usize = 0;
        while i < self.event_last_notified.len()
            invariant
                i <= self.event_last_notified.len(),
                *self == s0,
                s0 == *old(self),
                s0.wf(),
                self.event_last_notified@ == before,
                forall|j: int| 0 <= j < i ==> (#[trigger] before[j]).0@ != event_id@,
            decreases self.event_last_notified.len() - i,
        {
            if self.event_last_notified[i].0.same_as(event_id) {
                let id = event_id.clone();
                self.event_last_notified.set(i, (id, current_time));
                let ghost after = self.event_last_notified@;
                proof {
                    assert forall|a: int, b: int|
                        0 <= a < after.len() && 0 <= b < after.len() && (#[trigger] after[a]).0@
                            == (#[trigger] after[b]).0@ implies a == b by {
                        if a != i && b != i {
                            assert(before[a] == after[a] && before[b] == after[b]);
                        } else if a == i && b != i {
                            assert(before[b] == after[b] && before[i as int].0@ == event_id@);
                        } else if a != i && b == i {
                            assert(before[a] == after[a] && before[i as int].0@ == event_id@);
                        }
                    }
                    lemma_table_entry(after, i as int);
                    assert forall|k: EventKey| k != event_id@ implies (table_has(after, k)
                        == table_has(before, k) && (table_has(before, k) ==> table_map(
                        after,
                    )[k] == table_map(before)[k])) by {
                        if table_has(before, k) {
                            let j = choose|j: int| 0 <= j < before.len() && (#[trigger] before[j]).0@ == k;
                            assert(after[j] == before[j]);
                            lemma_table_entry(before, j);
                            lemma_table_entry(after, j);
                        }
                        if table_has(after, k) {
                            let j = choose|j: int| 0 <= j < after.len() && (#[trigger] after[j]).0@ == k;
                            assert(after[j] == before[j]);
                        }
                    }
                    assert(table_map(after) =~= table_map(before).insert(
                        event_id@,
                        current_time as int,
                    ));
                }
                return ;
            }
            i = i + 1;
        }
        let id = event_id.clone();
        self.event_last_notified.push((id, current_time));
        let ghost after = self.event_last_notified@;
        proof {
            let n = before.len() as int;
            assert forall|a: int, b: int|
                0 <= a < after.len() && 0 <= b < after.len() && (#[trigger] after[a]).0@
                    == (#[trigger] after[b]).0@ implies a == b by {
                if a < n && b < n {
                    assert(before[a] == after[a] && before[b] == after[b]);
                } else if a < n {
                    assert(before[a] == after[a]);
                } else if b < n {
                    assert(before[b] == after[b]);
                }
            }
            lemma_table_entry(after, n);
            assert forall|k: EventKey| k != event_id@ implies (table_has(after, k)
                == table_has(before, k) && (table_has(before, k) ==> table_map(
                after,
            )[k] == table_map(before)[k])) by {
                if table_has(before, k) {
                    let j = choose|j: int| 0 <= j < before.len() && (#[trigger] before[j]).0@ == k;
                    assert(after[j] == before[j]);
                    lemma_table_entry(before, j);
                    lemma_table_entry(after, j);
                }
                if table_has(after, k) {
                    let j = choose|j: int| 0 <= j < after.len() && (#[trigger] after[j]).0@ == k;
                    assert(j < n);
                    assert(after[j] == before[j]);
                }
            }
            assert(table_map(after) =~= table_map(before).insert(
                event_id@,
                current_time as int,
            ));
        }
    }
}


impl NotificationState {
    /// Records that the lead reminder `minutes_before` of the occurrence of
    /// `event_id` starting at `start_time` was shown.
    pub fn mark_notified(&mut self, event_id: &TrackedEventId, start_time: i64, minutes_before: u32)
        requires
            old(self).wf(),
        ensures
            final(self).wf(),
            final(self).notified() == old(self).notified().insert(
                (event_id@, start_time as int, minutes_before),
            ),
            *final(self) == (NotificationState {
                notified_reminders: final(self).notified_reminders,
                ..*old(self)
            }),
    {
        let ghost before = self.notified_reminders@;
        self.notified_reminders.push(
            NotifiedKey { event_id: event_id.clone(), start_time, minutes_before },
        );
        proof {
            let after = self.notified_reminders@;
            let n = before.len() as int;
            assert forall|k: NotifiedView| #[trigger]
                notified_set_of(after).contains(k) implies notified_set_of(before).insert(
                (event_id@, start_time as int, minutes_before),
            ).contains(k) by {
                let j = choose|j: int| 0 <= j < after.len() && (#[trigger] after[j])@ == k;
                if j < n {
                    assert(after[j] == before[j]);
                }
            }
            assert forall|k: NotifiedView| #[trigger]
                notified_set_of(before).contains(k) implies notified_set_of(after).contains(k) by {
                let j = choose|j: int| 0 <= j < before.len() && (#[trigger] before[j])@ == k;
                assert(after[j] == before[j]);
            }
            assert(after[n]@ == (event_id@, start_time as int, minutes_before));
            assert(notified_set_of(after) =~= notified_set_of(before).insert(
                (event_id@, start_time as int, minutes_before),
            ));
        }
    }

    /// Whether that lead reminder was already shown.
    pub fn was_notified(&self, event_id: &TrackedEventId, start_time: i64, minutes_before: u32) -> (r:
        bool)
        ensures
            r == self.notified().contains((event_id@, start_time as int, minutes_before)),
    {
        let ghost k = (event_id@, start_time as int, minutes_before);
        let mut i: usize = 0;
        while i < self.notified_reminders.len()
            invariant
                i <= self.notified_reminders.len(),
                k == (event_id@, start_time as int, minutes_before),
                forall|j: int| 0 <= j < i ==> (#[trigger] self.notified_reminders@[j])@ != k,
            decreases self.notified_reminders.len() - i,
        {
            let e = &self.notified_reminders[i];
            if e.event_id.same_as(event_id) && e.start_time == start_time && e.minutes_before == minutes_before {
                assert(self.notified_reminders@[i as int]@ == k);
                return true;
            }
            i = i + 1;
        }
        false
    }

    /// Repeating-reminder gate: no record for this occurrence yet, or at least
    /// `interval_seconds` since the last one.
    pub fn should_show_ongoing(
        &self,
        event_id: &TrackedEventId,
        start_time: i64,
        current_time: i64,
        interval_seconds: i64,
    ) -> (r: bool)
        requires
            self.wf(),
        ensures
            r == (!self.ongoing().contains_key((event_id@, start_time as int)) || current_time
                - self.ongoing()[(event_id@, start_time as int)] >= interval_seconds),
    {
        let key = OngoingNotificationKey { event_id: event_id.clone(), start_time };
        let mut i: usize = 0;
        while i < self.ongoing_last_notified.len()
            invariant
                i <= self.ongoing_last_notified.len(),
                key@ == (event_id@, start_time as int),
                self.wf(),
                forall|j: int| 0 <= j < i ==> (#[trigger] self.ongoing_last_notified@[j]).0@ != key@,
            decreases self.ongoing_last_notified.len() - i,
        {
            if self.ongoing_last_notified[i].0.same_as(&key) {
                proof {
                    lemma_table_entry(self.ongoing_last_notified@, i as int);
                }
                return current_time as i128 - self.ongoing_last_notified[i].1 as i128
                    >= interval_seconds as i128;
            }
            i = i + 1;
        }
        true
    }

    /// Records a repeating reminder of the occurrence at `current_time`.
    pub fn mark_ongoing_notified(&mut self, event_id: &TrackedEventId, start_time: i64, current_time: i64)
        requires
            old(self).wf(),
        ensures
            final(self).wf(),
            final(self).ongoing() == old(self).ongoing().insert(
                (event_id@, start_time as int),
                current_time as int,
            ),
            *final(self) == (NotificationState {
                ongoing_last_notified: final(self).ongoing_last_notified,
                ..*old(self)
            }),
    {
        let key = OngoingNotificationKey { event_id: event_id.clone(), start_time };
        let ghost before = self.ongoing_last_notified@;
        let ghost s0 = *self;
        let ghost kv = key@;
        let mut i: usize = 0;
        while i < self.ongoing_last_notified.len()
            invariant
                i <= self.ongoing_last_notified.len(),
                *self == s0,
                s0 == *old(self),
                s0.wf(),
                self.ongoing_last_notified@ == before,
                key@ == kv,
                kv == (event_id@, start_time as int),
                forall|j: int| 0 <= j < i ==> (#[trigger] before[j]).0@ != kv,
            decreases self.ongoing_last_notified.len() - i,
        {
            if self.ongoing_last_notified[i].0.same_as(&key) {
                self.ongoing_last_notified.set(i, (key, current_time));
                let ghost after = self.ongoing_last_notified@;
                proof {
                    assert forall|a: int, b: int|
                        0 <= a < after.len() && 0 <= b < after.len() && (#[trigger] after[a]).0@
                            == (#[trigger] after[b]).0@ implies a == b by {
                        if a != i && b != i {
                            assert(before[a] == after[a] && before[b] == after[b]);
                        } else if a == i && b != i {
                            assert(before[b] == after[b] && before[i as int].0@ == kv);
                        } else if a != i && b == i {
                            assert(before[a] == after[a] && before[i as int].0@ == kv);
                        }
                    }
                    lemma_table_entry(after, i as int);
                    assert forall|k: OngoingView| k != kv implies (table_has(after, k)
                        == table_has(before, k) && (table_has(before, k) ==> table_map(
                        after,
                    )[k] == table_map(before)[k])) by {
                        if table_has(before, k) {
                            let j = choose|j: int| 0 <= j < before.len() && (#[trigger] before[j]).0@ == k;
                            assert(after[j] == before[j]);
                            lemma_table_entry(before, j);
                            lemma_table_entry(after, j);
                        }
                        if table_has(after, k) {
                            let j = choose|j: int| 0 <= j < after.len() && (#[trigger] after[j]).0@ == k;
                            assert(after[j] == before[j]);
                        }
                    }
                    assert(table_map(after) =~= table_map(before).insert(
                        kv,
                        current_time as int,
                    ));
                }
                return ;
            }
            i = i + 1;
        }
        self.ongoing_last_notified.push((key, current_time));
        let ghost after = self.ongoing_last_notified@;
        proof {
            let n = before.len() as int;
            assert forall|a: int, b: int|
                0 <= a < after.len() && 0 <= b < after.len() && (#[trigger] after[a]).0@
                    == (#[trigger] after[b]).0@ implies a == b by {
                if a < n && b < n {
                    assert(before[a] == after[a] && before[b] == after[b]);
                } else if a < n {
                    assert(before[a] == after[a]);
                } else if b < n {
                    assert(before[b] == after[b]);
                }
            }
            lemma_table_entry(after, n);
            assert forall|k: OngoingView| k != kv implies (table_has(after, k)
                == table_has(before, k) && (table_has(before, k) ==> table_map(
                after,
            )[k] == table_map(before)[k])) by {
                if table_has(before, k) {
                    let j = choose|j: int| 0 <= j < before.len() && (#[trigger] before[j]).0@ == k;
                    assert(after[j] == before[j]);
                    lemma_table_entry(before, j);
                    lemma_table_entry(after, j);
                }
                if table_has(after, k) {
                    let j = choose|j: int| 0 <= j < after.len() && (#[trigger] after[j]).0@ == k;
                    assert(j < n);
                    assert(after[j] == before[j]);
                }
            }
            assert(table_map(after) =~= table_map(before).insert(kv, current_time as int));
        }
    }
}


impl NotificationState {
    /// Garbage collection: drops reminder records of occurrences that started
    /// more than a day before `current_time`, and per-event cooldowns older
    /// than five minutes.
    pub fn cleanup_old_notifications(&mut self, current_time: i64)
        requires
            old(self).wf(),
        ensures
            final(self).wf(),
            final(self).notified() == records_after(
                old(self).notified(),
                current_time - RECORD_RETENTION_SECONDS,
            ),
            final(self).ongoing() == occurrences_after(
                old(self).ongoing(),
                current_time - RECORD_RETENTION_SECONDS,
            ),
            final(self).cooldowns() == cooldowns_live(old(self).cooldowns(), current_time as int),
            *final(self) == (NotificationState {
                notified_reminders: final(self).notified_reminders,
                ongoing_last_notified: final(self).ongoing_last_notified,
                event_last_notified: final(self).event_last_notified,
                ..*old(self)
            }),
    {
        let cutoff: i128 = current_time as i128 - RECORD_RETENTION_SECONDS as i128;
        let ghost c = current_time - RECORD_RETENTION_SECONDS;
        // lead-reminder records
        let ghost nb = self.notified_reminders@;
        let ghost keep_n = |j: int| nb[j].start_time >= c;
        let ghost mut src: Seq<int> = Seq::empty();
        let ghost mut dst: Seq<int> = Seq::empty();
        let mut kept: Vec<NotifiedKey> = Vec::new();
        let mut i: usize = 0;
        while i < self.notified_reminders.len()
            invariant
                i <= nb.len(),
                self.notified_reminders@ == nb,
                cutoff == c,
                keep_n == (|j: int| nb[j].start_time >= c),
                selects(nb, kept@, src, dst, keep_n, i as int),
            decreases nb.len() - i,
        {
            if self.notified_reminders[i].start_time as i128 >= cutoff {
                let k = self.notified_reminders[i].clone();
                proof {
                    lemma_selects_push(nb, kept@, src, dst, keep_n, i as int);
                    src = src.push(i as int);
                    dst = dst.push(kept.len() as int);
                }
                kept.push(k);
            } else {
                proof {
                    lemma_selects_skip(nb, kept@, src, dst, keep_n, i as int);
                    dst = dst.push(0);
                }
            }
            i = i + 1;
        }
        proof {
            let after = kept@;
            assert forall|k: NotifiedView| #[trigger]
                notified_set_of(after).contains(k) implies records_after(
                notified_set_of(nb),
                c,
            ).contains(k) by {
                let a = choose|a: int| 0 <= a < after.len() && (#[trigger] after[a])@ == k;
                let j = src[a];
                assert(after[a] == nb[j]);
            }
            assert forall|k: NotifiedView| #[trigger]
                records_after(notified_set_of(nb), c).contains(k) implies notified_set_of(
                after,
            ).contains(k) by {
                let j = choose|j: int| 0 <= j < nb.len() && (#[trigger] nb[j])@ == k;
                assert(keep_n(j));
                let a = dst[j];
                assert(after[a] == nb[j]);
            }
            assert(notified_set_of(after) =~= records_after(notified_set_of(nb), c));
        }
        self.notified_reminders = kept;
        // repeating-reminder records
        let ghost ob = self.ongoing_last_notified@;
        let ghost keep_o = |j: int| ob[j].0.start_time >= c;
        let ghost mut src: Seq<int> = Seq::empty();
        let ghost mut dst: Seq<int> = Seq::empty();
        let mut kept_o: Vec<(OngoingNotificationKey, i64)> = Vec::new();
        let mut i: usize = 0;
        while i < self.ongoing_last_notified.len()
            invariant
                i <= ob.len(),
                self.ongoing_last_notified@ == ob,
                cutoff == c,
                keep_o == (|j: int| ob[j].0.start_time >= c),
                selects(ob, kept_o@, src, dst, keep_o, i as int),
            decreases ob.len() - i,
        {
            if self.ongoing_last_notified[i].0.start_time as i128 >= cutoff {
                let e = (self.ongoing_last_notified[i].0.clone(), self.ongoing_last_notified[i].1);
                proof {
                    lemma_selects_push(ob, kept_o@, src, dst, keep_o, i as int);
                    src = src.push(i as int);
                    dst = dst.push(kept_o.len() as int);
                }
                kept_o.push(e);
            } else {
                proof {
                    lemma_selects_skip(ob, kept_o@, src, dst, keep_o, i as int);
                    dst = dst.push(0);
                }
            }
            i = i + 1;
        }
        proof {
            lemma_table_select(ob, kept_o@, src, dst, keep_o);
            let m0 = table_map(ob);
            assert forall|k: OngoingView| #[trigger] table_map(kept_o@).contains_key(k)
                == occurrences_after(m0, c).contains_key(k) by {
                if table_map(kept_o@).contains_key(k) {
                    let j = choose|j: int| 0 <= j < ob.len() && ob[j].0@ == k && keep_o(j);
                }
                if occurrences_after(m0, c).contains_key(k) {
                    let j = choose|j: int| 0 <= j < ob.len() && (#[trigger] ob[j]).0@ == k;
                    assert(keep_o(j));
                }
            }
            assert(table_map(kept_o@) =~= occurrences_after(m0, c));
        }
        self.ongoing_last_notified = kept_o;
        // per-event cooldowns
        let ghost cb = self.event_last_notified@;
        let ghost now = current_time as int;
        let ghost keep_c = |j: int| now - cb[j].1 <= COOLDOWN_RETENTION_SECONDS;
        let ghost mut src: Seq<int> = Seq::empty();
        let ghost mut dst: Seq<int> = Seq::empty();
        let mut kept_c: Vec<(TrackedEventId, i64)> = Vec::new();
        let mut i: usize = 0;
        while i < self.event_last_notified.len()
            invariant
                i <= cb.len(),
                self.event_last_notified@ == cb,
                now == current_time,
                keep_c == (|j: int| now - cb[j].1 <= COOLDOWN_RETENTION_SECONDS),
                selects(cb, kept_c@, src, dst, keep_c, i as int),
            decreases cb.len() - i,
        {
            if (current_time as i128) - (self.event_last_notified[i].1 as i128)
                <= COOLDOWN_RETENTION_SECONDS as i128 {
                let e = (self.event_last_notified[i].0.clone(), self.event_last_notified[i].1);
                proof {
                    lemma_selects_push(cb, kept_c@, src, dst, keep_c, i as int);
                    src = src.push(i as int);
                    dst = dst.push(kept_c.len() as int);
                }
                kept_c.push(e);
            } else {
                proof {
                    lemma_selects_skip(cb, kept_c@, src, dst, keep_c, i as int);
                    dst = dst.push(0);
                }
            }
            i = i + 1;
        }
        proof {
            lemma_table_select(cb, kept_c@, src, dst, keep_c);
            let m0 = table_map(cb);
            assert forall|k: EventKey| #[trigger] table_map(kept_c@).contains_key(k)
                == cooldowns_live(m0, now).contains_key(k) by {
                if table_map(kept_c@).contains_key(k) {
                    let j = choose|j: int| 0 <= j < cb.len() && cb[j].0@ == k && keep_c(j);
                    lemma_table_entry(cb, j);
                }
                if cooldowns_live(m0, now).contains_key(k) {
                    let j = choose|j: int| 0 <= j < cb.len() && (#[trigger] cb[j]).0@ == k;
                    lemma_table_entry(cb, j);
                    assert(keep_c(j));
                }
            }
            assert(table_map(kept_c@) =~= cooldowns_live(m0, now));
        }
        self.event_last_notified = kept_c;
    }
}

/// A toast as `dismiss_toast(id)` leaves it.
pub open spec fn dismissed_if(t: ToastNotification, id: u64) -> ToastNotification {
    if t.id == id {
        ToastNotification { dismissed: true, ..t }
    } else {
        t
    }
}

/// The preview slot after one fade step at `now`: gone once `duration` has
/// passed (its opacity has reached zero) or it was dismissed, else faded
/// like a queued toast.
pub open spec fn preview_after(p: Option<ToastNotification>, duration: int, now: u64) -> Option<
    ToastNotification,
> {
    match p {
        None => None,
        Some(t) => {
            let e = elapsed_ms(t.created_at, now);
            if e >= duration || t.dismissed {
                None
            } else {
                Some(ToastNotification { opacity: fade_opacity(e, duration, t.opacity as int) as u32, ..t })
            }
        },
    }
}

impl NotificationState {
    /// Appends a toast with the next id, made at `current_time` (seconds since
    /// the epoch) and `now_ms` (monotonic milliseconds).
    pub fn add_toast(
        &mut self,
        event_id: TrackedEventId,
        event_start_time: i64,
        minutes_until: i64,
        minutes_before: u32,
        copy_text: String,
        reminder_name: String,
        reminder_color: EventColor,
        current_time: i64,
        now_ms: u64,
    )
        requires
            old(self).wf(),
            old(self).next_toast_id < u64::MAX,
        ensures
            final(self).wf(),
            final(self).toast_queue@ == old(self).toast_queue@.push(
                ToastNotification {
                    id: old(self).next_toast_id,
                    event_id,
                    event_start_time,
                    minutes_until,
                    minutes_before,
                    created_at: now_ms,
                    opacity: FULL_OPACITY,
                    dismissed: false,
                    copy_text,
                    reminder_name,
                    reminder_color,
                },
            ),
            *final(self) == (NotificationState {
                toast_queue: final(self).toast_queue,
                next_toast_id: (old(self).next_toast_id + 1) as u64,
                last_toast_time: current_time,
                ..*old(self)
            }),
    {
        let toast = ToastNotification {
            id: self.next_toast_id,
            event_id,
            event_start_time,
            minutes_until,
            minutes_before,
            created_at: now_ms,
            opacity: FULL_OPACITY,
            dismissed: false,
            copy_text,
            reminder_name,
            reminder_color,
        };
        self.next_toast_id = self.next_toast_id + 1;
        self.last_toast_time = current_time;
        self.toast_queue.push(toast);
    }

    /// Shows a sample toast in the preview slot, for configuring reminders.
    pub fn show_preview(&mut self, reminder_name: &str, reminder_color: EventColor, now_ms: u64)
        requires
            old(self).wf(),
            old(self).next_toast_id < u64::MAX,
        ensures
            final(self).wf(),
            final(self).preview_toast matches Some(p) && p.id == old(self).next_toast_id
                && p.event_id@ == ("Example Track"@, "Example Event"@) && p.event_start_time == 0
                && p.minutes_until == 5 && p.minutes_before == 0 && p.created_at == now_ms
                && p.opacity == FULL_OPACITY && !p.dismissed && p.copy_text@ == "[&Example]"@
                && p.reminder_name@ == reminder_name@ && p.reminder_color == reminder_color,
            *final(self) == (NotificationState {
                preview_toast: final(self).preview_toast,
                next_toast_id: (old(self).next_toast_id + 1) as u64,
                ..*old(self)
            }),
    {
        let preview = ToastNotification {
            id: self.next_toast_id,
            event_id: TrackedEventId::new("Example Track", "Example Event"),
            event_start_time: 0,
            minutes_until: 5,
            minutes_before: 0,
            created_at: now_ms,
            opacity: FULL_OPACITY,
            dismissed: false,
            copy_text: "[&Example]".to_owned(),
            reminder_name: reminder_name.to_owned(),
            reminder_color,
        };
        self.next_toast_id = self.next_toast_id + 1;
        self.preview_toast = Some(preview);
    }

    /// Fades the preview toast, and removes it once it has run its course.
    pub fn update_preview(&mut self, toast_duration_ms: u64, now_ms: u64)
        requires
            old(self).wf(),
        ensures
            final(self).wf(),
            *final(self) == (NotificationState {
                preview_toast: preview_after(
                    old(self).preview_toast,
                    toast_duration_ms as int,
                    now_ms,
                ),
                ..*old(self)
            }),
    {
        match &self.preview_toast {
            None => {},
            Some(p) => {
                let e: u64 = if now_ms >= p.created_at {
                    now_ms - p.created_at
                } else {
                    0
                };
                if e >= toast_duration_ms || p.dismissed {
                    self.preview_toast = None;
                } else {
                    let mut t = p.clone();
                    t.opacity = fade_value(e, toast_duration_ms, t.opacity);
                    self.preview_toast = Some(t);
                }
            },
        }
    }

    /// Marks the queued toast `id` as dismissed; the next fade step hides it.
    pub fn dismiss_toast(&mut self, id: u64)
        requires
            old(self).wf(),
        ensures
            final(self).wf(),
            final(self).toast_queue@ == old(self).toast_queue@.map_values(
                |t: ToastNotification| dismissed_if(t, id),
            ),
            *final(self) == (NotificationState {
                toast_queue: final(self).toast_queue,
                ..*old(self)
            }),
    {
        let ghost q0 = self.toast_queue@;
        let ghost s0 = *self;
        let mut i: usize = 0;
        while i < self.toast_queue.len()
            invariant
                i <= q0.len(),
                self.toast_queue@.len() == q0.len(),
                s0 == *old(self),
                s0.wf(),
                q0 == s0.toast_queue@,
                *self == (NotificationState { toast_queue: self.toast_queue, ..s0 }),
                forall|j: int| 0 <= j < i ==> self.toast_queue@[j] == dismissed_if(q0[j], id),
                forall|j: int| i <= j < q0.len() ==> self.toast_queue@[j] == q0[j],
            decreases q0.len() - i,
        {
            if self.toast_queue[i].id == id {
                let mut t = self.toast_queue[i].clone();
                t.dismissed = true;
                self.toast_queue.set(i, t);
            }
            i = i + 1;
        }
        assert(self.toast_queue@ =~= q0.map_values(|t: ToastNotification| dismissed_if(t, id)));
    }

    /// Whether `current_time` is a second not yet refreshed.
    pub fn needs_refresh(&self, current_time: i64) -> (r: bool)
        ensures
            r == (current_time != self.last_refresh_time),
    {
        current_time != self.last_refresh_time
    }

    pub fn set_refresh_time(&mut self, current_time: i64)
        ensures
            *final(self) == (NotificationState { last_refresh_time: current_time, ..*old(self) }),
    {
        self.last_refresh_time = current_time;
    }
}

/// `fade_opacity` for an elapsed time within the duration.
fn fade_value(elapsed: u64, duration: u64, current: u32) -> (r: u32)
    requires
        elapsed <= duration,
    ensures
        r == fade_opacity(elapsed as int, duration as int, current as int),
{
    if elapsed as u128 + FADE_MS as u128 > duration as u128 {
        (duration - elapsed) as u32
    } else {
        current
    }
}

impl Default for NotificationState {
    fn default() -> (r: Self)
        ensures
            r.wf(),
            r.toast_queue@.len() == 0,
            r.next_toast_id == 0,
            r.notified() == Set::<NotifiedView>::empty(),
            r.ongoing() == Map::<OngoingView, int>::empty(),
            r.cooldowns() == Map::<EventKey, int>::empty(),
            r.last_toast_time == 0,
            r.upcoming_events@.len() == 0,
            r.last_refresh_time == 0,
            r.preview_toast.is_none(),
    {
        Self::new()
    }
}

impl NotificationState {
    /// One fade step of the queue at `now_ms`: each toast's opacity follows
    /// `fade_opacity` (dismissed ones drop to zero), hidden toasts are
    /// removed, and then the oldest are evicted until at most `max_visible`
    /// remain.
    pub fn update_toasts(&mut self, toast_duration_ms: u64, max_visible: usize, now_ms: u64)
        requires
            old(self).wf(),
        ensures
            final(self).wf(),
            final(self).toast_queue@ == queue_after_fade(
                old(self).toast_queue@,
                toast_duration_ms as int,
                max_visible as int,
                now_ms,
            ),
            final(self).toast_queue@.len() <= max_visible,
            *final(self) == (NotificationState {
                toast_queue: final(self).toast_queue,
                ..*old(self)
            }),
    {
        let ghost q0 = self.toast_queue@;
        let ghost dur = toast_duration_ms as int;
        let ghost f = |t: ToastNotification| faded(t, dur, now_ms);
        let ghost p = |t: ToastNotification| visible(t);
        let mut kept: Vec<ToastNotification> = Vec::new();
        let mut i: usize = 0;
        while i < self.toast_queue.len()
            invariant
                i <= q0.len(),
                self.toast_queue@ == q0,
                dur == toast_duration_ms,
                f == (|t: ToastNotification| faded(t, dur, now_ms)),
                p == (|t: ToastNotification| visible(t)),
                kept@ == q0.take(i as int).map_values(f).filter(p),
            decreases q0.len() - i,
        {
            let mut t = self.toast_queue[i].clone();
            let e: u64 = if now_ms >= t.created_at {
                now_ms - t.created_at
            } else {
                0
            };
            if t.dismissed || e > toast_duration_ms {
                t.opacity = 0;
            } else {
                t.opacity = fade_value(e, toast_duration_ms, t.opacity);
            }
            proof {
                let ii = i as int;
                let m = q0.take(ii + 1).map_values(f);
                assert(m.drop_last() =~= q0.take(ii).map_values(f));
                assert(m.last() == t);
                reveal(Seq::filter);
            }
            if t.opacity > 0 {
                kept.push(t);
            }
            i = i + 1;
        }
        proof {
            assert(q0.take(q0.len() as int) =~= q0);
        }
        let ghost full = kept@;
        while kept.len() > max_visible
            invariant
                kept@ == full.subrange(full.len() - kept.len(), full.len() as int),
                kept.len() <= full.len(),
                kept.len() >= max_visible || kept@ == full,
            decreases kept.len(),
        {
            kept.remove(0);
        }
        proof {
            assert(kept@ =~= keep_newest(full, max_visible as int));
            let m = q0.map_values(f);
            assert forall|i: int, j: int| 0 <= i < j < m.len() implies (#[trigger] m[i]).id < (
            #[trigger] m[j]).id by {
                assert(m[i].id == q0[i].id && m[j].id == q0[j].id);
            }
            lemma_filter_ids_increase(m, p);
            assert forall|a: int, b: int| 0 <= a < b < kept@.len() implies (#[trigger] kept@[a]).id
                < (#[trigger] kept@[b]).id by {
                let o = full.len() - kept@.len();
                assert(kept@[a] == full[o + a] && kept@[b] == full[o + b]);
            }
            assert forall|a: int| 0 <= a < kept.len() implies (#[trigger] kept@[a]).id
                < self.next_toast_id by {
                let m = q0.map_values(f);
                let j = full.len() - kept.len() + a;
                assert(kept@[a] == full[j]);
                m.lemma_filter_contains_rev(p, full[j]);
                let k = choose|k: int| 0 <= k < m.len() && m[k] == full[j];
                assert(m[k].id == q0[k].id);
            }
        }
        self.toast_queue = kept;
    }
}


/// Each toast left by a fade step is a visible, faded toast of the queue the
/// step started from.
pub proof fn lemma_fade_origin(
    q: Seq<ToastNotification>,
    duration: int,
    max: int,
    now: u64,
    i: int,
)
    requires
        0 <= max,
        0 <= i < queue_after_fade(q, duration, max, now).len(),
    ensures
        exists|j: int|
            0 <= j < q.len() && queue_after_fade(q, duration, max, now)[i] == faded(
                #[trigger] q[j],
                duration,
                now,
            ),
        visible(queue_after_fade(q, duration, max, now)[i]),
{
    let m = q.map_values(|t: ToastNotification| faded(t, duration, now));
    let p = |t: ToastNotification| visible(t);
    let full = m.filter(p);
    let r = queue_after_fade(q, duration, max, now);
    let j = if full.len() > max {
        full.len() - max + i
    } else {
        i
    };
    assert(r[i] == full[j]);
    m.lemma_filter_pred(p, j);
    m.lemma_filter_contains_rev(p, full[j]);
    let k = choose|k: int| 0 <= k < m.len() && m[k] == full[j];
    assert(m[k] == faded(q[k], duration, now));
}

/// Fading: a toast made fully opaque and shown `duration` (at least one
/// second) keeps its opacity until its last second, then its opacity falls
/// strictly, and once `duration` has passed it is gone from the queue (no
/// toast left carries its id), as is a dismissed one.
pub proof fn lemma_fade_law(
    q: Seq<ToastNotification>,
    duration: int,
    max: int,
    now: u64,
    e1: int,
    e2: int,
)
    requires
        duration >= FADE_MS,
        0 <= max,
        ids_increase(q),
    ensures
        0 <= e1 <= duration - FADE_MS ==> fade_opacity(e1, duration, FULL_OPACITY as int)
            == FULL_OPACITY,
        duration - FADE_MS <= e1 < e2 <= duration ==> fade_opacity(
            e1,
            duration,
            FULL_OPACITY as int,
        ) > fade_opacity(e2, duration, FULL_OPACITY as int),
        forall|i: int|
            0 <= i < queue_after_fade(q, duration, max, now).len() ==> {
                let t = #[trigger] queue_after_fade(q, duration, max, now)[i];
                elapsed_ms(t.created_at, now) < duration && !t.dismissed
            },
        forall|i: int, j: int|
            0 <= i < queue_after_fade(q, duration, max, now).len() && 0 <= j < q.len() && (
            q[j].dismissed || elapsed_ms(q[j].created_at, now) >= duration) ==> (
            #[trigger] queue_after_fade(q, duration, max, now)[i]).id != (#[trigger] q[j]).id,
{
    assert forall|i: int| 0 <= i < queue_after_fade(q, duration, max, now).len() implies {
        let t = #[trigger] queue_after_fade(q, duration, max, now)[i];
        elapsed_ms(t.created_at, now) < duration && !t.dismissed
    } by {
        lemma_fade_origin(q, duration, max, now, i);
    }
    assert forall|i: int, j: int|
        0 <= i < queue_after_fade(q, duration, max, now).len() && 0 <= j < q.len() && (
        q[j].dismissed || elapsed_ms(q[j].created_at, now) >= duration) implies (
        #[trigger] queue_after_fade(q, duration, max, now)[i]).id != (#[trigger] q[j]).id by {
        lemma_fade_origin(q, duration, max, now, i);
        let k = choose|k: int|
            0 <= k < q.len() && queue_after_fade(q, duration, max, now)[i] == faded(
                #[trigger] q[k],
                duration,
                now,
            );
        assert(k != j);
        if k < j {
            assert(q[k].id < q[j].id);
        } else {
            assert(q[j].id < q[k].id);
        }
    }
}

impl NotificationState {
    /// Evicts the oldest toasts until at most `max_visible` remain.
    pub fn evict_oldest(&mut self, max_visible: usize)
        requires
            old(self).wf(),
        ensures
            final(self).wf(),
            final(self).toast_queue@ == keep_newest(old(self).toast_queue@, max_visible as int),
            *final(self) == (NotificationState {
                toast_queue: final(self).toast_queue,
                ..*old(self)
            }),
    {
        let ghost full = self.toast_queue@;
        let ghost s0 = *self;
        while self.toast_queue.len() > max_visible
            invariant
                self.toast_queue@ == full.subrange(
                    full.len() - self.toast_queue@.len(),
                    full.len() as int,
                ),
                self.toast_queue@.len() <= full.len(),
                self.toast_queue@.len() >= max_visible || self.toast_queue@ == full,
                s0.wf(),
                full == s0.toast_queue@,
                *self == (NotificationState { toast_queue: self.toast_queue, ..s0 }),
            decreases self.toast_queue@.len(),
        {
            self.toast_queue.remove(0);
        }
        proof {
            assert(self.toast_queue@ =~= keep_newest(full, max_visible as int));
            assert forall|a: int| 0 <= a < self.toast_queue@.len() implies (
            #[trigger] self.toast_queue@[a]).id < self.next_toast_id by {
                assert(self.toast_queue@[a] == full[full.len() - self.toast_queue@.len() + a]);
            }
        }
    }
}

} // verus!
