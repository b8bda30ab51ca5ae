use vstd::prelude::*;

use crate::catalog::{same_track, EventTrack, TimelineEvent};

verus! {

#[derive(Debug, Clone, Copy, PartialEq, Eq, Structural)]
pub enum TextAlignment {
    Left,
    Center,
    Right,
}

impl Default for TextAlignment {
    fn default() -> (r: Self)
        ensures
            r == TextAlignment::Center,
    {
        TextAlignment::Center
    }
}

#[derive(Debug, Clone, Copy, PartialEq, Eq, Structural)]
pub enum LabelColumnPosition {
    /// No label column.
    Hidden,
    Left,
    Right,
}

impl Default for LabelColumnPosition {
    fn default() -> (r: Self)
        ensures
            r == LabelColumnPosition::Hidden,
    {
        LabelColumnPosition::Hidden
    }
}

/// A user's changes to a catalog track.
#[derive(Debug)]
pub struct TrackOverride {
    pub visible: Option<bool>,
    /// In hundredths of a pixel.
    pub height: Option<u32>,
    /// Names of the track's events the user switched off.
    pub disabled_events: Vec<String>,
}

/// (visible, height, names of switched-off events)
pub type OverrideView = (Option<bool>, Option<u32>, Seq<Seq<char>>);

pub open spec fn names_view(names: Seq<String>) -> Seq<Seq<char>> {
    names.map_values(|n: String| n@)
}

impl View for TrackOverride {
    type V = OverrideView;

    open spec fn view(&self) -> OverrideView {
        (self.visible, self.height, names_view(self.disabled_events@))
    }
}

/// Index of the last entry named `name`, or `-1`.
pub open spec fn key_index(s: Seq<(String, TrackOverride)>, name: Seq<char>) -> int
    decreases s.len(),
{
    if s.len() == 0 {
        -1
    } else if s.last().0@ == name {
        s.len() - 1
    } else {
        key_index(s.drop_last(), name)
    }
}

/// The overrides, by track name, that a list of named overrides stands for.
pub open spec fn override_map(s: Seq<(String, TrackOverride)>) -> Map<Seq<char>, OverrideView> {
    Map::new(|n: Seq<char>| key_index(s, n) >= 0, |n: Seq<char>| s[key_index(s, n)].1@)
}

pub open spec fn name_in(ts: Seq<EventTrack>, name: Seq<char>) -> bool {
    exists|i: int| 0 <= i < ts.len() && (#[trigger] ts[i]).name@ == name
}

/// The user's own tracks that stay: the first of each name, and none that
/// shares its name with a catalog track.
pub open spec fn kept_custom(s: Seq<EventTrack>, defaults: Seq<EventTrack>) -> Seq<EventTrack>
    decreases s.len(),
{
    if s.len() == 0 {
        s
    } else {
        let kept = kept_custom(s.drop_last(), defaults);
        if name_in(kept, s.last().name@) || name_in(defaults, s.last().name@) {
            kept
        } else {
            kept.push(s.last())
        }
    }
}

/// `new` is the catalog track `old` with the override `ov` applied.
pub open spec fn with_override(new: EventTrack, old: EventTrack, ov: OverrideView) -> bool {
    &&& new.name == old.name
    &&& new.timeline_type == old.timeline_type
    &&& new.base_time == old.base_time
    &&& new.category == old.category
    &&& new.visible == match ov.0 {
        Some(v) => v,
        None => old.visible,
    }
    &&& new.height == match ov.1 {
        Some(h) => h,
        None => old.height,
    }
    &&& new.events@.len() == old.events@.len()
    &&& forall|i: int|
        0 <= i < old.events@.len() ==> #[trigger] new.events@[i] == (TimelineEvent {
            enabled: old.events@[i].enabled && !ov.2.contains(old.events@[i].name@),
            ..old.events@[i]
        })
}

/// `new` is the catalog track `old` after the user's overrides.
pub open spec fn applied(
    new: EventTrack,
    old: EventTrack,
    overrides: Map<Seq<char>, OverrideView>,
) -> bool {
    if overrides.contains_key(old.name@) {
        with_override(new, old, overrides[old.name@])
    } else {
        same_track(new, old)
    }
}

fn find_override(overrides: &Vec<(String, TrackOverride)>, name: &String) -> (r: Option<usize>)
    ensures
        match r {
            Some(i) => i as int == key_index(overrides@, name@) && i < overrides@.len(),
            None => key_index(overrides@, name@) == -1,
        },
{
    let mut k: usize = overrides.len();
    proof {
        assert(overrides@.take(k as int) =~= overrides@);
    }
    while k > 0
        invariant
            k <= overrides@.len(),
            key_index(overrides@, name@) == key_index(overrides@.take(k as int), name@),
        decreases k,
    {
        proof {
            let t = overrides@.take(k as int);
            assert(t.drop_last() =~= overrides@.take(k - 1));
            assert(t.last() == overrides@[k - 1]);
        }
        if overrides[k - 1].0 == *name {
            return Some(k - 1);
        }
        k = k - 1;
    }
    None
}

fn has_track_named(ts: &Vec<EventTrack>, name: &String) -> (r: bool)
    ensures
        r == name_in(ts@, name@),
{
    let mut i: usize = 0;
    while i < ts.len()
        invariant
            i <= ts@.len(),
            forall|j: int| 0 <= j < i ==> (#[trigger] ts@[j]).name@ != name@,
        decreases ts@.len() - i,
    {
        if ts[i].name == *name {
            return true;
        }
        i = i + 1;
    }
    false
}

fn has_name(names: &Vec<String>, name: &String) -> (r: bool)
    ensures
        r == names_view(names@).contains(name@),
{
    let mut i: usize = 0;
    while i < names.len()
        invariant
            i <= names@.len(),
            forall|j: int| 0 <= j < i ==> (#[trigger] names@[j])@ != name@,
        decreases names@.len() - i,
    {
        if names[i] == *name {
            assert(names_view(names@)[i as int] == name@);
            return true;
        }
        i = i + 1;
    }
    assert forall|j: int| 0 <= j < names_view(names@).len() implies names_view(names@)[j]
        != name@ by {
        assert(names_view(names@)[j] == names@[j]@);
    }
    false
}

/// The catalog track `t` with the override `ov` applied.
fn override_track(t: &EventTrack, ov: &TrackOverride) -> (r: EventTrack)
    ensures
        with_override(r, *t, ov@),
{
    let mut r = t.clone();
    if let Some(v) = ov.visible {
        r.visible = v;
    }
    if let Some(h) = ov.height {
        r.height = h;
    }
    let mut k: usize = 0;
    while k < r.events.len()
        invariant
            k <= r.events@.len(),
            r.events@.len() == t.events@.len(),
            r.name == t.name,
            r.timeline_type == t.timeline_type,
            r.base_time == t.base_time,
            r.category == t.category,
            r.visible == match ov.visible {
                Some(v) => v,
                None => t.visible,
            },
            r.height == match ov.height {
                Some(h) => h,
                None => t.height,
            },
            forall|i: int|
                0 <= i < k ==> #[trigger] r.events@[i] == (TimelineEvent {
                    enabled: t.events@[i].enabled && !ov@.2.contains(t.events@[i].name@),
                    ..t.events@[i]
                }),
            forall|i: int| k <= i < r.events@.len() ==> #[trigger] r.events@[i] == t.events@[i],
        decreases r.events@.len() - k,
    {
        if has_name(&ov.disabled_events, &r.events[k].name) {
            let mut e = r.events[k].clone();
            e.enabled = false;
            r.events.set(k, e);
        }
        k = k + 1;
    }
    r
}

/// Merges the catalog's tracks with the user's: each catalog track gets
/// the user's override for its name, and the user's own tracks follow,
/// after `custom_tracks` is cleaned of repeated names and of names the
/// catalog now has.
pub fn apply_user_overrides(
    custom_tracks: &mut Vec<EventTrack>,
    track_overrides: &Vec<(String, TrackOverride)>,
    default_tracks: &Vec<EventTrack>,
) -> (tracks: Vec<EventTrack>)
    ensures
        final(custom_tracks)@ == kept_custom(old(custom_tracks)@, default_tracks@),
        tracks@.len() == default_tracks@.len() + final(custom_tracks)@.len(),
        forall|i: int|
            0 <= i < default_tracks@.len() ==> applied(
                #[trigger] tracks@[i],
                default_tracks@[i],
                override_map(track_overrides@),
            ),
        forall|j: int|
            0 <= j < final(custom_tracks)@.len() ==> same_track(
                #[trigger] tracks@[default_tracks@.len() + j],
                final(custom_tracks)@[j],
            ),
{
    let ghost orig = custom_tracks@;
    let mut pending: Vec<EventTrack> = Vec::new();
    std::mem::swap(custom_tracks, &mut pending);
    let mut kept: Vec<EventTrack> = Vec::new();
    let ghost mut done: int = 0;
    while pending.len() > 0
        invariant
            0 <= done <= orig.len(),
            pending@ == orig.subrange(done, orig.len() as int),
            kept@ == kept_custom(orig.take(done), default_tracks@),
        decreases pending@.len(),
    {
        let t = pending.remove(0);
        proof {
            let w = orig.take(done + 1);
            assert(w.drop_last() =~= orig.take(done));
            assert(w.last() == t);
            done = done + 1;
            assert(pending@ =~= orig.subrange(done, orig.len() as int));
        }
        if !has_track_named(&kept, &t.name) && !has_track_named(default_tracks, &t.name) {
            kept.push(t);
        }
    }
    proof {
        assert(orig.take(done) =~= orig);
    }
    *custom_tracks = kept;
    let mut tracks: Vec<EventTrack> = Vec::new();
    let mut i: usize = 0;
    while i < default_tracks.len()
        invariant
            i <= default_tracks@.len(),
            tracks@.len() == i,
            forall|a: int|
                0 <= a < i ==> applied(
                    #[trigger] tracks@[a],
                    default_tracks@[a],
                    override_map(track_overrides@),
                ),
        decreases default_tracks@.len() - i,
    {
        let t = &default_tracks[i];
        let found = find_override(track_overrides, &t.name);
        let nt = match found {
            Some(k) => {
                assert(override_map(track_overrides@).contains_key(t.name@));
                override_track(t, &track_overrides[k].1)
            },
            None => t.clone(),
        };
        tracks.push(nt);
        i = i + 1;
    }
    let n = tracks.len();
    let mut j: usize = 0;
    while j < custom_tracks.len()
        invariant
            n == default_tracks@.len(),
            j <= custom_tracks@.len(),
            tracks@.len() == n + j,
            forall|a: int|
                0 <= a < n ==> applied(
                    #[trigger] tracks@[a],
                    default_tracks@[a],
                    override_map(track_overrides@),
                ),
            forall|b: int| 0 <= b < j ==> same_track(#[trigger] tracks@[n + b], custom_tracks@[b]),
        decreases custom_tracks@.len() - j,
    {
        let c = custom_tracks[j].clone();
        let ghost before = tracks@;
        tracks.push(c);
        proof {
            assert forall|b: int| 0 <= b < j + 1 implies same_track(
                #[trigger] tracks@[n + b],
                custom_tracks@[b],
            ) by {
                if b < j {
                    assert(tracks@[n + b] == before[n + b]);
                }
            }
        }
        j = j + 1;
    }
    tracks
}

/// Index of the last track named `name`, or `-1`.
pub open spec fn track_index(ts: Seq<EventTrack>, name: Seq<char>) -> int
    decreases ts.len(),
{
    if ts.len() == 0 {
        -1
    } else if ts.last().name@ == name {
        ts.len() - 1
    } else {
        track_index(ts.drop_last(), name)
    }
}

/// Names of the switched-off events, in order.
pub open spec fn disabled_names(evs: Seq<TimelineEvent>) -> Seq<Seq<char>>
    decreases evs.len(),
{
    if evs.len() == 0 {
        Seq::empty()
    } else {
        let rest = disabled_names(evs.drop_last());
        if evs.last().enabled {
            rest
        } else {
            rest.push(evs.last().name@)
        }
    }
}

/// Heights (hundredths of a pixel) more than a tenth of a pixel apart.
pub open spec fn heights_differ(a: u32, b: u32) -> bool {
    a - b > 10 || b - a > 10
}

/// How track `t` differs from the catalog track `d`.
pub open spec fn override_of(t: EventTrack, d: EventTrack) -> OverrideView {
    (
        if t.visible != d.visible {
            Some(t.visible)
        } else {
            None
        },
        if heights_differ(t.height, d.height) {
            Some(t.height)
        } else {
            None
        },
        disabled_names(t.events@),
    )
}

pub open spec fn has_changes(ov: OverrideView) -> bool {
    ov.0.is_some() || ov.1.is_some() || ov.2.len() > 0
}

/// The overrides to save for the tracks `ts`, by track name.
pub open spec fn extracted_overrides(ts: Seq<EventTrack>, defaults: Seq<EventTrack>) -> Map<
    Seq<char>,
    OverrideView,
>
    decreases ts.len(),
{
    if ts.len() == 0 {
        Map::empty()
    } else {
        let m = extracted_overrides(ts.drop_last(), defaults);
        let t = ts.last();
        let d = track_index(defaults, t.name@);
        if d >= 0 && has_changes(override_of(t, defaults[d])) {
            m.insert(t.name@, override_of(t, defaults[d]))
        } else {
            m
        }
    }
}

/// The tracks of `ts` that the catalog does not have.
pub open spec fn extracted_custom(ts: Seq<EventTrack>, defaults: Seq<EventTrack>) -> Seq<EventTrack>
    decreases ts.len(),
{
    if ts.len() == 0 {
        Seq::empty()
    } else {
        let rest = extracted_custom(ts.drop_last(), defaults);
        if track_index(defaults, ts.last().name@) >= 0 {
            rest
        } else {
            rest.push(ts.last())
        }
    }
}

proof fn lemma_key_index_update(s: Seq<(String, TrackOverride)>, k: int, x: (String, TrackOverride))
    requires
        0 <= k < s.len(),
        x.0@ == s[k].0@,
    ensures
        forall|n: Seq<char>| #[trigger] key_index(s.update(k, x), n) == key_index(s, n),
    decreases s.len(),
{
    let u = s.update(k, x);
    assert(u.last().0@ == s.last().0@);
    if k < s.len() - 1 {
        lemma_key_index_update(s.drop_last(), k, x);
    }
    assert forall|n: Seq<char>| #[trigger] key_index(u, n) == key_index(s, n) by {
        if k < s.len() - 1 {
            let v = s.drop_last().update(k, x);
            assert(u.drop_last() =~= v);
            assert(key_index(v, n) == key_index(s.drop_last(), n));
        } else {
            assert(u.drop_last() =~= s.drop_last());
        }
    }
}

proof fn lemma_key_index_points(s: Seq<(String, TrackOverride)>, n: Seq<char>)
    ensures
        -1 <= key_index(s, n) < s.len(),
        key_index(s, n) >= 0 ==> s[key_index(s, n)].0@ == n,
    decreases s.len(),
{
    if s.len() > 0 {
        lemma_key_index_points(s.drop_last(), n);
    }
}

fn find_track(ts: &Vec<EventTrack>, name: &String) -> (r: Option<usize>)
    ensures
        match r {
            Some(i) => i as int == track_index(ts@, name@) && i < ts@.len(),
            None => track_index(ts@, name@) == -1,
        },
{
    let mut k: usize = ts.len();
    proof {
        assert(ts@.take(k as int) =~= ts@);
    }
    while k > 0
        invariant
            k <= ts@.len(),
            track_index(ts@, name@) == track_index(ts@.take(k as int), name@),
        decreases k,
    {
        proof {
            let t = ts@.take(k as int);
            assert(t.drop_last() =~= ts@.take(k - 1));
            assert(t.last() == ts@[k - 1]);
        }
        if ts[k - 1].name == *name {
            return Some(k - 1);
        }
        k = k - 1;
    }
    None
}

/// How track `t` differs from the catalog track `d`.
fn diff_track(t: &EventTrack, d: &EventTrack) -> (r: TrackOverride)
    ensures
        r@ == override_of(*t, *d),
{
    let visible = if t.visible != d.visible {
        Some(t.visible)
    } else {
        None
    };
    let height = if t.height as i64 - d.height as i64 > 10 || d.height as i64 - t.height as i64 > 10 {
        Some(t.height)
    } else {
        None
    };
    let mut disabled: Vec<String> = Vec::new();
    let mut k: usize = 0;
    while k < t.events.len()
        invariant
            k <= t.events@.len(),
            names_view(disabled@) == disabled_names(t.events@.take(k as int)),
        decreases t.events@.len() - k,
    {
        proof {
            let w = t.events@.take(k + 1);
            assert(w.drop_last() =~= t.events@.take(k as int));
            assert(w.last() == t.events@[k as int]);
        }
        if !t.events[k].enabled {
            let ghost before = disabled@;
            disabled.push(t.events[k].name.clone());
            assert(names_view(disabled@) =~= names_view(before).push(t.events@[k as int].name@));
        }
        k = k + 1;
    }
    assert(t.events@.take(t.events@.len() as int) =~= t.events@);
    TrackOverride { visible, height, disabled_events: disabled }
}

/// Splits the tracks in use into what the user's configuration keeps: the
/// overrides of catalog tracks (by name, for those that differ from the
/// catalog) and the user's own tracks.
pub fn extract_user_overrides(tracks: &Vec<EventTrack>, default_tracks: &Vec<EventTrack>) -> (r: (
    Vec<(String, TrackOverride)>,
    Vec<EventTrack>,
))
    ensures
        override_map(r.0@) == extracted_overrides(tracks@, default_tracks@),
        r.1@.len() == extracted_custom(tracks@, default_tracks@).len(),
        forall|j: int|
            0 <= j < r.1@.len() ==> same_track(
                #[trigger] r.1@[j],
                extracted_custom(tracks@, default_tracks@)[j],
            ),
{
    let mut overrides: Vec<(String, TrackOverride)> = Vec::new();
    let mut custom: Vec<EventTrack> = Vec::new();
    let mut i: usize = 0;
    proof {
        assert(override_map(overrides@) =~= Map::<Seq<char>, OverrideView>::empty());
    }
    while i < tracks.len()
        invariant
            i <= tracks@.len(),
            override_map(overrides@) == extracted_overrides(tracks@.take(i as int), default_tracks@),
            custom@.len() == extracted_custom(tracks@.take(i as int), default_tracks@).len(),
            forall|j: int|
                0 <= j < custom@.len() ==> same_track(
                    #[trigger] custom@[j],
                    extracted_custom(tracks@.take(i as int), default_tracks@)[j],
                ),
        decreases tracks@.len() - i,
    {
        let t = &tracks[i];
        let ghost w = tracks@.take(i + 1);
        proof {
            assert(w.drop_last() =~= tracks@.take(i as int));
            assert(w.last() == tracks@[i as int]);
        }
        match find_track(default_tracks, &t.name) {
            Some(d) => {
                let ov = diff_track(t, &default_tracks[d]);
                if ov.visible.is_some() || ov.height.is_some() || ov.disabled_events.len() > 0 {
                    let ghost before = overrides@;
                    let ghost ovv = ov@;
                    let name = t.name.clone();
                    match find_override(&overrides, &name) {
                        Some(k) => {
                            proof {
                                lemma_key_index_points(before, t.name@);
                            }
                            overrides.set(k, (name, ov));
                            proof {
                                lemma_key_index_update(before, k as int, overrides@[k as int]);
                                assert forall|n: Seq<char>| #[trigger]
                                    override_map(overrides@).contains_key(n)
                                        == override_map(before).insert(t.name@, ovv).contains_key(n)
                                    && (override_map(overrides@).contains_key(n) ==> override_map(
                                    overrides@,
                                )[n] == override_map(before).insert(t.name@, ovv)[n]) by {
                                    lemma_key_index_points(before, n);
                                }
                                assert(override_map(overrides@) =~= override_map(before).insert(
                                    t.name@,
                                    ovv,
                                ));
                            }
                        },
                        None => {
                            overrides.push((name, ov));
                            proof {
                                assert(overrides@.drop_last() =~= before);
                                assert forall|n: Seq<char>| #[trigger]
                                    override_map(overrides@).contains_key(n)
                                        == override_map(before).insert(t.name@, ovv).contains_key(n)
                                    && (override_map(overrides@).contains_key(n) ==> override_map(
                                    overrides@,
                                )[n] == override_map(before).insert(t.name@, ovv)[n]) by {
                                    lemma_key_index_points(before, n);
                                }
                                assert(override_map(overrides@) =~= override_map(before).insert(
                                    t.name@,
                                    ovv,
                                ));
                            }
                        },
                    }
                }
            },
            None => {
                let c = t.clone();
                let ghost before = custom@;
                custom.push(c);
                proof {
                    assert forall|j: int| 0 <= j < custom@.len() implies same_track(
                        #[trigger] custom@[j],
                        extracted_custom(w, default_tracks@)[j],
                    ) by {
                        if j < before.len() {
                            assert(custom@[j] == before[j]);
                        }
                    }
                }
            },
        }
        i = i + 1;
    }
    proof {
        assert(tracks@.take(tracks@.len() as int) =~= tracks@);
    }
    (overrides, custom)
}

} // verus!
