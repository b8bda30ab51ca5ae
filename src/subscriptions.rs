use vstd::prelude::*;

use crate::catalog::{contains_id, id_listed, EventKey, TrackedEventId};
use crate::notification_logic::ids_set;
use crate::notifications::{lemma_selects_push, lemma_selects_skip, selects};

verus! {

/// The events a user follows: persistently, or for their next occurrence only.
#[derive(Debug)]
pub struct Subscriptions {
    pub tracked_events: Vec<TrackedEventId>,
    pub oneshot_events: Vec<TrackedEventId>,
}

impl Subscriptions {
    pub fn new() -> (r: Self)
        ensures
            ids_set(r.tracked_events@) == Set::<EventKey>::empty(),
            ids_set(r.oneshot_events@) == Set::<EventKey>::empty(),
    {
        let r = Subscriptions { tracked_events: Vec::new(), oneshot_events: Vec::new() };
        assert(ids_set(r.tracked_events@) =~= Set::<EventKey>::empty());
        assert(ids_set(r.oneshot_events@) =~= Set::<EventKey>::empty());
        r
    }
}

/// Adds `id` to the set that `ids` stands for.
fn insert_id(ids: &mut Vec<TrackedEventId>, id: TrackedEventId)
    ensures
        ids_set(final(ids)@) == ids_set(old(ids)@).insert(id@),
{
    if contains_id(ids, &id) {
        assert(ids_set(old(ids)@).insert(id@) =~= ids_set(old(ids)@));
        return ;
    }
    let ghost before = ids@;
    let ghost k = id@;
    ids.push(id);
    proof {
        let after = ids@;
        assert forall|x: EventKey| ids_set(after).contains(x) == ids_set(before).insert(k).contains(
            x,
        ) by {
            if id_listed(after, x) {
                let j = choose|j: int| 0 <= j < after.len() && (#[trigger] after[j])@ == x;
                if j < before.len() {
                    assert(before[j] == after[j]);
                }
            }
            if id_listed(before, x) {
                let j = choose|j: int| 0 <= j < before.len() && (#[trigger] before[j])@ == x;
                assert(after[j] == before[j]);
            }
            assert(after[before.len() as int]@ == k);
        }
        assert(ids_set(after) =~= ids_set(before).insert(k));
    }
}

/// Removes `id` from the set that `ids` stands for.
fn remove_id(ids: &mut Vec<TrackedEventId>, id: &TrackedEventId)
    ensures
        ids_set(final(ids)@) == ids_set(old(ids)@).remove(id@),
{
    let ghost before = ids@;
    let ghost k = id@;
    let ghost keep = |j: int| before[j]@ != k;
    let ghost mut src: Seq<int> = Seq::empty();
    let ghost mut dst: Seq<int> = Seq::empty();
    let mut kept: Vec<TrackedEventId> = Vec::new();
    let mut i: usize = 0;
    while i < ids.len()
        invariant
            i <= before.len(),
            ids@ == before,
            k == id@,
            keep == (|j: int| before[j]@ != k),
            selects(before, kept@, src, dst, keep, i as int),
        decreases before.len() - i,
    {
        if !ids[i].same_as(id) {
            let e = ids[i].clone();
            proof {
                lemma_selects_push(before, kept@, src, dst, keep, i as int);
                src = src.push(i as int);
                dst = dst.push(kept.len() as int);
            }
            kept.push(e);
        } else {
            proof {
                lemma_selects_skip(before, kept@, src, dst, keep, i as int);
                dst = dst.push(0);
            }
        }
        i = i + 1;
    }
    proof {
        let after = kept@;
        assert forall|x: EventKey| ids_set(after).contains(x) == ids_set(before).remove(k).contains(
            x,
        ) by {
            if id_listed(after, x) {
                let a = choose|a: int| 0 <= a < after.len() && (#[trigger] after[a])@ == x;
                assert(after[a] == before[src[a]]);
            }
            if x != k && id_listed(before, x) {
                let j = choose|j: int| 0 <= j < before.len() && (#[trigger] before[j])@ == x;
                assert(keep(j));
                assert(after[dst[j]] == before[j]);
            }
        }
        assert(ids_set(after) =~= ids_set(before).remove(k));
    }
    *ids = kept;
}

/// Whether the event is followed persistently.
pub fn is_event_tracked(subs: &Subscriptions, track_name: &str, event_name: &str) -> (r: bool)
    ensures
        r == ids_set(subs.tracked_events@).contains((track_name@, event_name@)),
{
    let event_id = TrackedEventId::new(track_name, event_name);
    contains_id(&subs.tracked_events, &event_id)
}

/// Follows the event persistently if it was not, else stops following it.
pub fn toggle_event_tracking(subs: &mut Subscriptions, track_name: &str, event_name: &str)
    ensures
        ids_set(final(subs).tracked_events@) == if ids_set(old(subs).tracked_events@).contains(
            (track_name@, event_name@),
        ) {
            ids_set(old(subs).tracked_events@).remove((track_name@, event_name@))
        } else {
            ids_set(old(subs).tracked_events@).insert((track_name@, event_name@))
        },
        final(subs).oneshot_events == old(subs).oneshot_events,
{
    let event_id = TrackedEventId::new(track_name, event_name);
    if contains_id(&subs.tracked_events, &event_id) {
        remove_id(&mut subs.tracked_events, &event_id);
    } else {
        insert_id(&mut subs.tracked_events, event_id);
    }
}

/// Follows the event persistently, or stops following it.
pub fn set_event_tracking(subs: &mut Subscriptions, track_name: &str, event_name: &str, follow: bool)
    ensures
        ids_set(final(subs).tracked_events@) == if follow {
            ids_set(old(subs).tracked_events@).insert((track_name@, event_name@))
        } else {
            ids_set(old(subs).tracked_events@).remove((track_name@, event_name@))
        },
        final(subs).oneshot_events == old(subs).oneshot_events,
{
    let event_id = TrackedEventId::new(track_name, event_name);
    if follow {
        insert_id(&mut subs.tracked_events, event_id);
    } else {
        remove_id(&mut subs.tracked_events, &event_id);
    }
}

/// Follows the event's next occurrence if it was not, else stops.
pub fn toggle_oneshot_tracking(subs: &mut Subscriptions, track_name: &str, event_name: &str)
    ensures
        ids_set(final(subs).oneshot_events@) == if ids_set(old(subs).oneshot_events@).contains(
            (track_name@, event_name@),
        ) {
            ids_set(old(subs).oneshot_events@).remove((track_name@, event_name@))
        } else {
            ids_set(old(subs).oneshot_events@).insert((track_name@, event_name@))
        },
        final(subs).tracked_events == old(subs).tracked_events,
{
    let event_id = TrackedEventId::new(track_name, event_name);
    if contains_id(&subs.oneshot_events, &event_id) {
        remove_id(&mut subs.oneshot_events, &event_id);
    } else {
        insert_id(&mut subs.oneshot_events, event_id);
    }
}

/// Stops following, persistently and for the next occurrence, the event.
pub fn untrack_event(subs: &mut Subscriptions, event_id: &TrackedEventId)
    ensures
        ids_set(final(subs).tracked_events@) == ids_set(old(subs).tracked_events@).remove(event_id@),
        ids_set(final(subs).oneshot_events@) == ids_set(old(subs).oneshot_events@).remove(event_id@),
{
    remove_id(&mut subs.tracked_events, event_id);
    remove_id(&mut subs.oneshot_events, event_id);
}

/// Applies the removals a tick returned: the one-shot subscriptions whose
/// occurrence has begun end.
pub fn remove_oneshot_events(subs: &mut Subscriptions, ended: &Vec<TrackedEventId>)
    ensures
        ids_set(final(subs).oneshot_events@) == ids_set(old(subs).oneshot_events@).difference(
            ids_set(ended@),
        ),
        final(subs).tracked_events == old(subs).tracked_events,
{
    let mut i: usize = 0;
    while i < ended.len()
        invariant
            i <= ended.len(),
            subs.tracked_events == old(subs).tracked_events,
            ids_set(subs.oneshot_events@) == ids_set(old(subs).oneshot_events@).difference(
                ids_set(ended@.take(i as int)),
            ),
        decreases ended.len() - i,
    {
        let ghost before = ids_set(subs.oneshot_events@);
        remove_id(&mut subs.oneshot_events, &ended[i]);
        proof {
            let t1 = ended@.take(i + 1);
            let t0 = ended@.take(i as int);
            assert forall|x: EventKey| ids_set(t1).contains(x) == (ids_set(t0).contains(x) || x
                == ended@[i as int]@) by {
                if id_listed(t1, x) {
                    let j = choose|j: int| 0 <= j < t1.len() && (#[trigger] t1[j])@ == x;
                    if j < i {
                        assert(t0[j] == t1[j]);
                    }
                }
                if id_listed(t0, x) {
                    let j = choose|j: int| 0 <= j < t0.len() && (#[trigger] t0[j])@ == x;
                    assert(t1[j] == t0[j]);
                }
                assert(t1[i as int] == ended@[i as int]);
            }
            assert(ids_set(subs.oneshot_events@) =~= ids_set(old(subs).oneshot_events@).difference(
                ids_set(t1),
            ));
        }
        i = i + 1;
    }
    assert(ended@.take(ended@.len() as int) =~= ended@);
}

} // verus!
