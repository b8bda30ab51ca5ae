use vstd::prelude::*;

verus! {

/// Where an event stands relative to one instant, as mathematical integers:
/// `(absolute_start, seconds_until_start, seconds_into, duration, occurrence_index)`.
pub type TimingSpec = (int, int, int, int, int);

pub open spec fn fits_i64(x: int) -> bool {
    i64::MIN <= x <= i64::MAX
}

/// The occurrence of an event (anchored at `base_time`, repeating every
/// `cycle_duration` seconds, active from `start_offset` for `duration`
/// seconds of each cycle) that is current or next at `now`.
///
/// The offset is first reduced modulo the cycle, so any integer offset
/// names a position within the cycle. `seconds_into` is the time since the
/// start while the event is active, and `-1` while it is pending.
pub open spec fn timing_spec(
    base_time: int,
    start_offset: int,
    duration: int,
    cycle_duration: int,
    now: int,
) -> TimingSpec
    recommends
        cycle_duration > 0,
{
    let elapsed = now - base_time;
    let phase = elapsed % cycle_duration;
    let index = elapsed / cycle_duration;
    let off = start_offset % cycle_duration;
    if off <= phase && phase < off + duration {
        (now - phase + off, 0, phase - off, duration, index)
    } else {
        let delta = off - phase;
        if delta <= 0 {
            (now + delta + cycle_duration, delta + cycle_duration, -1, duration, index + 1)
        } else {
            (now + delta, delta, -1, duration, index)
        }
    }
}

pub open spec fn timing_fits(t: TimingSpec) -> bool {
    fits_i64(t.0) && fits_i64(t.1) && fits_i64(t.2) && fits_i64(t.3) && fits_i64(t.4)
}

pub open spec fn timing_view(t: (i64, i64, i64, i64, i64)) -> TimingSpec {
    (t.0 as int, t.1 as int, t.2 as int, t.3 as int, t.4 as int)
}

/// The current or next occurrence of an event; see `timing_spec`.
///
/// Returns `None` when the cycle length is not positive (a configuration
/// error: the event is skipped) or when a component of the result does not
/// fit in an `i64`.
pub fn calculate_event_timing(
    base_time: i64,
    start_offset: i64,
    duration: i64,
    cycle_duration: i64,
    current_time: i64,
) -> (r: Option<(i64, i64, i64, i64, i64)>)
    ensures
        cycle_duration <= 0 ==> r.is_none(),
        cycle_duration > 0 ==> match r {
            Some(t) => timing_view(t) == timing_spec(
                base_time as int,
                start_offset as int,
                duration as int,
                cycle_duration as int,
                current_time as int,
            ),
            None => !timing_fits(
                timing_spec(
                    base_time as int,
                    start_offset as int,
                    duration as int,
                    cycle_duration as int,
                    current_time as int,
                ),
            ),
        },
{
    if cycle_duration <= 0 {
        return None;
    }
    let now = current_time as i128;
    let dur = duration as i128;
    let cycle = cycle_duration as i128;
    let off: i128 = match (start_offset as i128).checked_rem_euclid(cycle) {
        Some(o) => o,
        None => return None,
    };
    assert(0 <= off < cycle);
    let elapsed: i128 = now - base_time as i128;
    let phase: i128 = match elapsed.checked_rem_euclid(cycle) {
        Some(p) => p,
        None => return None,
    };
    let index: i128 = match elapsed.checked_div_euclid(cycle) {
        Some(q) => q,
        None => return None,
    };
    assert(0 <= phase < cycle);
    proof {
        assert(-0x1_0000_0000_0000_0000 < index < 0x1_0000_0000_0000_0000) by (nonlinear_arith)
            requires
                index == elapsed / cycle,
                cycle >= 1,
                -0x1_0000_0000_0000_0000 < elapsed < 0x1_0000_0000_0000_0000,
        {
        }
    }
    let (start, until, into, next_index): (i128, i128, i128, i128) = if off <= phase && phase
        < off + dur {
        (now - phase + off, 0, phase - off, index)
    } else {
        let delta: i128 = off - phase;
        if delta <= 0 {
            (now + delta + cycle, delta + cycle, -1, index + 1)
        } else {
            (now + delta, delta, -1, index)
        }
    };
    if start < i64::MIN as i128 || start > i64::MAX as i128 || until < i64::MIN as i128 || until
        > i64::MAX as i128 || next_index < i64::MIN as i128 || next_index > i64::MAX as i128 {
        return None;
    }
    Some((start as i64, until as i64, into as i64, duration, next_index as i64))
}


/// For a positive cycle and a positive duration, whatever the offset, every
/// instant finds the event either active (it started `seconds_into`
/// seconds ago, no later than now, and has not ended) or pending (it starts
/// in `seconds_until`, less than one cycle), never both.
pub proof fn lemma_active_or_pending(
    base_time: int,
    start_offset: int,
    duration: int,
    cycle_duration: int,
    now: int,
)
    requires
        cycle_duration > 0,
        duration > 0,
    ensures
        ({
            let t = timing_spec(base_time, start_offset, duration, cycle_duration, now);
            let active = t.2 >= 0 && t.1 == 0 && t.0 + t.2 == now && t.2 < duration;
            let pending = t.2 == -1 && 0 < t.1 < cycle_duration && t.0 == now + t.1;
            (active || pending) && !(active && pending)
        }),
{
    let elapsed = now - base_time;
    let phase = elapsed % cycle_duration;
    assert(0 <= phase < cycle_duration);
    assert(0 <= start_offset % cycle_duration < cycle_duration);
}

/// An event at least as long as its cycle, starting at a multiple of the
/// cycle, is active at every instant.
pub proof fn lemma_always_on(
    base_time: int,
    start_offset: int,
    duration: int,
    cycle_duration: int,
    now: int,
)
    requires
        cycle_duration > 0,
        duration >= cycle_duration,
        start_offset % cycle_duration == 0,
    ensures
        ({
            let t = timing_spec(base_time, start_offset, duration, cycle_duration, now);
            t.1 == 0 && 0 <= t.2 < cycle_duration
        }),
{
    let phase = (now - base_time) % cycle_duration;
    assert(0 <= phase < cycle_duration);
}

} // verus!
