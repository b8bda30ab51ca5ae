use vstd::prelude::*;

verus! {

/// The identity of an event: the name of its track and its own name.
pub type EventKey = (Seq<char>, Seq<char>);

/// Identifies one event of one track.
#[derive(Debug)]
pub struct TrackedEventId {
    pub track_name: String,
    pub event_name: String,
}

impl View for TrackedEventId {
    type V = EventKey;

    open spec fn view(&self) -> EventKey {
        (self.track_name@, self.event_name@)
    }
}

impl Clone for TrackedEventId {
    fn clone(&self) -> (r: Self)
        ensures
            r == *self,
    {
        TrackedEventId { track_name: self.track_name.clone(), event_name: self.event_name.clone() }
    }
}

impl TrackedEventId {
    pub fn new(track_name: &str, event_name: &str) -> (r: Self)
        ensures
            r@ == (track_name@, event_name@),
    {
        TrackedEventId { track_name: track_name.to_owned(), event_name: event_name.to_owned() }
    }

    /// Whether both ids name the same event.
    pub fn same_as(&self, other: &TrackedEventId) -> (r: bool)
        ensures
            r == (self@ == other@),
    {
        self.track_name == other.track_name && self.event_name == other.event_name
    }
}

/// Whether `id` occurs in `ids`.
pub open spec fn id_listed(ids: Seq<TrackedEventId>, id: EventKey) -> bool {
    exists|i: int| 0 <= i < ids.len() && (#[trigger] ids[i])@ == id
}

/// Whether `id` occurs in `ids`; see `id_listed`.
pub fn contains_id(ids: &Vec<TrackedEventId>, id: &TrackedEventId) -> (r: bool)
    ensures
        r == id_listed(ids@, id@),
{
    let mut i: usize = 0;
    while i < ids.len()
        invariant
            i <= ids.len(),
            forall|j: int| 0 <= j < i ==> (#[trigger] ids@[j])@ != id@,
        decreases ids.len() - i,
    {
        if ids[i].same_as(id) {
            return true;
        }
        i = i + 1;
    }
    false
}

/// A display colour. Each channel holds the bit pattern of an IEEE-754
/// single-precision value in `[0, 1]`; the library only carries colours
/// from the catalog to the notifications.
#[derive(Debug, Clone, Copy, PartialEq, Eq, Structural)]
pub struct EventColor {
    pub r: u32,
    pub g: u32,
    pub b: u32,
    pub a: u32,
}

/// A light blue: (0.2, 0.6, 0.8, 1.0).
pub open spec fn default_event_color() -> EventColor {
    EventColor { r: 0x3e4ccccd, g: 0x3f19999a, b: 0x3f4ccccd, a: 0x3f800000 }
}

impl Default for EventColor {
    fn default() -> (r: Self)
        ensures
            r == default_event_color(),
    {
        EventColor { r: 0x3e4ccccd, g: 0x3f19999a, b: 0x3f4ccccd, a: 0x3f800000 }
    }
}

impl EventColor {
    pub fn to_array(&self) -> (r: [u32; 4])
        ensures
            r@ == seq![self.r, self.g, self.b, self.a],
    {
        let r = [self.r, self.g, self.b, self.a];
        assert(r@ =~= seq![self.r, self.g, self.b, self.a]);
        r
    }

    pub fn from_array(arr: [u32; 4]) -> (r: Self)
        ensures
            seq![r.r, r.g, r.b, r.a] == arr@,
    {
        let r = EventColor { r: arr[0], g: arr[1], b: arr[2], a: arr[3] };
        assert(seq![r.r, r.g, r.b, r.a] =~= arr@);
        r
    }
}

/// How a track's clock runs: on real time or on the game's day cycle.
#[derive(Debug, Clone, Copy, PartialEq, Eq, Structural)]
pub enum TimelineType {
    RealTime,
    GameTime,
}

/// A recurring window within a track's cycle.
#[derive(Debug)]
pub struct TimelineEvent {
    pub name: String,
    /// Seconds into the cycle at which the event begins.
    pub start_offset: i64,
    /// Length of the event in seconds.
    pub duration: i64,
    /// Length of the cycle in seconds; must be positive to be usable.
    pub cycle_duration: i64,
    pub color: EventColor,
    /// Free text handed to the user (a location code); no timing meaning.
    pub copy_text: String,
    pub enabled: bool,
}

/// A named lane of events sharing one anchor time.
#[derive(Debug)]
pub struct EventTrack {
    pub name: String,
    pub timeline_type: TimelineType,
    pub events: Vec<TimelineEvent>,
    /// The instant (seconds since the epoch) of cycle position zero.
    pub base_time: i64,
    pub visible: bool,
    /// Height of the lane in hundredths of a pixel.
    pub height: u32,
    pub category: String,
}

impl Clone for TimelineEvent {
    fn clone(&self) -> (r: Self)
        ensures
            r == *self,
    {
        TimelineEvent {
            name: self.name.clone(),
            start_offset: self.start_offset,
            duration: self.duration,
            cycle_duration: self.cycle_duration,
            color: self.color,
            copy_text: self.copy_text.clone(),
            enabled: self.enabled,
        }
    }
}

/// Whether two tracks hold the same values.
pub open spec fn same_track(a: EventTrack, b: EventTrack) -> bool {
    &&& a.name == b.name
    &&& a.timeline_type == b.timeline_type
    &&& a.events@ == b.events@
    &&& a.base_time == b.base_time
    &&& a.visible == b.visible
    &&& a.height == b.height
    &&& a.category == b.category
}

impl Clone for EventTrack {
    fn clone(&self) -> (r: Self)
        ensures
            same_track(r, *self),
    {
        let events = self.events.clone();
        proof {
            assert forall|i: int| 0 <= i < events@.len() implies events@[i] == self.events@[i] by {
                assert(cloned::<TimelineEvent>(self.events[i], events[i]));
            }
            assert(events@ =~= self.events@);
        }
        EventTrack {
            name: self.name.clone(),
            timeline_type: self.timeline_type,
            events,
            base_time: self.base_time,
            visible: self.visible,
            height: self.height,
            category: self.category.clone(),
        }
    }
}

impl Default for TimelineEvent {
    fn default() -> (r: Self)
        ensures
            r.name@ == "New Event"@,
            r.start_offset == 0,
            r.duration == 300,
            r.cycle_duration == 7200,
            r.color == default_event_color(),
            r.copy_text@.len() == 0,
            r.enabled,
    {
        TimelineEvent {
            name: "New Event".to_owned(),
            start_offset: 0,
            duration: 300,
            cycle_duration: 7200,
            color: EventColor::default(),
            copy_text: String::new(),
            enabled: true,
        }
    }
}

impl Default for EventTrack {
    fn default() -> (r: Self)
        ensures
            r.name@ == "New Track"@,
            r.timeline_type == TimelineType::GameTime,
            r.events@.len() == 0,
            r.base_time == 0,
            r.visible,
            r.height == 4000,
            r.category@.len() == 0,
    {
        EventTrack {
            name: "New Track".to_owned(),
            timeline_type: TimelineType::GameTime,
            events: Vec::new(),
            base_time: 0,
            visible: true,
            height: 4000,
            category: String::new(),
        }
    }
}

} // verus!
