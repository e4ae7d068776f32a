//! Events as they are stored, exchanged between nodes and shown to subscribers.

use vstd::prelude::*;

use crate::ids::{id_bytes, big_endian, parse_id};

verus! {

/// Hybrid logical clock reading.
#[derive(Clone, Copy, Debug, PartialEq, Eq, Structural)]
pub struct Hlc {
    pub wall: u64,
    pub logical: u32,
}

/// An event as one node shows it to another: with its place in a shard.
#[derive(Debug)]
pub struct Event {
    pub stream_id: String,
    pub version: u64,
    pub event_id: Vec<u8>,
    pub event_type: String,
    pub data: Vec<u8>,
    pub metadata: Vec<u8>,
    pub hlc: Option<Hlc>,
    pub position: u64,
    pub shard_id: u64,
}

/// Contents of an [`Event`].
#[verifier::ext_equal]
pub struct EventView {
    pub stream_id: Seq<char>,
    pub version: u64,
    pub event_id: Seq<u8>,
    pub event_type: Seq<char>,
    pub data: Seq<u8>,
    pub metadata: Seq<u8>,
    pub hlc: Option<Hlc>,
    pub position: u64,
    pub shard_id: u64,
}

impl View for Event {
    type V = EventView;

    open spec fn view(&self) -> EventView {
        EventView {
            stream_id: self.stream_id@,
            version: self.version,
            event_id: self.event_id@,
            event_type: self.event_type@,
            data: self.data@,
            metadata: self.metadata@,
            hlc: self.hlc,
            position: self.position,
            shard_id: self.shard_id,
        }
    }
}

/// Contents of a list of events.
pub open spec fn event_views(events: Seq<Event>) -> Seq<EventView> {
    events.map_values(|e: Event| e@)
}

/// A copy of the bytes.
pub fn copy_bytes(v: &Vec<u8>) -> (r: Vec<u8>)
    ensures
        r@ == v@,
{
    let r = v.clone();
    assert(r@ =~= v@);
    r
}

impl Clone for Event {
    fn clone(&self) -> (r: Self)
        ensures
            r@ == self@,
    {
        Event {
            stream_id: self.stream_id.clone(),
            version: self.version,
            event_id: copy_bytes(&self.event_id),
            event_type: self.event_type.clone(),
            data: copy_bytes(&self.data),
            metadata: copy_bytes(&self.metadata),
            hlc: self.hlc,
            position: self.position,
            shard_id: self.shard_id,
        }
    }
}

/// An event as a shard's storage keeps it.
#[derive(Debug)]
pub struct StoredEvent {
    pub stream_id: String,
    pub version: u64,
    pub event_id: u128,
    pub event_type: String,
    pub data: Vec<u8>,
    pub metadata: Vec<u8>,
    pub hlc: Hlc,
    pub position: u64,
}

/// `e` is what a node shows of the stored event `s` of shard `shard_id`.
pub open spec fn shows(e: EventView, s: StoredEvent, shard_id: u64) -> bool {
    &&& e.stream_id == s.stream_id@
    &&& e.version == s.version
    &&& e.event_id.len() == 16
    &&& big_endian(e.event_id) == s.event_id
    &&& e.event_type == s.event_type@
    &&& e.data == s.data@
    &&& e.metadata == s.metadata@
    &&& e.hlc == Some(s.hlc)
    &&& e.position == s.position
    &&& e.shard_id == shard_id
}

/// Shows a stored event with its shard.
pub fn show(s: StoredEvent, shard_id: u64) -> (e: Event)
    ensures
        shows(e@, s, shard_id),
{
    Event {
        stream_id: s.stream_id,
        version: s.version,
        event_id: id_bytes(s.event_id),
        event_type: s.event_type,
        data: s.data,
        metadata: s.metadata,
        hlc: Some(s.hlc),
        position: s.position,
        shard_id,
    }
}

/// Shows a list of stored events of one shard, in the same order.
pub fn show_all(stored: Vec<StoredEvent>, shard_id: u64) -> (events: Vec<Event>)
    ensures
        events@.len() == stored@.len(),
        forall|i: int|
            0 <= i < stored@.len() ==> #[trigger] shows(events@[i]@, stored@[i], shard_id),
{
    let mut events: Vec<Event> = Vec::new();
    for s in it: stored
        invariant
            it.seq() == stored@,
            events@.len() == it.index(),
            forall|i: int|
                0 <= i < it.index() ==> #[trigger] shows(events@[i]@, stored@[i], shard_id),
    {
        events.push(show(s, shard_id));
    }
    events
}

/// An event as a subscriber sees it: without shard and position.
#[derive(Debug)]
pub struct SubscriptionEvent {
    pub stream_id: String,
    pub version: u64,
    pub event_id: Vec<u8>,
    pub event_type: String,
    pub data: Vec<u8>,
    pub metadata: Vec<u8>,
    pub hlc: Option<Hlc>,
}

/// `p` is what subscribers see of `e`.
pub open spec fn projects(p: SubscriptionEvent, e: Event) -> bool {
    &&& p.stream_id == e.stream_id
    &&& p.version == e.version
    &&& p.event_id == e.event_id
    &&& p.event_type == e.event_type
    &&& p.data == e.data
    &&& p.metadata == e.metadata
    &&& p.hlc == e.hlc
}

/// Drops shard and position, which are internal to the cluster.
pub fn public_subscription_event(event: Event) -> (p: SubscriptionEvent)
    ensures
        projects(p, event),
{
    SubscriptionEvent {
        stream_id: event.stream_id,
        version: event.version,
        event_id: event.event_id,
        event_type: event.event_type,
        data: event.data,
        metadata: event.metadata,
        hlc: event.hlc,
    }
}


/// A stored event is shown with all that was stored of it, its id as the sixteen bytes
/// that are read back to the same id, and with the shard it was read from.
pub proof fn law_shown_event_is_the_stored_one(s: StoredEvent, shard_id: u64, e: Event)
    requires
        call_ensures(show, (s, shard_id), e),
    ensures
        e.stream_id@ == s.stream_id@,
        e.version == s.version,
        e.event_type@ == s.event_type@,
        e.data@ == s.data@,
        e.metadata@ == s.metadata@,
        e.hlc == Some(s.hlc),
        e.position == s.position,
        e.shard_id == shard_id,
        forall|id: Option<u128>|
            call_ensures(parse_id, (&e.event_id,), id) ==> id == Some(s.event_id),
{
}

/// A subscriber is shown the event as it is, only its place in a shard left out.
pub proof fn law_subscriber_sees_the_event(event: Event, p: SubscriptionEvent)
    requires
        call_ensures(public_subscription_event, (event,), p),
    ensures
        p.stream_id@ == event.stream_id@,
        p.version == event.version,
        p.event_id@ == event.event_id@,
        p.event_type@ == event.event_type@,
        p.data@ == event.data@,
        p.metadata@ == event.metadata@,
        p.hlc == event.hlc,
{
}

} // verus!
