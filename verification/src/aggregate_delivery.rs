//! Delivering the events of an aggregate type to the consumers of a group, and taking
//! back what they say of them.

use vstd::prelude::*;

use crate::aggregate_follow::{
    AggregateEvent, StoredAggregateEvent, shows_event, stored_event_to_proto,
};
use crate::aggregate_groups::AggregateGroupDefinition;
use crate::aggregate_tokens::{
    AggregateTypeId, DELIVERY_TOKEN_VERSION, DeliveryFields, DeliveryToken, Reading, TypeView,
    answers, decode_delivery_token, delivery_read, delivery_reading, encode_delivery_token,
    written_delivery,
};
use crate::aggregate_types::{AggregateTypeDefinition, Placement};
use crate::backlog::capped_sum;
use crate::event::copy_bytes;
use crate::ids::{big_endian, uuid_random};
use crate::maps::IdMap;
use crate::persistent_service::{SettlementAction, SettlementStatus};
use crate::rpc_support::{WriteError, client_write_to_status, write_failure};
use crate::status::{Code, Status, StatusView, says};
use crate::text::{decimal, decimal_text, join2};

verus! {

/// What is asked of a group's part in one partition.
#[derive(Debug)]
pub struct PartitionFetch {
    pub group_epoch: u64,
    pub start_position: u64,
    pub ack_timeout_ms: u64,
    pub now_ms: u64,
    pub max_events: u32,
    pub max_bytes: u64,
}

/// A group's part in one partition, as far as a fetch goes by it.
#[derive(Clone, Copy, Debug, PartialEq, Eq, Structural)]
pub struct PartitionState {
    pub epoch: u64,
    pub next_position: u64,
    /// How many events are with consumers.
    pub delivered: u64,
    /// How many events are to be delivered again.
    pub retrying: u64,
}

/// A part that is new, or begins anew.
pub open spec fn fresh_state(epoch: u64, start_position: u64) -> PartitionState {
    PartitionState { epoch, next_position: start_position, delivered: 0, retrying: 0 }
}

/// The reply to a caller that knows an older epoch of the group.
pub open spec fn stale_epoch(actual: u64) -> StatusView {
    says(Code::FailedPrecondition, "stale group epoch: actual="@ + decimal_text(actual as nat))
}

fn stale(actual: u64) -> (s: Status)
    ensures
        s@ == stale_epoch(actual),
{
    let n = decimal(actual);
    Status::new(Code::FailedPrecondition, join2("stale group epoch: actual=", n.as_str()))
}

/// The group's part in a partition, in the epoch of the caller: one of an older epoch
/// begins anew, and a caller of an older epoch is refused.
pub fn open_group_partition(found: Option<PartitionState>, input: &PartitionFetch) -> (r: Result<
    PartitionState,
    Status,
>)
    ensures
        match found {
            Some(state) if state.epoch > input.group_epoch => r matches Err(s) && s@ == stale_epoch(
                state.epoch,
            ),
            Some(state) if state.epoch == input.group_epoch => r == Ok::<PartitionState, Status>(
                state,
            ),
            _ => r == Ok::<PartitionState, Status>(
                fresh_state(input.group_epoch, input.start_position),
            ),
        },
{
    match found {
        Some(state) => {
            if state.epoch > input.group_epoch {
                return Err(stale(state.epoch));
            }
            if state.epoch == input.group_epoch {
                return Ok(state);
            }
        },
        None => {},
    }
    Ok(
        PartitionState {
            epoch: input.group_epoch,
            next_position: input.start_position,
            delivered: 0,
            retrying: 0,
        },
    )
}

/// A delivery of a group.
#[derive(Clone, Copy, Debug, PartialEq, Eq, Structural)]
pub struct GroupDelivery {
    pub delivery_id: u128,
    pub partition_position: u64,
    pub attempt: u32,
    pub deadline_ms: u64,
    pub replayed: bool,
}

/// What a partition gives to a fetch.
#[derive(Debug)]
pub struct PartitionOutput {
    pub deliveries: Vec<(GroupDelivery, StoredAggregateEvent)>,
    pub caught_up: bool,
    pub throttled: bool,
}

/// What a fetch from a partition does next.
#[derive(Debug)]
pub enum PartitionStep {
    Answer(PartitionOutput),
    /// Read so many events from a position on.
    Scan { from: u64, limit: u64 },
}

/// How many events are looked at to deliver so many.
pub open spec fn scan_limit(max_events: u32) -> u64 {
    let wanted = if max_events == 0 {
        16int
    } else {
        max_events * 16
    };
    if wanted < 32 {
        32
    } else if wanted > 4096 {
        4096
    } else {
        wanted as u64
    }
}

/// Decides what a fetch from a partition does: nothing if there is nothing to deliver
/// or the consumer has no credit, else it looks for events.
pub fn plan_partition_fetch(state: &PartitionState, head: u64, credit: u32, max_events: u32) -> (step:
    PartitionStep)
    ensures
        if state.delivered == 0 && state.retrying == 0 && state.next_position >= head {
            step matches PartitionStep::Answer(o) && o.deliveries@.len() == 0 && o.caught_up
                && !o.throttled
        } else if credit == 0 {
            step matches PartitionStep::Answer(o) && o.deliveries@.len() == 0 && o.caught_up == (
            state.next_position >= head) && o.throttled
        } else {
            step == (PartitionStep::Scan {
                from: state.next_position,
                limit: scan_limit(max_events),
            })
        },
{
    if state.delivered == 0 && state.retrying == 0 && state.next_position >= head {
        return PartitionStep::Answer(
            PartitionOutput { deliveries: Vec::new(), caught_up: true, throttled: false },
        );
    }
    if credit == 0 {
        return PartitionStep::Answer(
            PartitionOutput {
                deliveries: Vec::new(),
                caught_up: state.next_position >= head,
                throttled: true,
            },
        );
    }
    let most: u64 = if max_events == 0 {
        1
    } else {
        max_events as u64
    };
    let wanted: u64 = most * 16;
    let limit: u64 = if wanted < 32 {
        32
    } else if wanted > 4096 {
        4096
    } else {
        wanted
    };
    PartitionStep::Scan { from: state.next_position, limit }
}

/// An event that a consumer may be given.
#[derive(Debug)]
pub struct GroupCandidate {
    pub delivery_id: u128,
    pub partition_position: u64,
    pub aggregate_id: String,
    pub aggregate_version: u64,
    pub event_id: u128,
    pub payload_bytes: u64,
    pub replayed: bool,
}

/// The size of an event.
pub open spec fn event_size(e: StoredAggregateEvent) -> nat {
    e.data@.len() + e.metadata@.len()
}

/// The candidate stands for the event.
pub open spec fn is_group_candidate(c: GroupCandidate, e: StoredAggregateEvent) -> bool {
    &&& c.partition_position == e.partition_position
    &&& c.aggregate_id@ == e.aggregate_id@
    &&& c.aggregate_version == e.aggregate_version
    &&& c.event_id == e.event_id
    &&& c.payload_bytes == event_size(e) as u64
    &&& !c.replayed
}

/// The events by their positions; of two with the same, the later.
pub open spec fn by_position(events: Seq<StoredAggregateEvent>) -> Map<u64, StoredAggregateEvent>
    decreases events.len(),
{
    if events.len() == 0 {
        Map::empty()
    } else {
        by_position(events.drop_last()).insert(events.last().partition_position, events.last())
    }
}

fn size_of_event(e: &StoredAggregateEvent) -> (n: u64)
    ensures
        n == event_size(*e) as u64,
{
    let bytes: u128 = e.data.len() as u128 + e.metadata.len() as u128;
    bytes as u64
}

/// Makes candidates of events, in order, and keeps the events by their positions.  Each
/// candidate gets an identifier of its own, which is random: nothing is said of it.
pub fn group_candidates(events: Vec<StoredAggregateEvent>) -> (r: (
    Vec<GroupCandidate>,
    IdMap<StoredAggregateEvent>,
))
    ensures
        r.0@.len() == events@.len(),
        forall|i: int|
            0 <= i < events@.len() ==> is_group_candidate(#[trigger] r.0@[i], events@[i]),
        r.1.wf(),
        r.1@ == by_position(events@),
        forall|k: u64| #[trigger] r.1@.dom().contains(k) ==> r.1@[k].partition_position == k,
{
    let mut candidates: Vec<GroupCandidate> = Vec::new();
    let mut kept: IdMap<StoredAggregateEvent> = IdMap::new();
    proof {
        assert(events@.take(0) =~= Seq::<StoredAggregateEvent>::empty());
    }
    for e in it: events
        invariant
            it.seq() == events@,
            candidates@.len() == it.index(),
            forall|i: int|
                0 <= i < it.index() ==> is_group_candidate(
                    #[trigger] candidates@[i],
                    events@[i],
                ),
            kept.wf(),
            kept@ == by_position(events@.take(it.index() as int)),
            forall|k: u64| #[trigger]
                kept@.dom().contains(k) ==> kept@[k].partition_position == k,
    {
        let ghost n = it.index() as int;
        proof {
            assert(events@[n] == e);
            assert(events@.take(n + 1).drop_last() =~= events@.take(n));
            assert(events@.take(n + 1).last() == e);
        }
        candidates.push(
            GroupCandidate {
                delivery_id: uuid_random(),
                partition_position: e.partition_position,
                aggregate_id: e.aggregate_id.clone(),
                aggregate_version: e.aggregate_version,
                event_id: e.event_id,
                payload_bytes: size_of_event(&e),
                replayed: false,
            },
        );
        let at: u64 = e.partition_position;
        kept.insert(at, e);
    }
    proof {
        assert(events@.take(events@.len() as int) =~= events@);
    }
    (candidates, kept)
}

/// When what is claimed or renewed now has to be settled.
pub fn delivery_deadline(now_ms: u64, ack_timeout_ms: u64) -> (t: u64)
    ensures
        t == capped_sum(now_ms, ack_timeout_ms),
{
    now_ms.saturating_add(ack_timeout_ms)
}

/// What a shard is asked to give to a consumer of a group, in one partition.
#[derive(Debug)]
pub struct ClaimCommand {
    pub group_epoch: u64,
    pub start_position: u64,
    pub consumer_id: String,
    pub now_ms: u64,
    /// When the events have to be settled.
    pub deadline_ms: u64,
    pub max_claim: u32,
    pub max_bytes: u64,
    pub candidates: Vec<GroupCandidate>,
}

/// Claims events among the candidates for the consumer: as many, and as large, as the
/// fetch asks for.
pub fn claim_command(
    input: &PartitionFetch,
    consumer_id: String,
    candidates: Vec<GroupCandidate>,
) -> (c: ClaimCommand)
    ensures
        c.group_epoch == input.group_epoch,
        c.start_position == input.start_position,
        c.consumer_id == consumer_id,
        c.now_ms == input.now_ms,
        c.deadline_ms == capped_sum(input.now_ms, input.ack_timeout_ms),
        c.max_claim == input.max_events,
        c.max_bytes == input.max_bytes,
        c.candidates == candidates,
{
    ClaimCommand {
        group_epoch: input.group_epoch,
        start_position: input.start_position,
        consumer_id,
        now_ms: input.now_ms,
        deadline_ms: delivery_deadline(input.now_ms, input.ack_timeout_ms),
        max_claim: input.max_events,
        max_bytes: input.max_bytes,
        candidates,
    }
}

/// What a shard answers to a command about a group.
#[derive(Debug)]
pub enum GroupAnswer<T> {
    Done(T),
    StaleEpoch { current_epoch: u64 },
    Fenced { current_generation: u64 },
    Invalid { reason: String },
    /// Something else, as it is printed.
    Other(String),
}

/// The reply where a partition has moved on.
pub open spec fn fenced_reply(generation: u64) -> StatusView {
    says(
        Code::Unavailable,
        "partition generation advanced to "@ + decimal_text(generation as nat),
    )
}

/// Says that a partition has moved on.
pub fn fenced_status(generation: u64) -> (s: Status)
    ensures
        s@ == fenced_reply(generation),
{
    let n = decimal(generation);
    Status::new(Code::Unavailable, join2("partition generation advanced to ", n.as_str()))
}

/// Takes what a shard answers to a claim.
pub fn claim_answer<T>(answer: Result<GroupAnswer<T>, WriteError>) -> (r: Result<T, Status>)
    ensures
        match answer {
            Ok(GroupAnswer::Done(t)) => r == Ok::<T, Status>(t),
            Ok(GroupAnswer::StaleEpoch { current_epoch }) => r matches Err(s) && s@ == stale_epoch(
                current_epoch,
            ),
            Ok(GroupAnswer::Fenced { current_generation }) => r matches Err(s) && s@
                == fenced_reply(current_generation),
            Ok(GroupAnswer::Invalid { reason }) => r matches Err(s) && s@ == says(
                Code::InvalidArgument,
                reason@,
            ),
            Ok(GroupAnswer::Other(shown)) => r matches Err(s) && s@ == says(
                Code::Internal,
                "消费者组 claim 返回意外结果: "@ + shown@,
            ),
            Err(e) => r matches Err(s) && s@ == write_failure(e),
        },
{
    match answer {
        Ok(GroupAnswer::Done(t)) => Ok(t),
        Ok(GroupAnswer::StaleEpoch { current_epoch }) => Err(stale(current_epoch)),
        Ok(GroupAnswer::Fenced { current_generation }) => Err(fenced_status(current_generation)),
        Ok(GroupAnswer::Invalid { reason }) => Err(Status::new(Code::InvalidArgument, reason)),
        Ok(GroupAnswer::Other(shown)) => Err(
            Status::new(Code::Internal, join2("消费者组 claim 返回意外结果: ", shown.as_str())),
        ),
        Err(e) => Err(client_write_to_status(e)),
    }
}

/// The events that are left when the claimed ones are taken, or `None` if one of these is
/// not there.
pub open spec fn left_over(
    have: Map<u64, StoredAggregateEvent>,
    claimed: Seq<GroupDelivery>,
) -> Option<Map<u64, StoredAggregateEvent>>
    decreases claimed.len(),
{
    if claimed.len() == 0 {
        Some(have)
    } else {
        match left_over(have, claimed.drop_last()) {
            None => None,
            Some(rest) => if rest.dom().contains(claimed.last().partition_position) {
                Some(rest.remove(claimed.last().partition_position))
            } else {
                None
            },
        }
    }
}

/// How far the look at the partition went: to behind the last event that was not
/// claimed; if all were, behind the last that was; if there were none, to where it
/// began.
pub open spec fn is_scanned_to(
    end: u64,
    left: Map<u64, StoredAggregateEvent>,
    claimed: Seq<GroupDelivery>,
    next_position: u64,
) -> bool {
    if exists|k: u64| left.dom().contains(k) {
        exists|k: u64|
            #![trigger left.dom().contains(k)]
            left.dom().contains(k) && end == capped_sum(k, 1) && forall|q: u64| #[trigger]
                left.dom().contains(q) ==> q <= k
    } else if claimed.len() > 0 {
        end == capped_sum(claimed.last().partition_position, 1)
    } else {
        end == next_position
    }
}

proof fn lemma_left_over_stays(
    have: Map<u64, StoredAggregateEvent>,
    claimed: Seq<GroupDelivery>,
    i: int,
)
    requires
        0 <= i <= claimed.len(),
        left_over(have, claimed.take(i)) is None,
    ensures
        left_over(have, claimed) is None,
    decreases claimed.len(),
{
    if i < claimed.len() {
        assert(claimed.drop_last().take(i) =~= claimed.take(i));
        lemma_left_over_stays(have, claimed.drop_last(), i);
    } else {
        assert(claimed.take(i) =~= claimed);
    }
}

/// What a partition gives when these events were claimed and those are left.
pub open spec fn is_output(
    o: PartitionOutput,
    events: Map<u64, StoredAggregateEvent>,
    left: Map<u64, StoredAggregateEvent>,
    claimed: Seq<GroupDelivery>,
    next_position: u64,
    head: u64,
) -> bool {
    &&& !o.throttled
    &&& o.deliveries@.len() == claimed.len()
    &&& forall|i: int|
        0 <= i < claimed.len() ==> (#[trigger] o.deliveries@[i]).0 == claimed[i]
            && o.deliveries@[i].1 == events[claimed[i].partition_position]
    &&& exists|end: u64| #[trigger]
        is_scanned_to(end, left, claimed, next_position) && o.caught_up == (end >= head)
}

/// What a partition gives to a fetch once events were claimed: each claimed event, and
/// whether the look at the partition reached its end.
pub fn claimed_output(
    events: IdMap<StoredAggregateEvent>,
    claimed: Vec<GroupDelivery>,
    next_position: u64,
    head: u64,
) -> (r: Result<PartitionOutput, Status>)
    requires
        events.wf(),
        forall|k: u64| #[trigger]
            events@.dom().contains(k) ==> events@[k].partition_position == k,
    ensures
        match left_over(events@, claimed@) {
            None => r matches Err(s) && s@ == says(
                Code::Internal,
                "claim 返回了扫描窗口外的事件"@,
            ),
            Some(left) => r matches Ok(o) && is_output(
                o,
                events@,
                left,
                claimed@,
                next_position,
                head,
            ),
        },
{
    let ghost have = events@;
    let mut left_events = events;
    let mut deliveries: Vec<(GroupDelivery, StoredAggregateEvent)> = Vec::new();
    let mut last: Option<u64> = None;
    let mut i: usize = 0;
    proof {
        assert(claimed@.take(0) =~= Seq::<GroupDelivery>::empty());
    }
    while i < claimed.len()
        invariant
            i <= claimed@.len(),
            have == events@,
            left_events.wf(),
            forall|k: u64| #[trigger] have.dom().contains(k) ==> have[k].partition_position == k,
            left_over(have, claimed@.take(i as int)) == Some(left_events@),
            left_events@.dom().subset_of(have.dom()),
            forall|k: u64| #[trigger]
                left_events@.dom().contains(k) ==> left_events@[k] == have[k],
            deliveries@.len() == i,
            forall|k: int|
                0 <= k < i ==> (#[trigger] deliveries@[k]).0 == claimed@[k] && deliveries@[k].1
                    == have[claimed@[k].partition_position],
            last == (if i == 0 {
                None
            } else {
                Some(claimed@[i - 1].partition_position)
            }),
        decreases claimed@.len() - i,
    {
        let d = claimed[i];
        proof {
            assert(claimed@.take(i + 1).drop_last() =~= claimed@.take(i as int));
            assert(claimed@.take(i + 1).last() == d);
        }
        match left_events.remove(d.partition_position) {
            Some(e) => {
                last = Some(e.partition_position);
                deliveries.push((d, e));
            },
            None => {
                proof {
                    lemma_left_over_stays(have, claimed@, i + 1);
                }
                return Err(Status::of(Code::Internal, "claim 返回了扫描窗口外的事件"));
            },
        }
        i += 1;
    }
    proof {
        assert(claimed@.take(claimed@.len() as int) =~= claimed@);
    }
    let ghost left = left_events@;
    let end: u64 = match left_events.last_key() {
        Some(k) => {
            assert(left.dom().contains(k));
            k.saturating_add(1)
        },
        None => match last {
            Some(k) => k.saturating_add(1),
            None => next_position,
        },
    };
    let o = PartitionOutput { deliveries, caught_up: end >= head, throttled: false };
    proof {
        assert(is_scanned_to(end, left, claimed@, next_position));
        assert(is_output(o, events@, left, claimed@, next_position, head));
    }
    Ok(o)
}

/// What a fetch may take.
#[derive(Clone, Copy, Debug, PartialEq, Eq, Structural)]
pub struct GroupFetchLimits {
    pub max_events: u32,
    pub max_bytes: u64,
    pub wait_ms: u64,
}

/// The smaller of two numbers.
pub open spec fn at_most(n: u64, most: u64) -> u64 {
    if n < most {
        n
    } else {
        most
    }
}

/// Reads the limits of a fetch: a number of events or bytes that is 0 has its default,
/// and nothing goes beyond the largest limits.
pub fn group_fetch_limits(
    asked: &GroupFetchLimits,
    defaults: &GroupFetchLimits,
    largest: &GroupFetchLimits,
) -> (l: GroupFetchLimits)
    ensures
        l.max_events == (if asked.max_events == 0 {
            defaults.max_events
        } else {
            at_most(asked.max_events as u64, largest.max_events as u64) as u32
        }),
        l.max_bytes == (if asked.max_bytes == 0 {
            defaults.max_bytes
        } else {
            at_most(asked.max_bytes, largest.max_bytes)
        }),
        l.wait_ms == at_most(asked.wait_ms, largest.wait_ms),
{
    GroupFetchLimits {
        max_events: if asked.max_events == 0 {
            defaults.max_events
        } else if asked.max_events < largest.max_events {
            asked.max_events
        } else {
            largest.max_events
        },
        max_bytes: if asked.max_bytes == 0 {
            defaults.max_bytes
        } else if asked.max_bytes < largest.max_bytes {
            asked.max_bytes
        } else {
            largest.max_bytes
        },
        wait_ms: if asked.wait_ms < largest.wait_ms {
            asked.wait_ms
        } else {
            largest.wait_ms
        },
    }
}

/// A delivery, as it is shown to its consumer.
#[derive(Debug)]
pub struct AggregateGroupDelivery {
    pub delivery_id: Vec<u8>,
    pub event: AggregateEvent,
    pub attempt: u32,
    pub deadline_ms: u64,
    pub replayed: bool,
}

/// The name of a delivery of a group.
pub open spec fn delivery_name(
    group: AggregateGroupDefinition,
    partition: u16,
    delivery_id: u128,
) -> DeliveryFields {
    DeliveryFields {
        version: DELIVERY_TOKEN_VERSION,
        id: group.aggregate_type@,
        group: group.name@,
        partition,
        epoch: group.epoch,
        delivery: delivery_id,
    }
}

/// `d` shows the delivery.
pub open spec fn shows_delivery(
    d: AggregateGroupDelivery,
    group: AggregateGroupDefinition,
    partition: u16,
    from: (GroupDelivery, StoredAggregateEvent),
) -> bool {
    &&& d.delivery_id@ == written_delivery(delivery_name(group, partition, from.0.delivery_id))
    &&& shows_event(d.event, from.1)
    &&& d.attempt == from.0.attempt
    &&& d.deadline_ms == from.0.deadline_ms
    &&& d.replayed == from.0.replayed
}

/// A fetch over the partitions of an aggregate type.
#[derive(Debug)]
pub struct GroupFetch {
    pub max_events: u32,
    pub max_bytes: u64,
    pub deliveries: Vec<AggregateGroupDelivery>,
    pub used_bytes: u64,
    pub caught_up: bool,
    pub throttled: bool,
}

/// The bytes after further events.
pub open spec fn bytes_after(
    used: u64,
    output: Seq<(GroupDelivery, StoredAggregateEvent)>,
) -> u64
    decreases output.len(),
{
    if output.len() == 0 {
        used
    } else {
        capped_sum(bytes_after(used, output.drop_last()), event_size(output.last().1) as u64)
    }
}

impl GroupFetch {
    /// Nothing fetched yet.
    pub fn new(limits: &GroupFetchLimits) -> (f: GroupFetch)
        ensures
            f.max_events == limits.max_events,
            f.max_bytes == limits.max_bytes,
            f.deliveries@.len() == 0,
            f.used_bytes == 0,
            f.caught_up,
            !f.throttled,
    {
        GroupFetch {
            max_events: limits.max_events,
            max_bytes: limits.max_bytes,
            deliveries: Vec::new(),
            used_bytes: 0,
            caught_up: true,
            throttled: false,
        }
    }

    /// How many events and bytes the next partition may give; `None` if the fetch is
    /// full, and then it has not caught up.
    pub fn room(&mut self) -> (r: Option<(u32, u64)>)
        ensures
            final(self).max_events == old(self).max_events,
            final(self).max_bytes == old(self).max_bytes,
            final(self).deliveries == old(self).deliveries,
            final(self).used_bytes == old(self).used_bytes,
            final(self).throttled == old(self).throttled,
            if old(self).deliveries@.len() >= old(self).max_events || old(self).used_bytes >= old(self).max_bytes {
                r is None && !final(self).caught_up
            } else {
                r == Some(
                    (
                        (old(self).max_events - old(self).deliveries@.len()) as u32,
                        (old(self).max_bytes - old(self).used_bytes) as u64,
                    ),
                ) && final(self).caught_up == old(self).caught_up
            },
    {
        if self.deliveries.len() >= self.max_events as usize || self.used_bytes >= self.max_bytes {
            self.caught_up = false;
            return None;
        }
        Some((self.max_events - self.deliveries.len() as u32, self.max_bytes - self.used_bytes))
    }

    /// Takes what a partition gave.
    pub fn absorb(
        &mut self,
        group: &AggregateGroupDefinition,
        partition: u16,
        output: PartitionOutput,
    ) -> (r: Result<(), Status>)
        ensures
            r is Ok,
            final(self).max_events == old(self).max_events,
            final(self).max_bytes == old(self).max_bytes,
            final(self).caught_up == (old(self).caught_up && output.caught_up),
            final(self).throttled == (old(self).throttled || output.throttled),
            final(self).used_bytes == bytes_after(old(self).used_bytes, output.deliveries@),
            final(self).deliveries@.len() == old(self).deliveries@.len()
                + output.deliveries@.len(),
            forall|i: int|
                0 <= i < old(self).deliveries@.len() ==> #[trigger] final(self).deliveries@[i]
                    == old(self).deliveries@[i],
            forall|i: int|
                0 <= i < output.deliveries@.len() ==> shows_delivery(
                    #[trigger] final(self).deliveries@[old(self).deliveries@.len() + i],
                    *group,
                    partition,
                    output.deliveries@[i],
                ),
    {
        self.caught_up = self.caught_up && output.caught_up;
        self.throttled = self.throttled || output.throttled;
        let ghost from = output.deliveries@;
        let ghost had = old(self).deliveries@;
        proof {
            assert(from.take(0) =~= Seq::<(GroupDelivery, StoredAggregateEvent)>::empty());
        }
        for pair in it: output.deliveries
            invariant
                it.seq() == from,
                had == old(self).deliveries@,
                self.max_events == old(self).max_events,
                self.max_bytes == old(self).max_bytes,
                self.caught_up == (old(self).caught_up && output.caught_up),
                self.throttled == (old(self).throttled || output.throttled),
                self.used_bytes == bytes_after(
                    old(self).used_bytes,
                    from.take(it.index() as int),
                ),
                self.deliveries@.len() == had.len() + it.index(),
                forall|i: int| 0 <= i < had.len() ==> #[trigger] self.deliveries@[i] == had[i],
                forall|i: int|
                    0 <= i < it.index() ==> shows_delivery(
                        #[trigger] self.deliveries@[had.len() + i],
                        *group,
                        partition,
                        from[i],
                    ),
        {
            let ghost n = it.index() as int;
            let ghost p = pair;
            proof {
                assert(from[n] == pair);
                assert(from.take(n + 1).drop_last() =~= from.take(n));
                assert(from.take(n + 1).last() == pair);
            }
            let (delivery, event) = pair;
            self.used_bytes = self.used_bytes.saturating_add(size_of_event(&event));
            let delivery_id = match encode_delivery_token(
                &group.aggregate_type,
                group.name.as_str(),
                group.epoch,
                partition,
                delivery.delivery_id,
            ) {
                Ok(bytes) => bytes,
                Err(s) => return Err(s),
            };
            let ghost was = self.deliveries@;
            let d = AggregateGroupDelivery {
                delivery_id,
                event: stored_event_to_proto(event),
                attempt: delivery.attempt,
                deadline_ms: delivery.deadline_ms,
                replayed: delivery.replayed,
            };
            self.deliveries.push(d);
            proof {
                assert(shows_delivery(d, *group, partition, p));
                assert forall|i: int| 0 <= i < n + 1 implies shows_delivery(
                    #[trigger] self.deliveries@[had.len() + i],
                    *group,
                    partition,
                    from[i],
                ) by {
                    if i < n {
                        assert(self.deliveries@[had.len() + i] == was[had.len() + i]);
                    }
                }
            }
        }
        proof {
            assert(from.take(from.len() as int) =~= from);
        }
        Ok(())
    }

    /// True if the fetch answers now: it has something to deliver, has to hold back, has
    /// caught up, or does not wait any longer.
    pub fn is_done(&self, wait_ms: u64, waited_long_enough: bool) -> (r: bool)
        ensures
            r == (self.deliveries@.len() > 0 || self.throttled || self.caught_up || wait_ms == 0
                || waited_long_enough),
    {
        self.deliveries.len() > 0 || self.throttled || self.caught_up || wait_ms == 0
            || waited_long_enough
    }
}

/// What came of a settlement or a renewal.
#[derive(Debug)]
pub struct GroupSettlementResult {
    pub delivery_id: Vec<u8>,
    pub status: SettlementStatus,
    pub deadline_ms: u64,
}

/// A delivery that a consumer names.
#[derive(Debug)]
pub struct NamedDelivery {
    pub delivery_id: Vec<u8>,
    /// What is to be done with it is something that can be.
    pub acceptable: bool,
}

/// A delivery that is named in the current epoch.
#[derive(Clone, Copy, Debug, PartialEq, Eq, Structural)]
pub struct LiveDelivery {
    /// Its place in the request.
    pub index: usize,
    pub partition_id: u16,
    pub delivery_id: u128,
}

/// What the name of a delivery comes to.
pub open spec fn name_reading(bytes: Seq<u8>, id: TypeView, group: Seq<char>) -> Reading<
    DeliveryFields,
> {
    delivery_reading(delivery_read(bytes), bytes.len(), id, group)
}

/// The request goes no further than this delivery: its name cannot be read or accepted,
/// or what is to be done with it cannot be.
pub open spec fn stops_at(
    d: NamedDelivery,
    id: TypeView,
    group: Seq<char>,
    epoch: u64,
) -> bool {
    match name_reading(d.delivery_id@, id, group) {
        Reading::Reads(t) => t.epoch == epoch && !d.acceptable,
        _ => true,
    }
}

/// The reply to a request that goes no further than this delivery.
pub open spec fn stop_reply(
    s: Status,
    d: NamedDelivery,
    id: TypeView,
    group: Seq<char>,
) -> bool {
    match name_reading(d.delivery_id@, id, group) {
        Reading::Reads(_) => s@ == says(Code::InvalidArgument, "settlement action 非法"@),
        reading => answers(Err::<DeliveryToken, Status>(s), reading, "delivery token"@),
    }
}

/// The deliveries of the current epoch among those named, in order.
pub open spec fn live_of(
    named: Seq<NamedDelivery>,
    id: TypeView,
    group: Seq<char>,
    epoch: u64,
) -> Seq<LiveDelivery>
    decreases named.len(),
{
    if named.len() == 0 {
        Seq::empty()
    } else {
        let rest = live_of(named.drop_last(), id, group, epoch);
        match name_reading(named.last().delivery_id@, id, group) {
            Reading::Reads(t) if t.epoch == epoch => rest.push(
                LiveDelivery {
                    index: (named.len() - 1) as usize,
                    partition_id: t.partition,
                    delivery_id: t.delivery,
                },
            ),
            _ => rest,
        }
    }
}

/// A request about deliveries: what is known of each already, and those that their
/// partitions have to be asked about.
#[derive(Debug)]
pub struct DeliveryRequest {
    pub results: Vec<Option<GroupSettlementResult>>,
    pub live: Vec<LiveDelivery>,
}

/// The result says that the delivery is of an older epoch.
pub open spec fn is_stale_result(r: Option<GroupSettlementResult>, d: NamedDelivery) -> bool {
    r matches Some(x) && x.delivery_id@ == d.delivery_id@ && x.status
        == SettlementStatus::StaleLease && x.deadline_ms == 0
}

/// Sorts the deliveries of a request: those of another epoch are stale, the others have
/// to be asked about.
pub fn sort_deliveries(
    named: &Vec<NamedDelivery>,
    aggregate_type: &AggregateTypeId,
    group_name: &str,
    epoch: u64,
) -> (r: Result<DeliveryRequest, Status>)
    ensures
        match r {
            Ok(q) => {
                &&& forall|i: int|
                    0 <= i < named@.len() ==> !stops_at(
                        #[trigger] named@[i],
                        aggregate_type@,
                        group_name@,
                        epoch,
                    )
                &&& q.live@ == live_of(named@, aggregate_type@, group_name@, epoch)
                &&& q.results@.len() == named@.len()
                &&& forall|i: int|
                    0 <= i < named@.len() ==> if (name_reading(
                        (#[trigger] named@[i]).delivery_id@,
                        aggregate_type@,
                        group_name@,
                    ) matches Reading::Reads(t) && t.epoch == epoch) {
                        q.results@[i] is None
                    } else {
                        is_stale_result(q.results@[i], named@[i])
                    }
            },
            Err(s) => exists|i: int|
                0 <= i < named@.len() && stops_at(
                    #[trigger] named@[i],
                    aggregate_type@,
                    group_name@,
                    epoch,
                ) && stop_reply(s, named@[i], aggregate_type@, group_name@) && forall|j: int|
                    0 <= j < i ==> !stops_at(
                        #[trigger] named@[j],
                        aggregate_type@,
                        group_name@,
                        epoch,
                    ),
        },
{
    let mut results: Vec<Option<GroupSettlementResult>> = Vec::new();
    let mut live: Vec<LiveDelivery> = Vec::new();
    let total: usize = named.len();
    let mut i: usize = 0;
    proof {
        assert(named@.take(0) =~= Seq::<NamedDelivery>::empty());
    }
    while i < named.len()
        invariant
            i <= named@.len(),
            named@.len() == total,
            results@.len() == i,
            live@ == live_of(named@.take(i as int), aggregate_type@, group_name@, epoch),
            forall|k: int|
                0 <= k < i ==> !stops_at(
                    #[trigger] named@[k],
                    aggregate_type@,
                    group_name@,
                    epoch,
                ),
            forall|k: int|
                0 <= k < i ==> if (name_reading(
                    (#[trigger] named@[k]).delivery_id@,
                    aggregate_type@,
                    group_name@,
                ) matches Reading::Reads(t) && t.epoch == epoch) {
                    results@[k] is None
                } else {
                    is_stale_result(results@[k], named@[k])
                },
        decreases named@.len() - i,
    {
        let d = &named[i];
        proof {
            assert(named@.take(i + 1).drop_last() =~= named@.take(i as int));
            assert(named@.take(i + 1).last() == *d);
        }
        let token = match decode_delivery_token(&d.delivery_id, aggregate_type, group_name) {
            Ok(t) => t,
            Err(s) => {
                assert(stops_at(named@[i as int], aggregate_type@, group_name@, epoch));
                return Err(s);
            },
        };
        if token.group_epoch != epoch {
            results.push(
                Some(
                    GroupSettlementResult {
                        delivery_id: copy_bytes(&d.delivery_id),
                        status: SettlementStatus::StaleLease,
                        deadline_ms: 0,
                    },
                ),
            );
        } else if !d.acceptable {
            assert(stops_at(named@[i as int], aggregate_type@, group_name@, epoch));
            return Err(Status::of(Code::InvalidArgument, "settlement action 非法"));
        } else {
            results.push(None);
            live.push(
                LiveDelivery {
                    index: i,
                    partition_id: token.partition_id,
                    delivery_id: token.delivery_id,
                },
            );
        }
        i += 1;
    }
    proof {
        assert(named@.take(named@.len() as int) =~= named@);
    }
    Ok(DeliveryRequest { results, live })
}

/// Every delivery of a request is either of another epoch, and then nobody is asked about
/// it, or stands exactly once among those that are asked about.
pub proof fn law_every_delivery_is_accounted_for(
    named: Seq<NamedDelivery>,
    id: TypeView,
    group: Seq<char>,
    epoch: u64,
    i: int,
)
    requires
        0 <= i < named.len() <= usize::MAX,
    ensures
        ({
            let live = live_of(named, id, group, epoch);
            if (name_reading(named[i].delivery_id@, id, group) matches Reading::Reads(t) && t.epoch
                == epoch) {
                exists|k: int|
                    0 <= k < live.len() && (#[trigger] live[k]).index == i && forall|m: int|
                        0 <= m < live.len() && m != k ==> (#[trigger] live[m]).index != i
            } else {
                forall|k: int| 0 <= k < live.len() ==> (#[trigger] live[k]).index != i
            }
        }),
    decreases named.len(),
{
    let rest = named.drop_last();
    lemma_live_below(rest, id, group, epoch);
    let live = live_of(named, id, group, epoch);
    let before = live_of(rest, id, group, epoch);
    if i == named.len() - 1 {
        if (name_reading(named[i].delivery_id@, id, group) matches Reading::Reads(t) && t.epoch
            == epoch) {
            let k = before.len() as int;
            assert(live[k].index == i);
            assert forall|m: int| 0 <= m < live.len() && m != k implies (#[trigger] live[m]).index
                != i by {
                assert(live[m] == before[m]);
            }
        }
    } else {
        assert(rest[i] == named[i]);
        law_every_delivery_is_accounted_for(rest, id, group, epoch, i);
        assert forall|m: int| 0 <= m < before.len() implies live[m] == #[trigger] before[m] by {}
        if (name_reading(named[i].delivery_id@, id, group) matches Reading::Reads(t) && t.epoch
            == epoch) {
            let k = choose|k: int|
                0 <= k < before.len() && (#[trigger] before[k]).index == i && forall|m: int|
                    0 <= m < before.len() && m != k ==> (#[trigger] before[m]).index != i;
            assert(live[k].index == i);
            assert forall|m: int| 0 <= m < live.len() && m != k implies (#[trigger] live[m]).index
                != i by {
                if m < before.len() {
                    assert(live[m] == before[m]);
                }
            }
        } else {
            assert forall|m: int| 0 <= m < live.len() implies (#[trigger] live[m]).index != i by {
                if m < before.len() {
                    assert(live[m] == before[m]);
                }
            }
        }
    }
}

pub proof fn lemma_live_below(named: Seq<NamedDelivery>, id: TypeView, group: Seq<char>, epoch: u64)
    requires
        named.len() <= usize::MAX,
    ensures
        forall|k: int|
            0 <= k < live_of(named, id, group, epoch).len() ==> (#[trigger] live_of(
                named,
                id,
                group,
                epoch,
            )[k]).index < named.len(),
    decreases named.len(),
{
    if named.len() > 0 {
        let rest = named.drop_last();
        lemma_live_below(rest, id, group, epoch);
        let all = live_of(named, id, group, epoch);
        let before = live_of(rest, id, group, epoch);
        assert forall|k: int| 0 <= k < all.len() implies (#[trigger] all[k]).index
            < named.len() by {
            if k < before.len() {
                assert(all[k] == before[k]);
            }
        }
    }
}

/// The deliveries in a partition, in order.
pub open spec fn live_in(live: Seq<LiveDelivery>, partition: u64) -> Seq<LiveDelivery> {
    live.filter(|d: LiveDelivery| d.partition_id == partition)
}

/// Groups deliveries by partition, partitions in ascending order.
pub fn by_partition(live: &Vec<LiveDelivery>) -> (groups: Vec<(u64, Vec<LiveDelivery>)>)
    ensures
        crate::order::lists(
            groups@.map_values(|g: (u64, Vec<LiveDelivery>)| g.0),
            live@.map_values(|d: LiveDelivery| d.partition_id as u64).to_set(),
        ),
        forall|i: int|
            0 <= i < groups@.len() ==> (#[trigger] groups@[i]).1@ == live_in(live@, groups@[i].0),
{
    let mut ids: Vec<u64> = Vec::new();
    let mut i: usize = 0;
    while i < live.len()
        invariant
            i <= live@.len(),
            ids@.len() == i,
            forall|k: int| 0 <= k < i ==> #[trigger] ids@[k] == live@[k].partition_id as u64,
        decreases live@.len() - i,
    {
        ids.push(live[i].partition_id as u64);
        i += 1;
    }
    assert(ids@ =~= live@.map_values(|d: LiveDelivery| d.partition_id as u64));
    let partitions = crate::order::distinct(&ids);
    let mut groups: Vec<(u64, Vec<LiveDelivery>)> = Vec::new();
    let mut k: usize = 0;
    while k < partitions.len()
        invariant
            k <= partitions@.len(),
            groups@.len() == k,
            forall|j: int| 0 <= j < k ==> (#[trigger] groups@[j]).0 == partitions@[j],
            forall|j: int|
                0 <= j < k ==> (#[trigger] groups@[j]).1@ == live_in(live@, partitions@[j]),
        decreases partitions@.len() - k,
    {
        let partition: u64 = partitions[k];
        let ghost f = |d: LiveDelivery| d.partition_id == partition;
        let mut out: Vec<LiveDelivery> = Vec::new();
        let mut n: usize = 0;
        proof {
            reveal(Seq::filter);
            assert(live@.take(0) =~= Seq::<LiveDelivery>::empty());
        }
        while n < live.len()
            invariant
                n <= live@.len(),
                f == (|d: LiveDelivery| d.partition_id == partition),
                out@ == live@.take(n as int).filter(f),
            decreases live@.len() - n,
        {
            proof {
                reveal(Seq::filter);
                assert(live@.take(n + 1).drop_last() =~= live@.take(n as int));
                assert(live@.take(n + 1).last() == live@[n as int]);
            }
            if live[n].partition_id as u64 == partition {
                out.push(live[n]);
            }
            n += 1;
        }
        proof {
            assert(live@.take(live@.len() as int) =~= live@);
        }
        groups.push((partition, out));
        k += 1;
    }
    assert(groups@.map_values(|g: (u64, Vec<LiveDelivery>)| g.0) =~= partitions@);
    groups
}

/// Where the partition of a delivery is.
pub fn delivery_place(d: &AggregateTypeDefinition, partition: u64) -> (r: Result<Placement, Status>)
    requires
        d.wf(),
    ensures
        match r {
            Ok(p) => d.placements@.dom().contains(partition) && p == d.placements@[partition],
            Err(s) => !d.placements@.dom().contains(partition) && s@ == says(
                Code::InvalidArgument,
                "delivery token partition 非法"@,
            ),
        },
{
    match d.placements.get(partition) {
        Some(p) => Ok(*p),
        None => Err(Status::of(Code::InvalidArgument, "delivery token partition 非法")),
    }
}

/// What a shard answers to settlements and renewals.
#[derive(Debug)]
pub enum SettlementAnswer {
    Settled(Vec<SettlementStatus>),
    Renewed(Vec<SettlementStatus>),
    StaleEpoch { current_epoch: u64 },
    Fenced { current_generation: u64 },
    Invalid { reason: String },
    Other,
}

/// Takes what a shard answers to settlements or, if `renew`, renewals; `shown` is the
/// answer as it is printed.
pub fn map_group_settlement_response(answer: SettlementAnswer, renew: bool, shown: &str) -> (r:
    Result<Vec<SettlementStatus>, Status>)
    ensures
        match answer {
            SettlementAnswer::Settled(v) if !renew => r == Ok::<Vec<SettlementStatus>, Status>(v),
            SettlementAnswer::Renewed(v) if renew => r == Ok::<Vec<SettlementStatus>, Status>(v),
            SettlementAnswer::StaleEpoch { .. } => r matches Err(s) && s@ == says(
                Code::FailedPrecondition,
                "消费者组 epoch 已过期"@,
            ),
            SettlementAnswer::Fenced { current_generation } => r matches Err(s) && s@
                == fenced_reply(current_generation),
            SettlementAnswer::Invalid { reason } => r matches Err(s) && s@ == says(
                Code::InvalidArgument,
                reason@,
            ),
            _ => r matches Err(s) && s@ == says(
                Code::Internal,
                "消费者组结算返回意外结果: "@ + shown@,
            ),
        },
{
    match answer {
        SettlementAnswer::Settled(v) => if !renew {
            Ok(v)
        } else {
            Err(Status::new(Code::Internal, join2("消费者组结算返回意外结果: ", shown)))
        },
        SettlementAnswer::Renewed(v) => if renew {
            Ok(v)
        } else {
            Err(Status::new(Code::Internal, join2("消费者组结算返回意外结果: ", shown)))
        },
        SettlementAnswer::StaleEpoch { current_epoch: _ } => Err(
            Status::of(Code::FailedPrecondition, "消费者组 epoch 已过期"),
        ),
        SettlementAnswer::Fenced { current_generation } => Err(fenced_status(current_generation)),
        SettlementAnswer::Invalid { reason } => Err(Status::new(Code::InvalidArgument, reason)),
        SettlementAnswer::Other => Err(
            Status::new(Code::Internal, join2("消费者组结算返回意外结果: ", shown)),
        ),
    }
}

/// The place of the last of the first `n` deliveries that is number `index` of the
/// request.
pub open spec fn answer_place(asked: Seq<LiveDelivery>, n: int, index: int) -> Option<int>
    decreases n,
{
    if n <= 0 {
        None
    } else if asked[n - 1].index == index {
        Some(n - 1)
    } else {
        answer_place(asked, n - 1, index)
    }
}

/// The result tells what became of the delivery; `renewed` is its new deadline.
pub open spec fn is_result(
    r: Option<GroupSettlementResult>,
    d: NamedDelivery,
    status: SettlementStatus,
    renewed: Option<u64>,
) -> bool {
    r matches Some(x) && x.delivery_id@ == d.delivery_id@ && x.status == status && x.deadline_ms
        == (match renewed {
        Some(t) if status == SettlementStatus::Applied => t,
        _ => 0,
    })
}

/// Takes what a partition says of its deliveries; `renewed` is the new deadline where
/// they are renewed.
pub fn note_results(
    results: &mut Vec<Option<GroupSettlementResult>>,
    named: &Vec<NamedDelivery>,
    asked: &Vec<LiveDelivery>,
    statuses: &Vec<SettlementStatus>,
    renewed: Option<u64>,
)
    requires
        old(results)@.len() == named@.len(),
        forall|i: int| 0 <= i < asked@.len() ==> (#[trigger] asked@[i]).index < named@.len(),
    ensures
        final(results)@.len() == named@.len(),
        ({
            let n = if asked@.len() < statuses@.len() {
                asked@.len() as int
            } else {
                statuses@.len() as int
            };
            forall|i: int|
                0 <= i < named@.len() ==> match answer_place(asked@, n, i) {
                    Some(k) => is_result(
                        #[trigger] final(results)@[i],
                        named@[i],
                        statuses@[k],
                        renewed,
                    ),
                    None => final(results)@[i] == old(results)@[i],
                }
        }),
{
    let mut k: usize = 0;
    while k < asked.len() && k < statuses.len()
        invariant
            k <= asked@.len(),
            k <= statuses@.len(),
            results@.len() == named@.len(),
            forall|i: int| 0 <= i < asked@.len() ==> (#[trigger] asked@[i]).index < named@.len(),
            forall|i: int|
                0 <= i < named@.len() ==> match answer_place(asked@, k as int, i) {
                    Some(p) => is_result(
                        #[trigger] results@[i],
                        named@[i],
                        statuses@[p],
                        renewed,
                    ),
                    None => results@[i] == old(results)@[i],
                },
        decreases asked@.len() - k,
    {
        let index: usize = asked[k].index;
        let status = statuses[k];
        let deadline_ms: u64 = match renewed {
            Some(t) => if status == SettlementStatus::Applied {
                t
            } else {
                0
            },
            None => 0,
        };
        let ghost was = results@;
        let x = Some(
            GroupSettlementResult {
                delivery_id: copy_bytes(&named[index].delivery_id),
                status,
                deadline_ms,
            },
        );
        results.set(index, x);
        proof {
            assert forall|i: int| 0 <= i < named@.len() implies match answer_place(
                asked@,
                k + 1,
                i,
            ) {
                Some(p) => is_result(#[trigger] results@[i], named@[i], statuses@[p], renewed),
                None => results@[i] == old(results)@[i],
            } by {
                if i == index {
                    assert(results@[i] == x);
                } else {
                    assert(results@[i] == was[i]);
                }
            }
        }
        k += 1;
    }
}

/// The results of a request once all partitions were asked.
pub fn finish_results(results: Vec<Option<GroupSettlementResult>>) -> (out: Vec<
    GroupSettlementResult,
>)
    requires
        forall|i: int| 0 <= i < results@.len() ==> (#[trigger] results@[i]) is Some,
    ensures
        out@.len() == results@.len(),
        forall|i: int| 0 <= i < out@.len() ==> Some(#[trigger] out@[i]) == results@[i],
{
    let mut out: Vec<GroupSettlementResult> = Vec::new();
    for r in it: results
        invariant
            it.seq() == results@,
            forall|i: int| 0 <= i < results@.len() ==> (#[trigger] results@[i]) is Some,
            out@.len() == it.index(),
            forall|i: int| 0 <= i < out@.len() ==> Some(#[trigger] out@[i]) == results@[i],
    {
        assert(results@[it.index() as int] == r);
        if let Some(x) = r {
            out.push(x);
        }
    }
    out
}

/// A settlement of a delivery of a group.
#[derive(Debug)]
pub struct GroupSettlement {
    pub delivery_id: u128,
    pub action: SettlementAction,
    pub reason: String,
}

/// A settlement that a consumer asks for; an unknown action is `None`.
#[derive(Debug)]
pub struct GroupSettlementRequest {
    pub delivery_id: Vec<u8>,
    pub action: Option<SettlementAction>,
    pub reason: String,
}

/// The deliveries that settlements name.
pub fn named_deliveries(requests: &Vec<GroupSettlementRequest>) -> (out: Vec<NamedDelivery>)
    ensures
        out@.len() == requests@.len(),
        forall|i: int|
            0 <= i < out@.len() ==> (#[trigger] out@[i]).delivery_id@ == requests@[i].delivery_id@
                && out@[i].acceptable == (requests@[i].action is Some),
{
    let mut out: Vec<NamedDelivery> = Vec::new();
    let mut i: usize = 0;
    while i < requests.len()
        invariant
            i <= requests@.len(),
            out@.len() == i,
            forall|k: int|
                0 <= k < i ==> (#[trigger] out@[k]).delivery_id@ == requests@[k].delivery_id@
                    && out@[k].acceptable == (requests@[k].action is Some),
        decreases requests@.len() - i,
    {
        out.push(
            NamedDelivery {
                delivery_id: copy_bytes(&requests[i].delivery_id),
                acceptable: requests[i].action.is_some(),
            },
        );
        i += 1;
    }
    out
}

/// The settlements that a partition is asked to make.
pub fn partition_settlements(asked: &Vec<LiveDelivery>, requests: &Vec<GroupSettlementRequest>) -> (out:
    Vec<GroupSettlement>)
    requires
        forall|i: int|
            0 <= i < asked@.len() ==> (#[trigger] asked@[i]).index < requests@.len()
                && requests@[asked@[i].index as int].action is Some,
    ensures
        out@.len() == asked@.len(),
        forall|i: int|
            0 <= i < out@.len() ==> (#[trigger] out@[i]).delivery_id == asked@[i].delivery_id
                && Some(out@[i].action) == requests@[asked@[i].index as int].action
                && out@[i].reason@ == requests@[asked@[i].index as int].reason@,
{
    let mut out: Vec<GroupSettlement> = Vec::new();
    let mut i: usize = 0;
    while i < asked.len()
        invariant
            i <= asked@.len(),
            forall|i: int|
                0 <= i < asked@.len() ==> (#[trigger] asked@[i]).index < requests@.len()
                    && requests@[asked@[i].index as int].action is Some,
            out@.len() == i,
            forall|k: int|
                0 <= k < i ==> (#[trigger] out@[k]).delivery_id == asked@[k].delivery_id && Some(
                    out@[k].action,
                ) == requests@[asked@[k].index as int].action && out@[k].reason@
                    == requests@[asked@[k].index as int].reason@,
        decreases asked@.len() - i,
    {
        let q = &requests[asked[i].index];
        if let Some(action) = q.action {
            out.push(
                GroupSettlement {
                    delivery_id: asked[i].delivery_id,
                    action,
                    reason: q.reason.clone(),
                },
            );
        }
        i += 1;
    }
    out
}


/// A partition that the group knows of in this epoch goes on as it was.  One that it does
/// not know of, or knows of in an older epoch only, begins at the group's start with
/// nothing delivered.  A newer epoch refuses the fetch.
pub proof fn law_partition_begins_at_the_groups_start(
    found: Option<PartitionState>,
    input: PartitionFetch,
    r: Result<PartitionState, Status>,
)
    requires
        call_ensures(open_group_partition, (found, &input), r),
    ensures
        found matches Some(f) ==> (f.epoch > input.group_epoch ==> (r matches Err(s) && s@.code
            == Code::FailedPrecondition)),
        found matches Some(f) ==> (f.epoch == input.group_epoch ==> r == Ok::<
            PartitionState,
            Status,
        >(f)),
        found is None || found->0.epoch < input.group_epoch ==> (r matches Ok(s) && s.epoch
            == input.group_epoch && s.next_position == input.start_position && s.delivered == 0
            && s.retrying == 0),
{
}

/// Where there is nothing to deliver, a partition says that it is caught up.  Else a
/// consumer without credit is held back, and one with credit has the partition scanned
/// from where the group is, sixteen events for each that is asked for, within bounds.
pub proof fn law_partition_is_scanned_from_where_the_group_is(
    state: PartitionState,
    head: u64,
    credit: u32,
    max_events: u32,
    step: PartitionStep,
)
    requires
        call_ensures(plan_partition_fetch, (&state, head, credit, max_events), step),
    ensures
        ({
            let nothing = state.delivered == 0 && state.retrying == 0 && state.next_position
                >= head;
            match step {
                PartitionStep::Answer(o) => {
                    &&& nothing || credit == 0
                    &&& o.deliveries@.len() == 0
                    &&& o.caught_up == (state.next_position >= head)
                    &&& o.throttled == !nothing
                },
                PartitionStep::Scan { from, limit } => {
                    &&& !nothing && credit > 0
                    &&& from == state.next_position
                    &&& 2 <= max_events <= 256 ==> limit == 16 * max_events
                    &&& max_events < 2 ==> limit == 32
                    &&& max_events > 256 ==> limit == 4096
                },
            }
        }),
{
}

/// A candidate stands for an event: the same place, aggregate, version and id, and the
/// bytes of its data and metadata.  The events are kept by their positions.
pub proof fn law_candidates_stand_for_the_events(
    events: Vec<StoredAggregateEvent>,
    r: (Vec<GroupCandidate>, IdMap<StoredAggregateEvent>),
    i: int,
)
    requires
        call_ensures(group_candidates, (events,), r),
        0 <= i < events@.len(),
        events@[i].data@.len() + events@[i].metadata@.len() <= u64::MAX,
    ensures
        r.0@.len() == events@.len(),
        r.0@[i].partition_position == events@[i].partition_position,
        r.0@[i].aggregate_id@ == events@[i].aggregate_id@,
        r.0@[i].aggregate_version == events@[i].aggregate_version,
        r.0@[i].event_id == events@[i].event_id,
        r.0@[i].payload_bytes == events@[i].data@.len() + events@[i].metadata@.len(),
        !r.0@[i].replayed,
        r.1@.dom().contains(events@[i].partition_position),
        (forall|j: int|
            i < j < events@.len() ==> (#[trigger] events@[j]).partition_position
                != events@[i].partition_position) ==> r.1@[events@[i].partition_position]
            == events@[i],
{
    assert(is_group_candidate(r.0@[i], events@[i]));
    lemma_by_position(events@, i);
}

proof fn lemma_by_position(events: Seq<StoredAggregateEvent>, i: int)
    requires
        0 <= i < events.len(),
    ensures
        by_position(events).dom().contains(events[i].partition_position),
        (forall|j: int|
            i < j < events.len() ==> (#[trigger] events[j]).partition_position
                != events[i].partition_position) ==> by_position(
            events,
        )[events[i].partition_position] == events[i],
    decreases events.len(),
{
    let rest = events.drop_last();
    let n = events.len() - 1;
    assert(events.last() == events[n]);
    if i < n {
        assert(rest[i] == events[i]);
        lemma_by_position(rest, i);
        if forall|j: int|
            i < j < events.len() ==> (#[trigger] events[j]).partition_position
                != events[i].partition_position {
            assert forall|j: int| i < j < rest.len() implies (#[trigger] rest[j]).partition_position
                != rest[i].partition_position by {
                assert(rest[j] == events[j]);
            }
        }
    }
}

/// A delivery is due its time-out after now, and a claim says so, with what the fetch may
/// take and where the group began.
pub proof fn law_claim_is_due_after_the_timeout(
    input: PartitionFetch,
    consumer_id: String,
    candidates: Vec<GroupCandidate>,
    c: ClaimCommand,
)
    requires
        call_ensures(claim_command, (&input, consumer_id, candidates), c),
    ensures
        input.now_ms + input.ack_timeout_ms <= u64::MAX ==> c.deadline_ms == input.now_ms
            + input.ack_timeout_ms,
        input.now_ms + input.ack_timeout_ms > u64::MAX ==> c.deadline_ms == u64::MAX,
        c.group_epoch == input.group_epoch,
        c.start_position == input.start_position,
        c.consumer_id@ == consumer_id@,
        c.now_ms == input.now_ms,
        c.max_claim == input.max_events,
        c.max_bytes == input.max_bytes,
        c.candidates@ == candidates@,
{
}

proof fn lemma_left_over_is(have: Map<u64, StoredAggregateEvent>, claimed: Seq<GroupDelivery>)
    ensures
        left_over(have, claimed) is Some <==> (forall|i: int|
            0 <= i < claimed.len() ==> have.dom().contains(
                (#[trigger] claimed[i]).partition_position,
            )) && (forall|i: int, j: int|
            0 <= i < j < claimed.len() ==> (#[trigger] claimed[i]).partition_position != (
            #[trigger] claimed[j]).partition_position),
        left_over(have, claimed) matches Some(left) ==> forall|k: u64| #[trigger]
            left.dom().contains(k) <==> have.dom().contains(k) && forall|i: int|
                0 <= i < claimed.len() ==> (#[trigger] claimed[i]).partition_position != k,
    decreases claimed.len(),
{
    if claimed.len() > 0 {
        let rest = claimed.drop_last();
        let n = claimed.len() - 1;
        let p = claimed.last().partition_position;
        assert(claimed.last() == claimed[n]);
        lemma_left_over_is(have, rest);
        assert forall|i: int| 0 <= i < n implies rest[i] == #[trigger] claimed[i] by {}
        if left_over(have, claimed) is Some {
            let left = left_over(have, rest)->0;
            assert(left.dom().contains(p));
            assert forall|i: int| 0 <= i < claimed.len() implies have.dom().contains(
                (#[trigger] claimed[i]).partition_position,
            ) by {
                if i < n {
                    assert(rest[i] == claimed[i]);
                }
            }
            assert forall|i: int, j: int| 0 <= i < j < claimed.len() implies (
            #[trigger] claimed[i]).partition_position != (
            #[trigger] claimed[j]).partition_position by {
                assert(rest[i] == claimed[i]);
                if j < n {
                    assert(rest[j] == claimed[j]);
                }
            }
            let now = left.remove(p);
            assert forall|k: u64| #[trigger]
                now.dom().contains(k) <==> have.dom().contains(k) && forall|i: int|
                    0 <= i < claimed.len() ==> (#[trigger] claimed[i]).partition_position != k by {
                if now.dom().contains(k) {
                    assert(left.dom().contains(k));
                    assert forall|i: int| 0 <= i < claimed.len() implies (
                    #[trigger] claimed[i]).partition_position != k by {
                        if i < n {
                            assert(rest[i] == claimed[i]);
                        }
                    }
                }
                if have.dom().contains(k) && forall|i: int|
                    0 <= i < claimed.len() ==> (#[trigger] claimed[i]).partition_position != k {
                    assert forall|i: int| 0 <= i < n implies (#[trigger] rest[i]).partition_position
                        != k by {
                        assert(rest[i] == claimed[i]);
                    }
                    assert(claimed[n].partition_position != k);
                    assert(left.dom().contains(k));
                }
            }
        } else if (forall|i: int|
            0 <= i < claimed.len() ==> have.dom().contains(
                (#[trigger] claimed[i]).partition_position,
            )) && (forall|i: int, j: int|
            0 <= i < j < claimed.len() ==> (#[trigger] claimed[i]).partition_position != (
            #[trigger] claimed[j]).partition_position) {
            assert forall|i: int| 0 <= i < n implies have.dom().contains(
                (#[trigger] rest[i]).partition_position,
            ) by {
                assert(rest[i] == claimed[i]);
            }
            assert forall|i: int, j: int| 0 <= i < j < n implies (
            #[trigger] rest[i]).partition_position != (#[trigger] rest[j]).partition_position by {
                assert(rest[i] == claimed[i] && rest[j] == claimed[j]);
            }
            let left = left_over(have, rest)->0;
            assert(have.dom().contains(claimed[n].partition_position));
            assert forall|i: int| 0 <= i < n implies (#[trigger] rest[i]).partition_position
                != p by {
                assert(rest[i] == claimed[i]);
                assert(claimed[i].partition_position != claimed[n].partition_position);
            }
            assert(left.dom().contains(p));
        }
    }
}

/// A partition delivers exactly the events that were claimed, in the order of the claims.
/// It is caught up where its scan reached the head: one behind the last event that was
/// scanned and not claimed, else one behind the last claim, else where it began.  A claim
/// of an event that was not scanned, or of one twice, is the server's fault.
pub proof fn law_claimed_events_are_delivered(
    events: IdMap<StoredAggregateEvent>,
    claimed: Vec<GroupDelivery>,
    next_position: u64,
    head: u64,
    r: Result<PartitionOutput, Status>,
)
    requires
        call_ensures(claimed_output, (events, claimed, next_position, head), r),
    ensures
        r is Ok <==> (forall|i: int|
            0 <= i < claimed@.len() ==> events@.dom().contains(
                (#[trigger] claimed@[i]).partition_position,
            )) && (forall|i: int, j: int|
            0 <= i < j < claimed@.len() ==> (#[trigger] claimed@[i]).partition_position != (
            #[trigger] claimed@[j]).partition_position),
        r matches Err(s) ==> s@.code == Code::Internal,
        r matches Ok(o) ==> !o.throttled && o.deliveries@.len() == claimed@.len(),
        r matches Ok(o) ==> forall|i: int|
            0 <= i < claimed@.len() ==> (#[trigger] o.deliveries@[i]).0 == claimed@[i]
                && o.deliveries@[i].1 == events@[claimed@[i].partition_position],
        r matches Ok(o) ==> (claimed@.len() == 0 && (forall|k: u64|
            !#[trigger] events@.dom().contains(k)) ==> o.caught_up == (next_position >= head)),
        r matches Ok(o) ==> forall|k: u64|
            is_last_left(events@, claimed@, k) && k < u64::MAX ==> o.caught_up == (k + 1 >= head),
        r matches Ok(o) ==> (claimed@.len() > 0 && (forall|k: u64|
            !is_left(events@, claimed@, k)) && claimed@.last().partition_position < u64::MAX
            ==> o.caught_up == (claimed@.last().partition_position + 1 >= head)),
{
    lemma_left_over_is(events@, claimed@);
    if let Ok(o) = r {
        let left = left_over(events@, claimed@)->0;
        let end = choose|end: u64| #[trigger]
            is_scanned_to(end, left, claimed@, next_position) && o.caught_up == (end >= head);
        assert forall|k: u64| #[trigger] left.dom().contains(k) <==> is_left(
            events@,
            claimed@,
            k,
        ) by {}
        assert forall|k: u64|
            is_last_left(events@, claimed@, k) && k < u64::MAX implies o.caught_up == (k + 1
            >= head) by {
            assert(left.dom().contains(k));
            let m = choose|m: u64|
                #![trigger left.dom().contains(m)]
                left.dom().contains(m) && end == capped_sum(m, 1) && forall|q: u64| #[trigger]
                    left.dom().contains(q) ==> q <= m;
            assert(is_left(events@, claimed@, m));
            assert(m == k);
        }
        if forall|k: u64| !is_left(events@, claimed@, k) {
            assert forall|k: u64| !#[trigger] left.dom().contains(k) by {
                assert(!is_left(events@, claimed@, k));
            }
        }
        if claimed@.len() == 0 && forall|k: u64| !#[trigger] events@.dom().contains(k) {
            assert forall|k: u64| !#[trigger] left.dom().contains(k) by {
                assert(!events@.dom().contains(k));
            }
        }
    }
}

/// The event at this position was scanned and not claimed.
pub open spec fn is_left(
    events: Map<u64, StoredAggregateEvent>,
    claimed: Seq<GroupDelivery>,
    k: u64,
) -> bool {
    events.dom().contains(k) && forall|i: int|
        0 <= i < claimed.len() ==> (#[trigger] claimed[i]).partition_position != k
}

/// The event at this position is the last that was scanned and not claimed.
pub open spec fn is_last_left(
    events: Map<u64, StoredAggregateEvent>,
    claimed: Seq<GroupDelivery>,
    k: u64,
) -> bool {
    is_left(events, claimed, k) && forall|q: u64| #[trigger] is_left(events, claimed, q) ==> q <= k
}

/// A fetch takes what it asks for but never more than the largest limits; a number of
/// events or bytes that is 0 stands for the default.
pub proof fn law_fetch_stays_within_the_largest_limits(
    asked: GroupFetchLimits,
    defaults: GroupFetchLimits,
    largest: GroupFetchLimits,
    l: GroupFetchLimits,
)
    requires
        call_ensures(group_fetch_limits, (&asked, &defaults, &largest), l),
    ensures
        asked.max_events == 0 ==> l.max_events == defaults.max_events,
        asked.max_bytes == 0 ==> l.max_bytes == defaults.max_bytes,
        asked.max_events > 0 ==> l.max_events <= asked.max_events && l.max_events
            <= largest.max_events && (l.max_events == asked.max_events || l.max_events
            == largest.max_events),
        asked.max_bytes > 0 ==> l.max_bytes <= asked.max_bytes && l.max_bytes
            <= largest.max_bytes && (l.max_bytes == asked.max_bytes || l.max_bytes
            == largest.max_bytes),
        l.wait_ms <= asked.wait_ms && l.wait_ms <= largest.wait_ms,
        l.wait_ms == asked.wait_ms || l.wait_ms == largest.wait_ms,
{
}

/// The bytes of these deliveries' data and metadata together.
pub open spec fn payload_of(output: Seq<(GroupDelivery, StoredAggregateEvent)>) -> nat
    decreases output.len(),
{
    if output.len() == 0 {
        0
    } else {
        payload_of(output.drop_last()) + output.last().1.data@.len()
            + output.last().1.metadata@.len()
    }
}

proof fn lemma_bytes_after(used: u64, output: Seq<(GroupDelivery, StoredAggregateEvent)>)
    requires
        forall|i: int|
            0 <= i < output.len() ==> (#[trigger] output[i]).1.data@.len()
                + output[i].1.metadata@.len() <= u64::MAX,
    ensures
        used + payload_of(output) <= u64::MAX ==> bytes_after(used, output) == used + payload_of(
            output,
        ),
        used + payload_of(output) > u64::MAX ==> bytes_after(used, output) == u64::MAX,
    decreases output.len(),
{
    if output.len() > 0 {
        let rest = output.drop_last();
        assert(output.last() == output[output.len() - 1]);
        assert forall|i: int| 0 <= i < rest.len() implies (#[trigger] rest[i]).1.data@.len()
            + rest[i].1.metadata@.len() <= u64::MAX by {
            assert(rest[i] == output[i]);
        }
        lemma_bytes_after(used, rest);
    }
}

/// What a partition gives is added to a fetch, delivery by delivery and in its order; each
/// names the delivery, shows its event and says which attempt it is and when it is due.
/// The bytes of data and metadata count.
pub proof fn law_fetch_takes_in_every_delivery(
    this: &mut GroupFetch,
    group: AggregateGroupDefinition,
    name: &str,
    partition: u16,
    output: PartitionOutput,
    r: Result<(), Status>,
    i: int,
    token: Vec<u8>,
)
    requires
        call_ensures(GroupFetch::absorb, (this, &group, partition, output), r),
        0 <= i < output.deliveries@.len(),
        name@ == group.name@,
        call_ensures(
            encode_delivery_token,
            (
                &group.aggregate_type,
                name,
                group.epoch,
                partition,
                output.deliveries@[i].0.delivery_id,
            ),
            Ok::<Vec<u8>, Status>(token),
        ),
        forall|k: int|
            0 <= k < output.deliveries@.len() ==> (
            #[trigger] output.deliveries@[k]).1.data@.len()
                + output.deliveries@[k].1.metadata@.len() <= u64::MAX,
    ensures
        r is Ok,
        final(this).deliveries@.len() == old(this).deliveries@.len() + output.deliveries@.len(),
        final(this).caught_up == (old(this).caught_up && output.caught_up),
        final(this).throttled == (old(this).throttled || output.throttled),
        old(this).used_bytes + payload_of(output.deliveries@) <= u64::MAX
            ==> final(this).used_bytes == old(this).used_bytes + payload_of(output.deliveries@),
        old(this).used_bytes + payload_of(output.deliveries@) > u64::MAX
            ==> final(this).used_bytes == u64::MAX,
        ({
            let d = final(this).deliveries@[old(this).deliveries@.len() + i];
            let (claim, e) = output.deliveries@[i];
            &&& d.delivery_id@ == token@
            &&& d.attempt == claim.attempt && d.deadline_ms == claim.deadline_ms && d.replayed
                == claim.replayed
            &&& d.event.aggregate_id@ == e.aggregate_id@ && d.event.aggregate_version
                == e.aggregate_version
            &&& d.event.event_type@ == e.event_type@ && d.event.data@ == e.data@
                && d.event.metadata@ == e.metadata@ && d.event.hlc == Some(e.hlc)
            &&& big_endian(d.event.event_id@) == e.event_id
        }),
        forall|k: int|
            0 <= k < old(this).deliveries@.len() ==> #[trigger] final(this).deliveries@[k]
                == old(this).deliveries@[k],
{
    lemma_bytes_after(old(this).used_bytes, output.deliveries@);
    let d = final(this).deliveries@[old(this).deliveries@.len() + i];
    assert(shows_delivery(d, group, partition, output.deliveries@[i]));
}


/// Of the deliveries that a consumer names, those that are of this epoch are asked about,
/// each under the partition and number that its name gives; a name that cannot be read,
/// or that comes with no action although it is of this epoch, stops the request.
pub proof fn law_named_deliveries_of_the_epoch_are_asked_about(
    named: Seq<NamedDelivery>,
    aggregate_type: AggregateTypeId,
    group_name: &str,
    epoch: u64,
    i: int,
    t: Result<DeliveryToken, Status>,
)
    requires
        0 <= i < named.len() <= usize::MAX,
        call_ensures(
            decode_delivery_token,
            (&named[i].delivery_id, &aggregate_type, group_name),
            t,
        ),
    ensures
        stops_at(named[i], aggregate_type@, group_name@, epoch) <==> match t {
            Err(_) => true,
            Ok(token) => token.group_epoch == epoch && !named[i].acceptable,
        },
        t matches Ok(token) ==> (token.group_epoch == epoch ==> live_of(
            named,
            aggregate_type@,
            group_name@,
            epoch,
        ).contains(
            LiveDelivery {
                index: i as usize,
                partition_id: token.partition_id,
                delivery_id: token.delivery_id,
            },
        )),
        t is Err || t->Ok_0.group_epoch != epoch ==> forall|k: int|
            0 <= k < live_of(named, aggregate_type@, group_name@, epoch).len() ==> (
            #[trigger] live_of(named, aggregate_type@, group_name@, epoch)[k]).index != i,
{
    law_every_delivery_is_accounted_for(named, aggregate_type@, group_name@, epoch, i);
    if let Ok(token) = t {
        if token.group_epoch == epoch {
            lemma_live_has(named, aggregate_type@, group_name@, epoch, i, token@);
        }
    }
}

proof fn lemma_live_has(
    named: Seq<NamedDelivery>,
    id: TypeView,
    group: Seq<char>,
    epoch: u64,
    i: int,
    t: DeliveryFields,
)
    requires
        0 <= i < named.len() <= usize::MAX,
        name_reading(named[i].delivery_id@, id, group) == Reading::Reads(t),
        t.epoch == epoch,
    ensures
        live_of(named, id, group, epoch).contains(
            LiveDelivery {
                index: i as usize,
                partition_id: t.partition,
                delivery_id: t.delivery,
            },
        ),
    decreases named.len(),
{
    let rest = named.drop_last();
    let was = live_of(rest, id, group, epoch);
    let now = live_of(named, id, group, epoch);
    let d = LiveDelivery { index: i as usize, partition_id: t.partition, delivery_id: t.delivery };
    if i < rest.len() {
        assert(rest[i] == named[i]);
        lemma_live_has(rest, id, group, epoch, i, t);
        let k = choose|k: int| 0 <= k < was.len() && was[k] == d;
        assert(now[k] == d);
    } else {
        assert(named.last() == named[i]);
        assert(now[was.len() as int] == d);
    }
}

proof fn lemma_group_in_order(live: Seq<LiveDelivery>, partition: u64, a: int, b: int)
    requires
        forall|x: int, y: int|
            0 <= x < y < live.len() ==> (#[trigger] live[x]).index < (#[trigger] live[y]).index,
        0 <= a < b < live_in(live, partition).len(),
    ensures
        live_in(live, partition)[a].index < live_in(live, partition)[b].index,
    decreases live.len(),
{
    reveal(Seq::filter);
    if live.len() > 0 {
        let rest = live.drop_last();
        let was = live_in(rest, partition);
        let now = live_in(live, partition);
        let n = live.len() - 1;
        assert forall|x: int, y: int| 0 <= x < y < rest.len() implies (
        #[trigger] rest[x]).index < (#[trigger] rest[y]).index by {
            assert(live[x].index < live[y].index);
        }
        if b < was.len() {
            lemma_group_in_order(rest, partition, a, b);
        } else {
            let mine = |d: LiveDelivery| d.partition_id == partition;
            assert(was.contains(was[a]));
            lemma_filter_contains(rest, mine, was[a]);
            let x = choose|x: int| 0 <= x < rest.len() && rest[x] == was[a];
            assert(live[x].index < live[n].index);
        }
    }
}

/// A delivery is settled or renewed in the group of its partition and in no other, each
/// partition has one group, and the order of the request is kept.
pub proof fn law_deliveries_are_grouped_by_their_partition(
    live: Vec<LiveDelivery>,
    groups: Vec<(u64, Vec<LiveDelivery>)>,
    d: LiveDelivery,
    partition: u64,
)
    requires
        call_ensures(by_partition, (&live,), groups),
    ensures
        forall|i: int, j: int| 0 <= i < j < groups@.len() ==> groups@[i].0 < groups@[j].0,
        (exists|i: int|
            0 <= i < groups@.len() && (#[trigger] groups@[i]).0 == partition
                && groups@[i].1@.contains(d)) <==> live@.contains(d) && d.partition_id
            == partition,
        (forall|a: int, b: int|
            0 <= a < b < live@.len() ==> (#[trigger] live@[a]).index < (
            #[trigger] live@[b]).index) ==> forall|i: int, a: int, b: int|
            0 <= i < groups@.len() && 0 <= a < b < groups@[i].1@.len() ==> (
            #[trigger] groups@[i].1@[a]).index < (#[trigger] groups@[i].1@[b]).index,
{
    if forall|a: int, b: int|
        0 <= a < b < live@.len() ==> (#[trigger] live@[a]).index < (#[trigger] live@[b]).index {
        assert forall|i: int, a: int, b: int|
            0 <= i < groups@.len() && 0 <= a < b < groups@[i].1@.len() implies (
        #[trigger] groups@[i].1@[a]).index < (#[trigger] groups@[i].1@[b]).index by {
            assert(groups@[i].1@ == live_in(live@, groups@[i].0));
            lemma_group_in_order(live@, groups@[i].0, a, b);
        }
    }
    let ids = groups@.map_values(|g: (u64, Vec<LiveDelivery>)| g.0);
    assert forall|i: int, j: int| 0 <= i < j < groups@.len() implies groups@[i].0
        < groups@[j].0 by {
        assert(ids[i] < ids[j]);
    }
    let mine = |x: LiveDelivery| x.partition_id == partition;
    let kept = live@.filter(mine);
    lemma_filter_contains(live@, mine, d);
    if live@.contains(d) && d.partition_id == partition {
        let all = live@.map_values(|x: LiveDelivery| x.partition_id as u64);
        let k = choose|k: int| 0 <= k < live@.len() && live@[k] == d;
        assert(all[k] == partition);
        assert(all.contains(partition));
        assert(all.to_set().contains(partition));
        assert(ids.contains(partition));
        let i = choose|i: int| 0 <= i < ids.len() && ids[i] == partition;
        assert(groups@[i].0 == partition);
        assert(groups@[i].1@ == live_in(live@, partition));
        assert(groups@[i].1@.contains(d));
    }
    if exists|i: int|
        0 <= i < groups@.len() && (#[trigger] groups@[i]).0 == partition && groups@[i].1@.contains(
            d,
        ) {
        let i = choose|i: int|
            0 <= i < groups@.len() && (#[trigger] groups@[i]).0 == partition
                && groups@[i].1@.contains(d);
        assert(groups@[i].1@ == live_in(live@, partition));
    }
}

proof fn lemma_filter_contains(
    s: Seq<LiveDelivery>,
    keep: spec_fn(LiveDelivery) -> bool,
    d: LiveDelivery,
)
    ensures
        s.filter(keep).contains(d) <==> s.contains(d) && keep(d),
    decreases s.len(),
{
    reveal(Seq::filter);
    if s.len() > 0 {
        let rest = s.drop_last();
        let was = rest.filter(keep);
        let now = s.filter(keep);
        lemma_filter_contains(rest, keep, d);
        if was.contains(d) {
            let k = choose|k: int| 0 <= k < was.len() && was[k] == d;
            assert(now[k] == d);
            let m = choose|m: int| 0 <= m < rest.len() && rest[m] == d;
            assert(s[m] == d);
        }
        if now.contains(d) && !was.contains(d) {
            let k = choose|k: int| 0 <= k < now.len() && now[k] == d;
            if k < was.len() {
                assert(was[k] == d);
            }
            assert(s[s.len() - 1] == d);
        }
        if s.contains(d) && keep(d) && !was.contains(d) {
            let m = choose|m: int| 0 <= m < s.len() && s[m] == d;
            if m < rest.len() {
                assert(rest[m] == d);
            }
            assert(now[was.len() as int] == d);
        }
    }
}

/// What is said of a delivery is what the partition said of it last; a new deadline is
/// given only where a renewal was applied.
pub proof fn law_result_is_the_partitions_last_word(
    asked: Seq<LiveDelivery>,
    n: int,
    index: int,
    r: Option<GroupSettlementResult>,
    d: NamedDelivery,
    status: SettlementStatus,
    renewed: Option<u64>,
)
    requires
        0 <= n <= asked.len(),
    ensures
        answer_place(asked, n, index) matches Some(k) ==> 0 <= k < n && asked[k].index == index
            && forall|m: int| k < m < n ==> (#[trigger] asked[m]).index != index,
        answer_place(asked, n, index) is None ==> forall|m: int|
            0 <= m < n ==> (#[trigger] asked[m]).index != index,
        is_result(r, d, status, renewed) ==> {
            &&& r matches Some(x)
            &&& x.delivery_id@ == d.delivery_id@
            &&& x.status == status
            &&& status == SettlementStatus::Applied ==> (renewed matches Some(t)
                ==> x.deadline_ms == t)
            &&& status != SettlementStatus::Applied || renewed is None ==> x.deadline_ms == 0
        },
        is_stale_result(r, d) ==> (r matches Some(x) && x.delivery_id@ == d.delivery_id@
            && x.status == SettlementStatus::StaleLease && x.deadline_ms == 0),
    decreases n,
{
    if n > 0 && asked[n - 1].index != index {
        law_result_is_the_partitions_last_word(asked, n - 1, index, r, d, status, renewed);
    }
}


/// An answer that was carried out is handed on; a group or a partition that has moved on
/// refuses the request, and a failed write is told as one.
pub proof fn law_claim_is_answered_or_refused(
    answer: Result<GroupAnswer<u64>, WriteError>,
    r: Result<u64, Status>,
)
    requires
        call_ensures(claim_answer::<u64>, (answer,), r),
    ensures
        r is Ok <==> (answer matches Ok(a) && a is Done),
        r matches Ok(t) ==> answer == Ok::<GroupAnswer<u64>, WriteError>(GroupAnswer::Done(t)),
        answer matches Ok(GroupAnswer::StaleEpoch { .. }) ==> (r matches Err(s) && s@.code
            == Code::FailedPrecondition),
        answer matches Ok(GroupAnswer::Invalid { reason }) ==> (r matches Err(s) && s@.code
            == Code::InvalidArgument && s@.message == reason@),
        answer matches Ok(GroupAnswer::Other(_)) ==> (r matches Err(s) && s@.code
            == Code::Internal),
{
}

/// A settlement is answered by a settlement and a renewal by a renewal, with the
/// partition's statuses; any other answer refuses the request.
pub proof fn law_settlement_is_answered_in_kind(
    answer: SettlementAnswer,
    renew: bool,
    shown: &str,
    r: Result<Vec<SettlementStatus>, Status>,
)
    requires
        call_ensures(map_group_settlement_response, (answer, renew, shown), r),
    ensures
        r is Ok <==> (answer is Settled && !renew) || (answer is Renewed && renew),
        r matches Ok(v) ==> answer == (if renew {
            SettlementAnswer::Renewed(v)
        } else {
            SettlementAnswer::Settled(v)
        }),
        answer is StaleEpoch ==> (r matches Err(s) && s@.code == Code::FailedPrecondition),
        answer matches SettlementAnswer::Invalid { reason } ==> (r matches Err(s) && s@.code
            == Code::InvalidArgument && s@.message == reason@),
{
}

/// A fetch waits on only while it has nothing, is held back by nothing, has more to look
/// at, and may still wait.
pub proof fn law_fetch_waits_only_with_nothing_in_hand(
    fetch: GroupFetch,
    wait_ms: u64,
    waited_long_enough: bool,
    done: bool,
)
    requires
        call_ensures(GroupFetch::is_done, (&fetch, wait_ms, waited_long_enough), done),
    ensures
        !done <==> fetch.deliveries@.len() == 0 && !fetch.throttled && !fetch.caught_up && wait_ms
            > 0 && !waited_long_enough,
{
}

/// What a request says of a delivery is what the partition is told of it.
pub proof fn law_partition_is_told_what_the_request_says(
    requests: Vec<GroupSettlementRequest>,
    named: Vec<NamedDelivery>,
    asked: Vec<LiveDelivery>,
    out: Vec<GroupSettlement>,
    i: int,
    k: int,
)
    requires
        call_ensures(named_deliveries, (&requests,), named),
        call_ensures(partition_settlements, (&asked, &requests), out),
        0 <= i < requests@.len(),
        0 <= k < asked@.len(),
    ensures
        named@.len() == requests@.len(),
        named@[i].delivery_id@ == requests@[i].delivery_id@,
        named@[i].acceptable <==> requests@[i].action is Some,
        out@.len() == asked@.len(),
        out@[k].delivery_id == asked@[k].delivery_id,
        requests@[asked@[k].index as int].action == Some(out@[k].action),
        out@[k].reason@ == requests@[asked@[k].index as int].reason@,
{
}

} // verus!
