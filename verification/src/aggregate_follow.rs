//! Reading along with an aggregate type: one shard's partitions, and all shards'
//! partitions seen as one.

use std::collections::BTreeSet;

use vstd::prelude::*;

use crate::aggregate_tokens::{
    AggregateCursor, AggregateTypeId, CURSOR_VERSION, CursorFields, Reading, TypeView, answers,
    cursor_read, cursor_reading, decode_cursor, encode_cursor, written_cursor,
};
use crate::aggregate_types::{
    AggregateTypeDefinition, lemma_groups_name_shards, lemma_is_on, lemma_partitions_on,
    partitions_by_shard, partitions_on, shards_with,
};
use crate::backlog::capped_sum;
use crate::event::Hlc;
use crate::ids::{big_endian, id_bytes};
use crate::maps::IdMap;
use crate::order::lists;
use crate::status::{Code, Status, StatusView, says};

verus! {

/// An event of an aggregate, as it is shown.
#[derive(Debug)]
pub struct AggregateEvent {
    pub aggregate_id: String,
    pub aggregate_version: u64,
    pub event_id: Vec<u8>,
    pub event_type: String,
    pub data: Vec<u8>,
    pub metadata: Vec<u8>,
    pub hlc: Option<Hlc>,
}

/// An event of an aggregate, as it is stored.
#[derive(Debug)]
pub struct StoredAggregateEvent {
    pub aggregate_type: AggregateTypeId,
    pub partition_id: u16,
    pub partition_position: u64,
    pub aggregate_id: String,
    pub aggregate_version: u64,
    pub event_id: u128,
    pub event_type: String,
    pub data: Vec<u8>,
    pub metadata: Vec<u8>,
    pub hlc: Hlc,
}

/// `e` shows the stored event.
pub open spec fn shows_event(e: AggregateEvent, s: StoredAggregateEvent) -> bool {
    &&& e.aggregate_id == s.aggregate_id
    &&& e.aggregate_version == s.aggregate_version
    &&& e.event_id@.len() == 16
    &&& big_endian(e.event_id@) == s.event_id
    &&& e.event_type == s.event_type
    &&& e.data == s.data
    &&& e.metadata == s.metadata
    &&& e.hlc == Some(s.hlc)
}

/// Shows a stored event.
pub fn stored_event_to_proto(s: StoredAggregateEvent) -> (e: AggregateEvent)
    ensures
        shows_event(e, s),
{
    AggregateEvent {
        aggregate_id: s.aggregate_id,
        aggregate_version: s.aggregate_version,
        event_id: id_bytes(s.event_id),
        event_type: s.event_type,
        data: s.data,
        metadata: s.metadata,
        hlc: Some(s.hlc),
    }
}

/// An event on its way between nodes.
#[derive(Debug)]
pub struct InternalAggregateEvent {
    pub partition_id: u32,
    pub partition_position: u64,
    pub event: Option<AggregateEvent>,
}

/// The next position of a partition.
#[derive(Clone, Copy, Debug, PartialEq, Eq, Structural)]
pub struct AggregatePartitionCursor {
    pub partition_id: u32,
    pub next_position: u64,
}

/// What one source tells the merger.
#[derive(Debug)]
pub enum AggregateSourceMessage {
    Event(u64, InternalAggregateEvent),
    /// The source has shown its history, up to these positions.
    CaughtUp(u64, Vec<AggregatePartitionCursor>),
    /// The source is not available.
    Degraded(u64),
}

/// What a reader is told.
#[derive(Debug)]
pub enum FollowPayload {
    Event(AggregateEvent),
    CaughtUp,
    Degraded { unavailable_source_count: u32, retrying: bool },
    Recovered,
}

/// What a reader is told, and where it is after that.
#[derive(Debug)]
pub struct FollowResponse {
    pub payload: FollowPayload,
    pub cursor: Vec<u8>,
}

/// Merges the events of all shards.
pub struct AggregateReadMerger {
    pub cursor: AggregateCursor,
    /// Sources that are still showing their history, or failed.
    pub pending: BTreeSet<u64>,
    pub unavailable: BTreeSet<u64>,
    pub caught_up_sent: bool,
}

/// The state of a merger.
#[verifier::ext_equal]
pub struct MergerView {
    pub version: u8,
    pub id: TypeView,
    pub positions: Seq<u64>,
    pub pending: Set<u64>,
    pub unavailable: Set<u64>,
    pub caught_up_sent: bool,
}

impl View for AggregateReadMerger {
    type V = MergerView;

    open spec fn view(&self) -> MergerView {
        MergerView {
            version: self.cursor.version,
            id: self.cursor.aggregate_type@,
            positions: self.cursor.next_positions@,
            pending: self.pending@,
            unavailable: self.unavailable@,
            caught_up_sent: self.caught_up_sent,
        }
    }
}

/// The partition is one of those that are read.
pub open spec fn is_read(positions: Seq<u64>, partition: u32) -> bool {
    partition <= u16::MAX && partition < positions.len()
}

/// The positions, none behind those of the heads.
pub open spec fn raised(positions: Seq<u64>, heads: Seq<AggregatePartitionCursor>) -> Seq<u64>
    decreases heads.len(),
{
    if heads.len() == 0 {
        positions
    } else {
        let rest = raised(positions, heads.drop_last());
        let h = heads.last();
        if is_read(positions, h.partition_id) && rest[h.partition_id as int] < h.next_position {
            rest.update(h.partition_id as int, h.next_position)
        } else {
            rest
        }
    }
}

/// The state of a merger after a message.
pub open spec fn merger_after(m: MergerView, message: AggregateSourceMessage) -> MergerView {
    match message {
        AggregateSourceMessage::Event(_, e) => if is_read(m.positions, e.partition_id) {
            MergerView {
                positions: m.positions.update(
                    e.partition_id as int,
                    capped_sum(e.partition_position, 1),
                ),
                ..m
            }
        } else {
            m
        },
        AggregateSourceMessage::CaughtUp(source, heads) => MergerView {
            positions: raised(m.positions, heads@),
            pending: m.pending.remove(source),
            unavailable: m.unavailable.remove(source),
            caught_up_sent: m.caught_up_sent || m.pending.remove(source).is_empty(),
            ..m
        },
        AggregateSourceMessage::Degraded(source) => MergerView {
            pending: m.pending.insert(source),
            unavailable: m.unavailable.insert(source),
            ..m
        },
    }
}

/// What a reader is told of a message.
pub open spec fn told(m: MergerView, message: AggregateSourceMessage) -> Seq<FollowPayload> {
    match message {
        AggregateSourceMessage::Event(_, e) => if is_read(m.positions, e.partition_id) {
            match e.event {
                Some(event) => seq![FollowPayload::Event(event)],
                None => Seq::empty(),
            }
        } else {
            Seq::empty()
        },
        AggregateSourceMessage::CaughtUp(source, _) => if m.caught_up_sent {
            if m.unavailable.contains(source) && m.unavailable.remove(source).is_empty() {
                seq![FollowPayload::Recovered]
            } else {
                Seq::empty()
            }
        } else if m.pending.remove(source).is_empty() {
            seq![FollowPayload::CaughtUp]
        } else {
            Seq::empty()
        },
        AggregateSourceMessage::Degraded(source) => if m.unavailable.contains(source) {
            Seq::empty()
        } else {
            seq![
                FollowPayload::Degraded {
                    unavailable_source_count: m.unavailable.insert(source).len() as u32,
                    retrying: true,
                },
            ]
        },
    }
}

fn raise(positions: &mut Vec<u64>, heads: &Vec<AggregatePartitionCursor>)
    ensures
        final(positions)@ == raised(old(positions)@, heads@),
        final(positions)@.len() == old(positions)@.len(),
{
    let mut i: usize = 0;
    proof {
        assert(heads@.take(0) =~= Seq::<AggregatePartitionCursor>::empty());
    }
    while i < heads.len()
        invariant
            i <= heads@.len(),
            positions@ == raised(old(positions)@, heads@.take(i as int)),
            positions@.len() == old(positions)@.len(),
        decreases heads@.len() - i,
    {
        let h = heads[i];
        proof {
            assert(heads@.take(i + 1).drop_last() =~= heads@.take(i as int));
            assert(heads@.take(i + 1).last() == h);
        }
        if h.partition_id <= 65535 {
            let p: usize = h.partition_id as usize;
            if p < positions.len() {
                if positions[p] < h.next_position {
                    positions.set(p, h.next_position);
                }
            }
        }
        i += 1;
    }
    proof {
        assert(heads@.take(heads@.len() as int) =~= heads@);
    }
}

impl AggregateReadMerger {
    /// A merger at the beginning: every source has its history to show.
    pub fn new(cursor: AggregateCursor, source_ids: BTreeSet<u64>) -> (m: AggregateReadMerger)
        ensures
            m.cursor == cursor,
            m@ == (MergerView {
                version: cursor.version,
                id: cursor.aggregate_type@,
                positions: cursor.next_positions@,
                pending: source_ids@,
                unavailable: Set::empty(),
                caught_up_sent: false,
            }),
    {
        AggregateReadMerger {
            cursor,
            pending: source_ids,
            unavailable: BTreeSet::new(),
            caught_up_sent: false,
        }
    }

    /// Takes a message and says what the reader is told.
    pub fn step(&mut self, message: AggregateSourceMessage) -> (out: Vec<FollowPayload>)
        ensures
            final(self)@ == merger_after(old(self)@, message),
            final(self).cursor.version == old(self).cursor.version,
            final(self).cursor.aggregate_type == old(self).cursor.aggregate_type,
            out@ == told(old(self)@, message),
    {
        broadcast use vstd::std_specs::btree::group_btree_axioms;

        let mut out: Vec<FollowPayload> = Vec::new();
        match message {
            AggregateSourceMessage::Event(_, internal) => {
                if internal.partition_id <= 65535 {
                    let p: usize = internal.partition_id as usize;
                    if p < self.cursor.next_positions.len() {
                        self.cursor.next_positions.set(
                            p,
                            internal.partition_position.saturating_add(1),
                        );
                        if let Some(event) = internal.event {
                            out.push(FollowPayload::Event(event));
                        }
                    }
                }
            },
            AggregateSourceMessage::CaughtUp(source, heads) => {
                raise(&mut self.cursor.next_positions, &heads);
                self.pending.remove(&source);
                let was_unavailable = self.unavailable.remove(&source);
                let recovered = was_unavailable && self.unavailable.is_empty();
                if recovered && self.caught_up_sent {
                    out.push(FollowPayload::Recovered);
                }
                if self.pending.is_empty() && !self.caught_up_sent {
                    self.caught_up_sent = true;
                    out.push(FollowPayload::CaughtUp);
                }
            },
            AggregateSourceMessage::Degraded(source) => {
                self.pending.insert(source);
                if self.unavailable.insert(source) {
                    out.push(
                        FollowPayload::Degraded {
                            unavailable_source_count: self.unavailable.len() as u32,
                            retrying: true,
                        },
                    );
                }
            },
        }
        assert(out@ =~= told(old(self)@, message));
        out
    }

    /// Takes a message and gives what the reader is sent: what it is told, each with
    /// where the reader is after the message.
    pub fn apply(&mut self, message: AggregateSourceMessage) -> (out: Vec<FollowResponse>)
        ensures
            final(self)@ == merger_after(old(self)@, message),
            final(self).cursor.version == old(self).cursor.version,
            final(self).cursor.aggregate_type == old(self).cursor.aggregate_type,
            out@.len() == told(old(self)@, message).len(),
            forall|i: int|
                0 <= i < out@.len() ==> (#[trigger] out@[i]).payload == told(
                    old(self)@,
                    message,
                )[i] && out@[i].cursor@ == written_cursor(final(self).cursor@),
    {
        let payloads = self.step(message);
        let ghost all = payloads@;
        let mut out: Vec<FollowResponse> = Vec::new();
        for payload in it: payloads
            invariant
                it.seq() == all,
                out@.len() == it.index(),
                forall|i: int|
                    0 <= i < out@.len() ==> (#[trigger] out@[i]).payload == all[i]
                        && out@[i].cursor@ == written_cursor(self.cursor@),
        {
            let cursor = match encode_cursor(&self.cursor) {
                Ok(bytes) => bytes,
                Err(_) => Vec::new(),
            };
            out.push(FollowResponse { payload, cursor });
        }
        out
    }
}

/// The state of a merger after these messages.
pub open spec fn merger_after_all(m: MergerView, ms: Seq<AggregateSourceMessage>) -> MergerView
    decreases ms.len(),
{
    if ms.len() == 0 {
        m
    } else {
        merger_after(merger_after_all(m, ms.drop_last()), ms.last())
    }
}

proof fn lemma_sent_stays(m: MergerView, ms: Seq<AggregateSourceMessage>, i: int)
    requires
        0 <= i <= ms.len(),
        merger_after_all(m, ms.take(i)).caught_up_sent,
    ensures
        merger_after_all(m, ms).caught_up_sent,
    decreases ms.len(),
{
    if i < ms.len() {
        assert(ms.drop_last().take(i) =~= ms.take(i));
        lemma_sent_stays(m, ms.drop_last(), i);
    } else {
        assert(ms.take(i) =~= ms);
    }
}

/// A reader is told at most once that it has caught up.
pub proof fn law_caught_up_told_once(
    m: MergerView,
    ms: Seq<AggregateSourceMessage>,
    i: int,
    j: int,
)
    requires
        0 <= i < j < ms.len(),
        told(merger_after_all(m, ms.take(i)), ms[i]).contains(FollowPayload::CaughtUp),
    ensures
        !told(merger_after_all(m, ms.take(j)), ms[j]).contains(FollowPayload::CaughtUp),
{
    assert(ms.take(i + 1).drop_last() =~= ms.take(i));
    assert(ms.take(i + 1).last() == ms[i]);
    let first = told(merger_after_all(m, ms.take(i)), ms[i]);
    let k = choose|k: int| 0 <= k < first.len() && first[k] == FollowPayload::CaughtUp;
    assert(first[k] == FollowPayload::CaughtUp);
    assert(merger_after_all(m, ms.take(i + 1)).caught_up_sent);
    assert(ms.take(j).take(i + 1) =~= ms.take(i + 1));
    lemma_sent_stays(m, ms.take(j), i + 1);
}

/// A reader is told that it has caught up only when no source has history left to
/// show.
pub proof fn law_caught_up_means_nothing_pending(m: MergerView, message: AggregateSourceMessage)
    requires
        told(m, message).contains(FollowPayload::CaughtUp),
    ensures
        merger_after(m, message).pending.is_empty(),
        merger_after(m, message).caught_up_sent,
{
    let all = told(m, message);
    let k = choose|k: int| 0 <= k < all.len() && all[k] == FollowPayload::CaughtUp;
    assert(all[k] == FollowPayload::CaughtUp);
}

/// Where a reader is after it was given an event lies right behind the event, and in
/// no other partition has it moved.
pub proof fn law_cursor_follows_event(m: MergerView, source: u64, e: InternalAggregateEvent)
    requires
        told(m, AggregateSourceMessage::Event(source, e)).len() > 0,
    ensures
        ({
            let after = merger_after(m, AggregateSourceMessage::Event(source, e));
            &&& after.positions.len() == m.positions.len()
            &&& after.positions[e.partition_id as int] == capped_sum(e.partition_position, 1)
            &&& forall|p: int|
                0 <= p < m.positions.len() && p != e.partition_id
                    ==> #[trigger] after.positions[p] == m.positions[p]
        }),
{
}

/// Catching up moves no position back.
pub proof fn law_catching_up_moves_forward(
    m: MergerView,
    source: u64,
    heads: Vec<AggregatePartitionCursor>,
)
    ensures
        ({
            let after = merger_after(m, AggregateSourceMessage::CaughtUp(source, heads));
            &&& after.positions.len() == m.positions.len()
            &&& forall|p: int|
                0 <= p < m.positions.len() ==> #[trigger] after.positions[p] >= m.positions[p]
        }),
{
    lemma_raised(m.positions, heads@);
}

proof fn lemma_raised(positions: Seq<u64>, heads: Seq<AggregatePartitionCursor>)
    ensures
        raised(positions, heads).len() == positions.len(),
        forall|p: int|
            0 <= p < positions.len() ==> #[trigger] raised(positions, heads)[p] >= positions[p],
    decreases heads.len(),
{
    if heads.len() > 0 {
        lemma_raised(positions, heads.drop_last());
    }
}

/// Where a reader begins.
#[derive(Debug)]
pub enum FollowStart {
    Beginning,
    Now,
    Cursor(Vec<u8>),
}

/// Reads where a reader begins, and whether it skips what is there already.
pub fn follow_start(start: Option<FollowStart>, d: &AggregateTypeDefinition) -> (r: Result<
    (AggregateCursor, bool),
    Status,
>)
    ensures
        match start {
            Some(FollowStart::Cursor(bytes)) => {
                let reading = cursor_reading(
                    cursor_read(bytes@, usize::BITS),
                    bytes@.len(),
                    d.id@,
                    d.partition_count,
                );
                match r {
                    Ok((c, from_now)) => !from_now && reading == Reading::Reads(c@),
                    Err(s) => answers(
                        Err::<AggregateCursor, Status>(s),
                        reading,
                        "aggregate cursor"@,
                    ),
                }
            },
            _ => r matches Ok((c, from_now)) && from_now == (start matches Some(FollowStart::Now))
                && c@ == first_cursor(d.id@, d.partition_count),
        },
{
    let from_now = match start {
        Some(FollowStart::Cursor(bytes)) => {
            return match decode_cursor(&bytes, &d.id, d.partition_count) {
                Ok(c) => Ok((c, false)),
                Err(s) => Err(s),
            };
        },
        Some(FollowStart::Now) => true,
        _ => false,
    };
    let mut next_positions: Vec<u64> = Vec::new();
    while next_positions.len() < d.partition_count as usize
        invariant
            next_positions@.len() <= d.partition_count,
            forall|i: int|
                0 <= i < next_positions@.len() ==> #[trigger] next_positions@[i] == 0,
        decreases d.partition_count - next_positions@.len(),
    {
        next_positions.push(0);
    }
    let c = AggregateCursor {
        version: CURSOR_VERSION,
        aggregate_type: d.id.clone(),
        next_positions,
    };
    assert(c@ =~= first_cursor(d.id@, d.partition_count));
    Ok((c, from_now))
}

/// The place of a reader at the beginning of each partition.
pub open spec fn first_cursor(id: TypeView, partition_count: u16) -> CursorFields {
    CursorFields {
        version: CURSOR_VERSION,
        id,
        next_positions: Seq::new(partition_count as nat, |i: int| 0u64),
    }
}

/// Where reading goes on in the partitions on a shard.
pub open spec fn cursors_for(partitions: Seq<u16>, positions: Seq<u64>) -> Seq<
    AggregatePartitionCursor,
> {
    partitions.map_values(
        |p: u16|
            AggregatePartitionCursor {
                partition_id: p as u32,
                next_position: positions[p as int],
            },
    )
}

/// The sources of a reader: each shard with partitions, in ascending order, and where
/// reading goes on in these.
pub fn follow_sources(d: &AggregateTypeDefinition, positions: &Vec<u64>) -> (out: Vec<
    (u64, Vec<AggregatePartitionCursor>),
>)
    requires
        d.wf(),
        forall|k: u64| #[trigger] d.placements@.dom().contains(k) ==> k < positions@.len(),
    ensures
        lists(
            out@.map_values(|g: (u64, Vec<AggregatePartitionCursor>)| g.0),
            shards_with(d.placements.entries@),
        ),
        forall|i: int|
            0 <= i < out@.len() ==> (#[trigger] out@[i]).1@ == cursors_for(
                partitions_on(d.placements.entries@, out@[i].0),
                positions@,
            ),
{
    let ghost entries = d.placements.entries@;
    let groups = partitions_by_shard(d);
    let mut out: Vec<(u64, Vec<AggregatePartitionCursor>)> = Vec::new();
    let mut i: usize = 0;
    while i < groups.len()
        invariant
            i <= groups@.len(),
            d.wf(),
            entries == d.placements.entries@,
            forall|k: u64| #[trigger] d.placements@.dom().contains(k) ==> k < positions@.len(),
            forall|i: int|
                0 <= i < groups@.len() ==> (#[trigger] groups@[i]).1@ == partitions_on(
                    entries,
                    groups@[i].0,
                ),
            out@.len() == i,
            forall|k: int| 0 <= k < i ==> (#[trigger] out@[k]).0 == groups@[k].0,
            forall|k: int|
                0 <= k < i ==> (#[trigger] out@[k]).1@ == cursors_for(
                    partitions_on(entries, out@[k].0),
                    positions@,
                ),
        decreases groups@.len() - i,
    {
        let partitions = &groups[i].1;
        let ghost shard = groups@[i as int].0;
        let mut cursors: Vec<AggregatePartitionCursor> = Vec::new();
        let mut k: usize = 0;
        while k < partitions.len()
            invariant
                k <= partitions@.len(),
                d.wf(),
                entries == d.placements.entries@,
                partitions@ == partitions_on(entries, shard),
                forall|k: u64| #[trigger] d.placements@.dom().contains(k) ==> k < positions@.len(),
                cursors@.len() == k,
                forall|j: int|
                    0 <= j < k ==> #[trigger] cursors@[j] == cursors_for(
                        partitions@,
                        positions@,
                    )[j],
            decreases partitions@.len() - k,
        {
            let p: u16 = partitions[k];
            proof {
                lemma_partitions_on(entries, shard, k as int);
                let j = choose|j: int|
                    0 <= j < entries.len() && (#[trigger] entries[j]).1.shard_id == shard
                        && entries[j].0 as u16 == partitions@[k as int];
                d.placements.lemma_entry(j);
                assert(d.placements@.dom().contains(d.placements.key(j)));
            }
            cursors.push(
                AggregatePartitionCursor {
                    partition_id: p as u32,
                    next_position: positions[p as usize],
                },
            );
            k += 1;
        }
        assert(cursors@ =~= cursors_for(partitions@, positions@));
        out.push((groups[i].0, cursors));
        i += 1;
    }
    assert(out@.map_values(|g: (u64, Vec<AggregatePartitionCursor>)| g.0) =~= groups@.map_values(
        |g: (u64, Vec<u16>)| g.0,
    ));
    out
}

/// One shard's part of a reading: the partitions, and how far each was shown.
#[derive(Debug)]
pub struct LocalAggregateSubscription {
    pub aggregate_type: AggregateTypeId,
    /// The next position of each partition.
    pub next_positions: IdMap<u64>,
    /// The history was shown, and how far it goes was said.
    pub announced: bool,
}

/// What has to be read to begin with a partition.
#[derive(Clone, Copy, Debug, PartialEq, Eq, Structural)]
pub enum PartitionStart {
    /// Its end.
    Head(u16),
    /// Its events from a position on.
    History(u16, u64),
}

/// Says what has to be read to begin with a partition.
pub fn open_partition(cursor: &AggregatePartitionCursor, from_now: bool) -> (r: Result<
    PartitionStart,
    Status,
>)
    ensures
        if cursor.partition_id > u16::MAX {
            r matches Err(s) && s@ == partition_out_of_range()
        } else if from_now {
            r == Ok::<PartitionStart, Status>(PartitionStart::Head(cursor.partition_id as u16))
        } else {
            r == Ok::<PartitionStart, Status>(
                PartitionStart::History(cursor.partition_id as u16, cursor.next_position),
            )
        },
{
    if cursor.partition_id > 65535 {
        return Err(Status::of(Code::InvalidArgument, "partition_id 超出范围"));
    }
    let p: u16 = cursor.partition_id as u16;
    if from_now {
        Ok(PartitionStart::Head(p))
    } else {
        Ok(PartitionStart::History(p, cursor.next_position))
    }
}

/// The reply to a partition number that cannot be one.
pub open spec fn partition_out_of_range() -> StatusView {
    says(Code::InvalidArgument, "partition_id 超出范围"@)
}

/// The frame carries the stored event of the partition.
pub open spec fn carries(f: InternalAggregateEvent, partition: u16, s: StoredAggregateEvent) -> bool {
    &&& f.partition_id == partition
    &&& f.partition_position == s.partition_position
    &&& f.event matches Some(e) && shows_event(e, s)
}

/// The next position after these events.
pub open spec fn next_after(start: u64, events: Seq<StoredAggregateEvent>) -> u64 {
    if events.len() == 0 {
        start
    } else {
        capped_sum(events.last().partition_position, 1)
    }
}

fn frame(partition: u16, s: StoredAggregateEvent) -> (f: InternalAggregateEvent)
    ensures
        carries(f, partition, s),
{
    InternalAggregateEvent {
        partition_id: partition as u32,
        partition_position: s.partition_position,
        event: Some(stored_event_to_proto(s)),
    }
}

/// The event is new to the subscription.
pub open spec fn is_new_event(
    id: TypeView,
    positions: Map<u64, u64>,
    e: StoredAggregateEvent,
) -> bool {
    &&& e.aggregate_type@ == id
    &&& positions.dom().contains(e.partition_id as u64)
    &&& e.partition_position >= positions[e.partition_id as u64]
}

impl LocalAggregateSubscription {
    pub open spec fn wf(&self) -> bool {
        self.next_positions.wf() && forall|k: u64| #[trigger]
            self.next_positions@.dom().contains(k) ==> k <= u16::MAX
    }

    /// No partitions yet.
    pub fn new(aggregate_type: AggregateTypeId) -> (s: LocalAggregateSubscription)
        ensures
            s.wf(),
            s.aggregate_type == aggregate_type,
            s.next_positions@ == Map::<u64, u64>::empty(),
            !s.announced,
    {
        LocalAggregateSubscription {
            aggregate_type,
            next_positions: IdMap::new(),
            announced: false,
        }
    }

    /// Begins with a partition at its end.
    pub fn at_head(&mut self, partition: u16, head: Result<u64, String>) -> (r: Result<(), Status>)
        requires
            old(self).wf(),
            !old(self).announced,
        ensures
            final(self).wf(),
            !final(self).announced,
            final(self).aggregate_type == old(self).aggregate_type,
            match head {
                Ok(h) => r is Ok && final(self).next_positions@
                    == old(self).next_positions@.insert(partition as u64, h),
                Err(e) => (r matches Err(s) && s@ == says(Code::Internal, e@))
                    && final(self).next_positions@ == old(self).next_positions@,
            },
    {
        match head {
            Ok(h) => {
                self.next_positions.insert(partition as u64, h);
                Ok(())
            },
            Err(e) => Err(Status::new(Code::Internal, e)),
        }
    }

    /// Begins with a partition at a position, and shows its history from there.
    pub fn history(
        &mut self,
        partition: u16,
        start: u64,
        read: Result<Vec<StoredAggregateEvent>, String>,
    ) -> (r: Result<Vec<InternalAggregateEvent>, Status>)
        requires
            old(self).wf(),
            !old(self).announced,
        ensures
            final(self).wf(),
            !final(self).announced,
            final(self).aggregate_type == old(self).aggregate_type,
            match read {
                Ok(events) => final(self).next_positions@ == old(self).next_positions@.insert(
                    partition as u64,
                    next_after(start, events@),
                ) && (r matches Ok(out) && out@.len() == events@.len() && forall|i: int|
                    0 <= i < out@.len() ==> carries(#[trigger] out@[i], partition, events@[i])),
                Err(e) => (r matches Err(s) && s@ == says(Code::Internal, e@))
                    && final(self).next_positions@ == old(self).next_positions@.insert(
                    partition as u64,
                    start,
                ),
            },
    {
        self.next_positions.insert(partition as u64, start);
        let events = match read {
            Ok(events) => events,
            Err(e) => return Err(Status::new(Code::Internal, e)),
        };
        let ghost all = events@;
        let ghost before = old(self).next_positions@;
        let mut out: Vec<InternalAggregateEvent> = Vec::new();
        proof {
            assert(all.take(0) =~= Seq::<StoredAggregateEvent>::empty());
        }
        for e in it: events
            invariant
                it.seq() == all,
                self.wf(),
                !self.announced,
                self.aggregate_type == old(self).aggregate_type,
                before == old(self).next_positions@,
                self.next_positions@ == before.insert(
                    partition as u64,
                    next_after(start, all.take(it.index() as int)),
                ),
                out@.len() == it.index(),
                forall|i: int|
                    0 <= i < out@.len() ==> carries(#[trigger] out@[i], partition, all[i]),
        {
            let ghost n = it.index() as int;
            proof {
                assert(all[n] == e);
                assert(all.take(n + 1).last() == e);
            }
            let next: u64 = e.partition_position.saturating_add(1);
            self.next_positions.insert(partition as u64, next);
            proof {
                assert(self.next_positions@ =~= before.insert(
                    partition as u64,
                    next_after(start, all.take(n + 1)),
                ));
            }
            out.push(frame(partition, e));
        }
        proof {
            assert(all.take(all.len() as int) =~= all);
        }
        Ok(out)
    }

    /// Says, once, how far each partition was shown, in ascending order.
    pub fn caught_up(&mut self) -> (out: Vec<AggregatePartitionCursor>)
        requires
            old(self).wf(),
            !old(self).announced,
        ensures
            final(self).wf(),
            final(self).announced,
            final(self).aggregate_type == old(self).aggregate_type,
            final(self).next_positions == old(self).next_positions,
            out@.len() == old(self).next_positions.entries@.len(),
            forall|i: int|
                0 <= i < out@.len() ==> (#[trigger] out@[i]).partition_id
                    == old(self).next_positions.entries@[i].0 && out@[i].next_position
                    == old(self).next_positions.entries@[i].1,
    {
        let mut out: Vec<AggregatePartitionCursor> = Vec::new();
        let mut i: usize = 0;
        while i < self.next_positions.entries.len()
            invariant
                i <= self.next_positions.entries@.len(),
                self.wf(),
                self.aggregate_type == old(self).aggregate_type,
                self.next_positions == old(self).next_positions,
                out@.len() == i,
                forall|k: int|
                    0 <= k < i ==> (#[trigger] out@[k]).partition_id
                        == self.next_positions.entries@[k].0 && out@[k].next_position
                        == self.next_positions.entries@[k].1,
            decreases self.next_positions.entries@.len() - i,
        {
            proof {
                self.next_positions.lemma_entry(i as int);
                assert(self.next_positions@.dom().contains(self.next_positions.key(i as int)));
            }
            out.push(
                AggregatePartitionCursor {
                    partition_id: self.next_positions.entries[i].0 as u32,
                    next_position: self.next_positions.entries[i].1,
                },
            );
            i += 1;
        }
        self.announced = true;
        out
    }

    /// Takes an event that was just written, and shows it if it is new: of this
    /// aggregate type, of one of these partitions, and not shown before.  This begins
    /// where the history has ended.
    pub fn live(&mut self, event: StoredAggregateEvent) -> (r: Option<InternalAggregateEvent>)
        requires
            old(self).wf(),
            old(self).announced,
        ensures
            final(self).wf(),
            final(self).announced,
            final(self).aggregate_type == old(self).aggregate_type,
            if is_new_event(old(self).aggregate_type@, old(self).next_positions@, event) {
                (r matches Some(f) && carries(f, event.partition_id, event))
                    && final(self).next_positions@ == old(self).next_positions@.insert(
                    event.partition_id as u64,
                    capped_sum(event.partition_position, 1),
                )
            } else {
                r is None && final(self).next_positions@ == old(self).next_positions@
            },
    {
        if !event.aggregate_type.same(&self.aggregate_type) {
            return None;
        }
        let p: u16 = event.partition_id;
        let next: u64 = match self.next_positions.get(p as u64) {
            Some(next) => *next,
            None => return None,
        };
        if event.partition_position < next {
            return None;
        }
        self.next_positions.insert(p as u64, event.partition_position.saturating_add(1));
        Some(frame(p, event))
    }
}

/// What a subscriber is told that could not keep up.
pub fn lagged() -> (s: Status)
    ensures
        s@ == says(Code::Unavailable, "aggregate subscription lagged; resume from cursor"@),
{
    Status::of(Code::Unavailable, "aggregate subscription lagged; resume from cursor")
}

/// The positions after a live event.
pub open spec fn positions_after(
    id: TypeView,
    positions: Map<u64, u64>,
    e: StoredAggregateEvent,
) -> Map<u64, u64> {
    if is_new_event(id, positions, e) {
        positions.insert(e.partition_id as u64, capped_sum(e.partition_position, 1))
    } else {
        positions
    }
}

/// The positions after live events.
pub open spec fn positions_after_all(
    id: TypeView,
    positions: Map<u64, u64>,
    events: Seq<StoredAggregateEvent>,
) -> Map<u64, u64>
    decreases events.len(),
{
    if events.len() == 0 {
        positions
    } else {
        positions_after(id, positions_after_all(id, positions, events.drop_last()), events.last())
    }
}

proof fn lemma_positions_rise(
    id: TypeView,
    positions: Map<u64, u64>,
    events: Seq<StoredAggregateEvent>,
    i: int,
    p: u64,
)
    requires
        0 <= i <= events.len(),
        positions_after_all(id, positions, events.take(i)).dom().contains(p),
    ensures
        positions_after_all(id, positions, events).dom().contains(p),
        positions_after_all(id, positions, events)[p] >= positions_after_all(
            id,
            positions,
            events.take(i),
        )[p],
    decreases events.len(),
{
    if i < events.len() {
        assert(events.drop_last().take(i) =~= events.take(i));
        lemma_positions_rise(id, positions, events.drop_last(), i, p);
    } else {
        assert(events.take(i) =~= events);
    }
}

/// Of the live events of a partition that a subscription shows, each has a higher
/// position than those shown before.  (None is higher than the largest position.)
pub proof fn law_live_positions_increase(
    id: TypeView,
    positions: Map<u64, u64>,
    events: Seq<StoredAggregateEvent>,
    i: int,
    j: int,
)
    requires
        0 <= i < j < events.len(),
        events[i].partition_id == events[j].partition_id,
        events[i].partition_position < u64::MAX,
        is_new_event(id, positions_after_all(id, positions, events.take(i)), events[i]),
        is_new_event(id, positions_after_all(id, positions, events.take(j)), events[j]),
    ensures
        events[i].partition_position < events[j].partition_position,
{
    let p = events[i].partition_id as u64;
    assert(events.take(i + 1).drop_last() =~= events.take(i));
    assert(events.take(i + 1).last() == events[i]);
    assert(events.take(j).take(i + 1) =~= events.take(i + 1));
    lemma_positions_rise(id, positions, events.take(j), i + 1, p);
}

/// A source of a reader: where it goes on after it was lost.
#[derive(Debug)]
pub struct AggregateSource {
    pub shard_id: u64,
    pub cursors: Vec<AggregatePartitionCursor>,
    pub from_now: bool,
}

/// What a source is sent.
#[derive(Debug)]
pub enum SourceFrame {
    Event(InternalAggregateEvent),
    CaughtUp(Vec<AggregatePartitionCursor>),
    Empty,
}

/// The place of a partition among the cursors: the first that names it.
pub open spec fn cursor_place(cursors: Seq<AggregatePartitionCursor>, partition: u32) -> Option<int>
    decreases cursors.len(),
{
    if cursors.len() == 0 {
        None
    } else if cursors[0].partition_id == partition {
        Some(0)
    } else {
        match cursor_place(cursors.skip(1), partition) {
            Some(i) => Some(i + 1),
            None => None,
        }
    }
}

/// The cursors after an event.
pub open spec fn cursors_after_event(
    cursors: Seq<AggregatePartitionCursor>,
    partition: u32,
    position: u64,
) -> Seq<AggregatePartitionCursor> {
    match cursor_place(cursors, partition) {
        Some(i) => cursors.update(
            i,
            AggregatePartitionCursor {
                partition_id: partition,
                next_position: capped_sum(position, 1),
            },
        ),
        None => cursors,
    }
}

/// The cursors, none behind those of the heads.
pub open spec fn cursors_after_heads(
    cursors: Seq<AggregatePartitionCursor>,
    heads: Seq<AggregatePartitionCursor>,
) -> Seq<AggregatePartitionCursor>
    decreases heads.len(),
{
    if heads.len() == 0 {
        cursors
    } else {
        let rest = cursors_after_heads(cursors, heads.drop_last());
        let h = heads.last();
        match cursor_place(rest, h.partition_id) {
            Some(i) => rest.update(
                i,
                AggregatePartitionCursor {
                    partition_id: h.partition_id,
                    next_position: if rest[i].next_position < h.next_position {
                        h.next_position
                    } else {
                        rest[i].next_position
                    },
                },
            ),
            None => rest,
        }
    }
}

proof fn lemma_cursor_place(cursors: Seq<AggregatePartitionCursor>, partition: u32, i: int)
    requires
        0 <= i <= cursors.len(),
        forall|k: int| 0 <= k < i ==> (#[trigger] cursors[k]).partition_id != partition,
    ensures
        i < cursors.len() && cursors[i].partition_id == partition ==> cursor_place(
            cursors,
            partition,
        ) == Some(i),
        i == cursors.len() ==> cursor_place(cursors, partition) is None,
    decreases i,
{
    if i > 0 {
        assert(cursors[0].partition_id != partition);
        assert forall|k: int| 0 <= k < i - 1 implies (#[trigger] cursors.skip(1)[k]).partition_id
            != partition by {
            assert(cursors.skip(1)[k] == cursors[k + 1]);
        }
        lemma_cursor_place(cursors.skip(1), partition, i - 1);
    }
}

fn find_cursor(cursors: &Vec<AggregatePartitionCursor>, partition: u32) -> (r: Option<usize>)
    ensures
        match r {
            Some(i) => i < cursors@.len() && cursors@[i as int].partition_id == partition
                && cursor_place(cursors@, partition) == Some(i as int),
            None => cursor_place(cursors@, partition) is None,
        },
{
    let mut i: usize = 0;
    while i < cursors.len()
        invariant
            i <= cursors@.len(),
            forall|k: int| 0 <= k < i ==> (#[trigger] cursors@[k]).partition_id != partition,
        decreases cursors@.len() - i,
    {
        if cursors[i].partition_id == partition {
            proof {
                lemma_cursor_place(cursors@, partition, i as int);
            }
            return Some(i);
        }
        i += 1;
    }
    proof {
        lemma_cursor_place(cursors@, partition, i as int);
    }
    None
}

impl AggregateSource {
    /// Takes a frame: notes how far the source is, and hands it on.
    pub fn on_frame(&mut self, frame: SourceFrame) -> (r: Option<AggregateSourceMessage>)
        ensures
            final(self).shard_id == old(self).shard_id,
            match frame {
                SourceFrame::Event(e) => r == Some(
                    AggregateSourceMessage::Event(old(self).shard_id, e),
                ) && final(self).from_now == old(self).from_now && final(self).cursors@
                    == cursors_after_event(
                    old(self).cursors@,
                    e.partition_id,
                    e.partition_position,
                ),
                SourceFrame::CaughtUp(heads) => r == Some(
                    AggregateSourceMessage::CaughtUp(old(self).shard_id, heads),
                ) && !final(self).from_now && final(self).cursors@ == cursors_after_heads(
                    old(self).cursors@,
                    heads@,
                ),
                SourceFrame::Empty => r is None && *final(self) == *old(self),
            },
    {
        match frame {
            SourceFrame::Event(e) => {
                if let Some(i) = find_cursor(&self.cursors, e.partition_id) {
                    self.cursors.set(
                        i,
                        AggregatePartitionCursor {
                            partition_id: e.partition_id,
                            next_position: e.partition_position.saturating_add(1),
                        },
                    );
                }
                Some(AggregateSourceMessage::Event(self.shard_id, e))
            },
            SourceFrame::CaughtUp(heads) => {
                let mut k: usize = 0;
                proof {
                    assert(heads@.take(0) =~= Seq::<AggregatePartitionCursor>::empty());
                }
                while k < heads.len()
                    invariant
                        k <= heads@.len(),
                        self.shard_id == old(self).shard_id,
                        self.cursors@ == cursors_after_heads(
                            old(self).cursors@,
                            heads@.take(k as int),
                        ),
                    decreases heads@.len() - k,
                {
                    let h = heads[k];
                    proof {
                        assert(heads@.take(k + 1).drop_last() =~= heads@.take(k as int));
                        assert(heads@.take(k + 1).last() == h);
                    }
                    if let Some(i) = find_cursor(&self.cursors, h.partition_id) {
                        let next_position: u64 = if self.cursors[i].next_position
                            < h.next_position {
                            h.next_position
                        } else {
                            self.cursors[i].next_position
                        };
                        self.cursors.set(
                            i,
                            AggregatePartitionCursor {
                                partition_id: h.partition_id,
                                next_position,
                            },
                        );
                    }
                    k += 1;
                }
                proof {
                    assert(heads@.take(heads@.len() as int) =~= heads@);
                }
                self.from_now = false;
                Some(AggregateSourceMessage::CaughtUp(self.shard_id, heads))
            },
            SourceFrame::Empty => None,
        }
    }

    /// What is told when the source could not be opened.
    pub fn on_closed(&self) -> (m: AggregateSourceMessage)
        ensures
            m == AggregateSourceMessage::Degraded(self.shard_id),
    {
        AggregateSourceMessage::Degraded(self.shard_id)
    }

    /// What is told, if anything, when the source has ended: a reader from now on that
    /// has not caught up misses nothing when the source just ends.
    pub fn on_end(&self, failed: bool) -> (r: Option<AggregateSourceMessage>)
        ensures
            r == (if failed || !self.from_now {
                Some(AggregateSourceMessage::Degraded(self.shard_id))
            } else {
                None
            }),
    {
        if failed || !self.from_now {
            Some(AggregateSourceMessage::Degraded(self.shard_id))
        } else {
            None
        }
    }
}


/// An event is passed on if its partition is one that the reader follows, and then the
/// reader stands right behind it there and where it was in all other partitions.  Nothing
/// else changes.
pub proof fn law_reader_is_given_the_event_and_stands_behind_it(
    this: &mut AggregateReadMerger,
    source: u64,
    e: InternalAggregateEvent,
    out: Vec<FollowPayload>,
)
    requires
        call_ensures(
            AggregateReadMerger::step,
            (this, AggregateSourceMessage::Event(source, e)),
            out,
        ),
    ensures
        ({
            let was = old(this).cursor.next_positions@;
            let now = final(this).cursor.next_positions@;
            let known = e.partition_id <= 65535 && e.partition_id < was.len();
            &&& now.len() == was.len()
            &&& known && e.event is Some ==> out@.len() == 1 && out@[0] == FollowPayload::Event(
                e.event->0,
            )
            &&& !known || e.event is None ==> out@.len() == 0
            &&& known ==> now[e.partition_id as int] == (if e.partition_position == u64::MAX {
                u64::MAX
            } else {
                (e.partition_position + 1) as u64
            })
            &&& forall|p: int|
                0 <= p < was.len() && (p != e.partition_id || !known) ==> #[trigger] now[p]
                    == was[p]
            &&& final(this).pending@ == old(this).pending@ && final(this).unavailable@
                == old(this).unavailable@ && final(this).caught_up_sent
                == old(this).caught_up_sent
        }),
{
    let m = old(this)@;
    assert(final(this)@ == merger_after(m, AggregateSourceMessage::Event(source, e)));
    assert(final(this)@.positions == final(this).cursor.next_positions@);
    assert(final(this)@.pending == final(this).pending@);
    assert(final(this)@.unavailable == final(this).unavailable@);
}

/// The best head that is reported for a partition, or where the reader is if that is
/// further.
proof fn lemma_raised_is(positions: Seq<u64>, heads: Seq<AggregatePartitionCursor>, p: int)
    requires
        0 <= p < positions.len(),
        p <= 65535,
    ensures
        raised(positions, heads).len() == positions.len(),
        raised(positions, heads)[p] >= positions[p],
        forall|i: int|
            0 <= i < heads.len() && (#[trigger] heads[i]).partition_id == p ==> raised(
                positions,
                heads,
            )[p] >= heads[i].next_position,
        raised(positions, heads)[p] == positions[p] || exists|i: int|
            0 <= i < heads.len() && (#[trigger] heads[i]).partition_id == p
                && heads[i].next_position == raised(positions, heads)[p],
    decreases heads.len(),
{
    if heads.len() > 0 {
        let rest = heads.drop_last();
        let n = heads.len() - 1;
        lemma_raised_is(positions, rest, p);
        lemma_raised(positions, rest);
        assert(heads.last() == heads[n]);
        let was = raised(positions, rest);
        let now = raised(positions, heads);
        assert forall|i: int|
            0 <= i < heads.len() && (#[trigger] heads[i]).partition_id == p implies now[p]
            >= heads[i].next_position by {
            if i < n {
                assert(rest[i] == heads[i]);
            }
        }
        if was[p] != positions[p] && now[p] == was[p] {
            let i = choose|i: int|
                0 <= i < rest.len() && (#[trigger] rest[i]).partition_id == p
                    && rest[i].next_position == was[p];
            assert(heads[i] == rest[i]);
        }
    }
}

/// A source that has caught up is waited for no longer and is no longer missing.  The
/// reader is told that all is caught up, once, when no other source is waited for; later,
/// that all is well again when the last missing source is back.  Where it stands moves up
/// to the heads that are reported, never back.
pub proof fn law_reader_is_told_when_all_sources_are_there(
    this: &mut AggregateReadMerger,
    source: u64,
    heads: Vec<AggregatePartitionCursor>,
    out: Vec<FollowPayload>,
    p: int,
)
    requires
        call_ensures(
            AggregateReadMerger::step,
            (this, AggregateSourceMessage::CaughtUp(source, heads)),
            out,
        ),
    ensures
        ({
            let others_pending = exists|s: u64|
                s != source && #[trigger] old(this).pending@.contains(s);
            let others_missing = exists|s: u64|
                s != source && #[trigger] old(this).unavailable@.contains(s);
            &&& forall|s: u64| #[trigger]
                final(this).pending@.contains(s) <==> old(this).pending@.contains(s) && s != source
            &&& forall|s: u64| #[trigger]
                final(this).unavailable@.contains(s) <==> old(this).unavailable@.contains(s) && s
                    != source
            &&& final(this).caught_up_sent <==> old(this).caught_up_sent || !others_pending
            &&& !old(this).caught_up_sent && !others_pending ==> out@.len() == 1 && out@[0]
                == FollowPayload::CaughtUp
            &&& !old(this).caught_up_sent && others_pending ==> out@.len() == 0
            &&& old(this).caught_up_sent && old(this).unavailable@.contains(source)
                && !others_missing ==> out@.len() == 1 && out@[0] == FollowPayload::Recovered
            &&& old(this).caught_up_sent && (!old(this).unavailable@.contains(source)
                || others_missing) ==> out@.len() == 0
        }),
        0 <= p < old(this).cursor.next_positions@.len() && p <= 65535 ==> {
            let was = old(this).cursor.next_positions@[p];
            let now = final(this).cursor.next_positions@[p];
            &&& now >= was
            &&& forall|i: int|
                0 <= i < heads@.len() && (#[trigger] heads@[i]).partition_id == p ==> now
                    >= heads@[i].next_position
            &&& now == was || exists|i: int|
                0 <= i < heads@.len() && (#[trigger] heads@[i]).partition_id == p
                    && heads@[i].next_position == now
        },
{
    let m = old(this)@;
    let message = AggregateSourceMessage::CaughtUp(source, heads);
    assert(final(this)@ == merger_after(m, message));
    assert(final(this)@.positions == final(this).cursor.next_positions@);
    assert(final(this)@.pending == final(this).pending@);
    assert(final(this)@.unavailable == final(this).unavailable@);
    lemma_alone(m.pending, source);
    lemma_alone(m.unavailable, source);
    if 0 <= p < m.positions.len() && p <= 65535 {
        lemma_raised_is(m.positions, heads@, p);
    }
}

proof fn lemma_alone(s: Set<u64>, source: u64)
    ensures
        s.remove(source).is_empty() <==> !(exists|x: u64| x != source && #[trigger] s.contains(x)),
{
    let left = s.remove(source);
    if left.is_empty() {
        assert forall|x: u64| x != source implies !#[trigger] s.contains(x) by {
            assert(!left.contains(x));
        }
    } else {
        if !(exists|x: u64| x != source && #[trigger] s.contains(x)) {
            assert(left =~= Set::empty());
        }
    }
}

/// A source that ends is waited for again and is missing; the reader is told how many are,
/// once for each time a source goes missing.
pub proof fn law_reader_is_told_how_many_sources_are_missing(
    this: &mut AggregateReadMerger,
    source: u64,
    out: Vec<FollowPayload>,
)
    requires
        call_ensures(
            AggregateReadMerger::step,
            (this, AggregateSourceMessage::Degraded(source)),
            out,
        ),
    ensures
        final(this).pending@ == old(this).pending@.insert(source),
        final(this).unavailable@ == old(this).unavailable@.insert(source),
        final(this).cursor.next_positions@ == old(this).cursor.next_positions@,
        final(this).caught_up_sent == old(this).caught_up_sent,
        old(this).unavailable@.contains(source) ==> out@.len() == 0,
        !old(this).unavailable@.contains(source) && old(this).unavailable@.finite()
            && old(this).unavailable@.len() < u32::MAX ==> out@.len() == 1 && out@[0] == (
        FollowPayload::Degraded {
            unavailable_source_count: (old(this).unavailable@.len() + 1) as u32,
            retrying: true,
        }),
{
    let m = old(this)@;
    let message = AggregateSourceMessage::Degraded(source);
    assert(final(this)@ == merger_after(m, message));
    assert(final(this)@.positions == final(this).cursor.next_positions@);
    assert(final(this)@.pending == final(this).pending@);
    assert(final(this)@.unavailable == final(this).unavailable@);
}

/// Whatever a reader is told comes with where it then stands, written down so that it can
/// be read back.
pub proof fn law_reader_is_told_where_it_stands(
    this: &mut AggregateReadMerger,
    message: AggregateSourceMessage,
    out: Vec<FollowResponse>,
    i: int,
    bytes: Vec<u8>,
)
    requires
        call_ensures(AggregateReadMerger::apply, (this, message), out),
        0 <= i < out@.len(),
        call_ensures(encode_cursor, (&final(this).cursor,), Ok::<Vec<u8>, Status>(bytes)),
    ensures
        out@[i].cursor@ == bytes@,
{
}

/// A reader that begins at the beginning or now stands at 0 in every partition; one that
/// comes with its place stands there, if it is one of this type.
pub proof fn law_reader_begins_where_it_says(
    start: Option<FollowStart>,
    d: AggregateTypeDefinition,
    r: Result<(AggregateCursor, bool), Status>,
)
    requires
        call_ensures(follow_start, (start, &d), r),
    ensures
        !(start matches Some(FollowStart::Cursor(_))) ==> {
            &&& r matches Ok((c, from_now))
            &&& from_now <==> (start matches Some(FollowStart::Now))
            &&& c.version == 1
            &&& c.aggregate_type.business_space@ == d.id.business_space@
            &&& c.aggregate_type.aggregate_type@ == d.id.aggregate_type@
            &&& c.next_positions@.len() == d.partition_count
            &&& forall|p: int| 0 <= p < d.partition_count ==> #[trigger] c.next_positions@[p] == 0
        },
        start matches Some(FollowStart::Cursor(bytes)) ==> forall|read: Result<
            AggregateCursor,
            Status,
        >| #[trigger]
            call_ensures(decode_cursor, (&bytes, &d.id, d.partition_count), read) ==> match r {
                Ok((c, from_now)) => !from_now && (read matches Ok(k) && c.next_positions@
                    == k.next_positions@),
                Err(s) => read is Err,
            },
{
    if !(start matches Some(FollowStart::Cursor(_))) {
        if let Ok((c, from_now)) = r {
            let first = first_cursor(d.id@, d.partition_count);
            assert(c@ == first);
            assert(c@.id == c.aggregate_type@);
            assert(c.next_positions@ == first.next_positions);
        }
    }
}

/// A shard is asked for a partition only where the partition is placed on it, and from
/// where the reader stands there.
pub proof fn law_partitions_are_followed_from_where_the_reader_stands(
    d: AggregateTypeDefinition,
    positions: Vec<u64>,
    out: Vec<(u64, Vec<AggregatePartitionCursor>)>,
    i: int,
    m: int,
)
    requires
        d.wf(),
        call_ensures(follow_sources, (&d, &positions), out),
        0 <= i < out@.len(),
        0 <= m < out@[i].1@.len(),
    ensures
        ({
            let c = out@[i].1@[m];
            &&& d.placements@.dom().contains(c.partition_id as u64)
            &&& d.placements@[c.partition_id as u64].shard_id == out@[i].0
            &&& c.partition_id < positions@.len() ==> c.next_position
                == positions@[c.partition_id as int]
        }),
{
    let entries = d.placements.entries@;
    let on = partitions_on(entries, out@[i].0);
    let c = out@[i].1@[m];
    assert(out@[i].1@ == cursors_for(on, positions@));
    assert(c.partition_id == on[m] as u32 && c.next_position == positions@[on[m] as int]);
    lemma_partitions_on(entries, out@[i].0, m);
    let k = choose|k: int|
        0 <= k < entries.len() && (#[trigger] entries[k]).1.shard_id == out@[i].0
            && entries[k].0 as u16 == on[m];
    d.placements.lemma_entry(k);
    assert(d.placements@.dom().contains(entries[k].0));
    assert(entries[k].0 == c.partition_id);
}

/// Every partition of the type is followed.
pub proof fn law_every_partition_is_followed(
    d: AggregateTypeDefinition,
    positions: Vec<u64>,
    out: Vec<(u64, Vec<AggregatePartitionCursor>)>,
    partition: u16,
)
    requires
        d.wf(),
        call_ensures(follow_sources, (&d, &positions), out),
        d.placements@.dom().contains(partition as u64),
    ensures
        forall|i: int, j: int| 0 <= i < j < out@.len() ==> out@[i].0 < out@[j].0,
        exists|i: int|
            0 <= i < out@.len() && (#[trigger] out@[i]).0
                == d.placements@[partition as u64].shard_id && exists|m: int|
                0 <= m < out@[i].1@.len() && (#[trigger] out@[i].1@[m]).partition_id == partition,
{
    let entries = d.placements.entries@;
    let ids = out@.map_values(|g: (u64, Vec<AggregatePartitionCursor>)| g.0);
    assert forall|i: int, j: int| 0 <= i < j < out@.len() implies out@[i].0 < out@[j].0 by {
        assert(ids[i] < ids[j]);
    }
    let shard = d.placements@[partition as u64].shard_id;
    let k = d.placements.index(partition as u64);
    assert(0 <= k < entries.len() && d.placements.key(k) == partition as u64);
    assert(entries[k].0 == partition as u64 && entries[k].1.shard_id == shard);
    lemma_groups_name_shards(entries, ids, shard);
    let i = choose|i: int| 0 <= i < ids.len() && ids[i] == shard;
    assert(out@[i].0 == shard);
    lemma_is_on(entries, shard, partition);
    let on = partitions_on(entries, shard);
    let m = choose|m: int| 0 <= m < on.len() && on[m] == partition;
    assert(out@[i].1@ == cursors_for(on, positions@));
    assert(out@[i].1@[m].partition_id == partition);
}

/// An event of an aggregate is shown with all that is stored of it, its id as the sixteen
/// bytes that are read back to the same id.
pub proof fn law_aggregate_event_is_shown_as_stored(s: StoredAggregateEvent, e: AggregateEvent)
    requires
        call_ensures(stored_event_to_proto, (s,), e),
    ensures
        e.aggregate_id@ == s.aggregate_id@,
        e.aggregate_version == s.aggregate_version,
        e.event_type@ == s.event_type@,
        e.data@ == s.data@,
        e.metadata@ == s.metadata@,
        e.hlc == Some(s.hlc),
        e.event_id@.len() == 16,
        big_endian(e.event_id@) == s.event_id,
{
}

/// A shard sends a committed event exactly where it is of the type that is followed, of a
/// partition that is followed, and not before the position that is next there; the next
/// position is then the one behind it.
pub proof fn law_shard_sends_exactly_the_events_that_are_next(
    this: &mut LocalAggregateSubscription,
    e: StoredAggregateEvent,
    r: Option<InternalAggregateEvent>,
)
    requires
        call_ensures(LocalAggregateSubscription::live, (this, e), r),
    ensures
        ({
            let was = old(this).next_positions@;
            let now = final(this).next_positions@;
            let p = e.partition_id as u64;
            &&& r is Some <==> e.aggregate_type.business_space@
                == old(this).aggregate_type.business_space@ && e.aggregate_type.aggregate_type@
                == old(this).aggregate_type.aggregate_type@ && was.dom().contains(p)
                && e.partition_position >= was[p]
            &&& r matches Some(f) ==> {
                &&& f.partition_id == e.partition_id && f.partition_position
                    == e.partition_position
                &&& f.event matches Some(shown) && shown.aggregate_id@ == e.aggregate_id@
                    && shown.aggregate_version == e.aggregate_version && shown.data@ == e.data@
                    && shown.metadata@ == e.metadata@ && shown.event_type@ == e.event_type@
                    && big_endian(shown.event_id@) == e.event_id && shown.hlc == Some(e.hlc)
                &&& now.dom().contains(p)
                &&& e.partition_position < u64::MAX ==> now[p] == e.partition_position + 1
            }
            &&& forall|q: u64|
                q != p || r is None ==> (#[trigger] now.dom().contains(q) <==> was.dom().contains(
                    q,
                )) && (was.dom().contains(q) ==> now[q] == was[q])
        }),
{
    assert(e.aggregate_type@ == old(this).aggregate_type@ <==> e.aggregate_type.business_space@
        == old(this).aggregate_type.business_space@ && e.aggregate_type.aggregate_type@
        == old(this).aggregate_type.aggregate_type@);
}

/// A shard sends the history of a partition, event by event, and then stands behind its
/// last event, or where it was asked to begin if there was none.
pub proof fn law_shard_sends_the_history_and_stands_behind_it(
    this: &mut LocalAggregateSubscription,
    partition: u16,
    start: u64,
    events: Vec<StoredAggregateEvent>,
    out: Vec<InternalAggregateEvent>,
)
    requires
        call_ensures(
            LocalAggregateSubscription::history,
            (this, partition, start, Ok::<Vec<StoredAggregateEvent>, String>(events)),
            Ok::<Vec<InternalAggregateEvent>, Status>(out),
        ),
    ensures
        out@.len() == events@.len(),
        forall|i: int|
            0 <= i < out@.len() ==> (#[trigger] out@[i]).partition_id == partition
                && out@[i].partition_position == events@[i].partition_position && (
            out@[i].event matches Some(shown) && shown.aggregate_id@ == events@[i].aggregate_id@
                && shown.aggregate_version == events@[i].aggregate_version && shown.data@
                == events@[i].data@ && shown.metadata@ == events@[i].metadata@ && shown.event_type@
                == events@[i].event_type@ && big_endian(shown.event_id@) == events@[i].event_id
                && shown.hlc == Some(events@[i].hlc)),
        final(this).next_positions@.dom().contains(partition as u64),
        events@.len() == 0 ==> final(this).next_positions@[partition as u64] == start,
        events@.len() > 0 && events@.last().partition_position < u64::MAX
            ==> final(this).next_positions@[partition as u64] == events@.last().partition_position
            + 1,
{
}

/// A partition is opened at its head where the reader begins now, else at the reader's
/// position; a number that is no partition is refused.
pub proof fn law_partition_is_opened_where_the_reader_is(
    cursor: AggregatePartitionCursor,
    from_now: bool,
    r: Result<PartitionStart, Status>,
)
    requires
        call_ensures(open_partition, (&cursor, from_now), r),
    ensures
        cursor.partition_id > 65535 ==> (r matches Err(s) && s@.code == Code::InvalidArgument),
        cursor.partition_id <= 65535 ==> match r {
            Ok(PartitionStart::Head(p)) => from_now && p == cursor.partition_id,
            Ok(PartitionStart::History(p, at)) => !from_now && p == cursor.partition_id && at
                == cursor.next_position,
            Err(_) => false,
        },
{
}

proof fn lemma_cursor_is(cursors: Seq<AggregatePartitionCursor>, partition: u32)
    ensures
        match cursor_place(cursors, partition) {
            Some(i) => 0 <= i < cursors.len() && cursors[i].partition_id == partition && forall|
                j: int,
            |
                0 <= j < i ==> (#[trigger] cursors[j]).partition_id != partition,
            None => forall|j: int|
                0 <= j < cursors.len() ==> (#[trigger] cursors[j]).partition_id != partition,
        },
    decreases cursors.len(),
{
    if cursors.len() > 0 && cursors[0].partition_id != partition {
        let rest = cursors.skip(1);
        lemma_cursor_is(rest, partition);
        match cursor_place(rest, partition) {
            Some(i) => {
                assert forall|j: int| 0 <= j < i + 1 implies (#[trigger] cursors[j]).partition_id
                    != partition by {
                    if j > 0 {
                        assert(rest[j - 1] == cursors[j]);
                    }
                }
            },
            None => {
                assert forall|j: int| 0 <= j < cursors.len() implies (
                #[trigger] cursors[j]).partition_id != partition by {
                    if j > 0 {
                        assert(rest[j - 1] == cursors[j]);
                    }
                }
            },
        }
    }
}

/// A source that is opened again goes on right behind the last event it sent of a
/// partition, and at the same place in all others; what it sends names the shard.
pub proof fn law_source_goes_on_behind_what_it_sent(
    this: &mut AggregateSource,
    e: InternalAggregateEvent,
    r: Option<AggregateSourceMessage>,
    i: int,
)
    requires
        call_ensures(AggregateSource::on_frame, (this, SourceFrame::Event(e)), r),
        0 <= i < old(this).cursors@.len(),
        forall|j: int|
            0 <= j < i ==> (#[trigger] old(this).cursors@[j]).partition_id
                != old(this).cursors@[i].partition_id,
    ensures
        r == Some(AggregateSourceMessage::Event(old(this).shard_id, e)),
        final(this).from_now == old(this).from_now,
        final(this).cursors@.len() == old(this).cursors@.len(),
        final(this).cursors@[i].partition_id == old(this).cursors@[i].partition_id,
        old(this).cursors@[i].partition_id != e.partition_id ==> final(this).cursors@[i]
            == old(this).cursors@[i],
        old(this).cursors@[i].partition_id == e.partition_id && e.partition_position < u64::MAX
            ==> final(this).cursors@[i].next_position == e.partition_position + 1,
{
    lemma_cursor_is(old(this).cursors@, e.partition_id);
    if old(this).cursors@[i].partition_id == e.partition_id {
        let k = cursor_place(old(this).cursors@, e.partition_id)->0;
        if k < i {
            assert(old(this).cursors@[k].partition_id != old(this).cursors@[i].partition_id);
        }
    }
}

/// A source that ends is reported missing, unless it had not yet caught up with a start
/// from now and did not fail.
pub proof fn law_ended_source_is_missing(
    s: AggregateSource,
    failed: bool,
    r: Option<AggregateSourceMessage>,
)
    requires
        call_ensures(AggregateSource::on_end, (&s, failed), r),
    ensures
        r is None <==> !failed && s.from_now,
        r matches Some(m) ==> m == AggregateSourceMessage::Degraded(s.shard_id),
{
}


proof fn lemma_cursors_after_heads(
    cursors: Seq<AggregatePartitionCursor>,
    heads: Seq<AggregatePartitionCursor>,
    i: int,
)
    requires
        0 <= i < cursors.len(),
        forall|a: int, b: int|
            0 <= a < b < cursors.len() ==> (#[trigger] cursors[a]).partition_id != (
            #[trigger] cursors[b]).partition_id,
    ensures
        ({
            let after = cursors_after_heads(cursors, heads);
            &&& after.len() == cursors.len()
            &&& forall|k: int|
                0 <= k < cursors.len() ==> (#[trigger] after[k]).partition_id
                    == cursors[k].partition_id
            &&& after[i].next_position >= cursors[i].next_position
            &&& forall|k: int|
                0 <= k < heads.len() && (#[trigger] heads[k]).partition_id
                    == cursors[i].partition_id ==> after[i].next_position >= heads[k].next_position
            &&& after[i].next_position == cursors[i].next_position || exists|k: int|
                0 <= k < heads.len() && (#[trigger] heads[k]).partition_id
                    == cursors[i].partition_id && heads[k].next_position == after[i].next_position
        }),
    decreases heads.len(),
{
    if heads.len() > 0 {
        let rest = heads.drop_last();
        let n = heads.len() - 1;
        let h = heads.last();
        let was = cursors_after_heads(cursors, rest);
        let now = cursors_after_heads(cursors, heads);
        assert(h == heads[n]);
        lemma_cursors_after_heads(cursors, rest, i);
        lemma_cursor_is(was, h.partition_id);
        if h.partition_id == cursors[i].partition_id {
            assert(was[i].partition_id == h.partition_id);
            let k = cursor_place(was, h.partition_id)->0;
            if k < i {
                assert(was[k].partition_id == cursors[k].partition_id);
                assert(cursors[k].partition_id != cursors[i].partition_id);
            }
            assert(k == i);
        }
        assert forall|k: int|
            0 <= k < heads.len() && (#[trigger] heads[k]).partition_id
                == cursors[i].partition_id implies now[i].next_position
            >= heads[k].next_position by {
            if k < n {
                assert(rest[k] == heads[k]);
            }
        }
        if was[i].next_position != cursors[i].next_position && now[i].next_position
            == was[i].next_position {
            let k = choose|k: int|
                0 <= k < rest.len() && (#[trigger] rest[k]).partition_id == cursors[i].partition_id
                    && rest[k].next_position == was[i].next_position;
            assert(heads[k] == rest[k]);
        }
    }
}

/// A source that has caught up goes on, in each partition, from the furthest head that was
/// reported, never from before where it was; and it no longer begins now.
pub proof fn law_source_goes_on_from_the_reported_heads(
    this: &mut AggregateSource,
    heads: Vec<AggregatePartitionCursor>,
    r: Option<AggregateSourceMessage>,
    i: int,
)
    requires
        call_ensures(AggregateSource::on_frame, (this, SourceFrame::CaughtUp(heads)), r),
        0 <= i < old(this).cursors@.len(),
        forall|a: int, b: int|
            0 <= a < b < old(this).cursors@.len() ==> (
            #[trigger] old(this).cursors@[a]).partition_id != (
            #[trigger] old(this).cursors@[b]).partition_id,
    ensures
        r == Some(AggregateSourceMessage::CaughtUp(old(this).shard_id, heads)),
        !final(this).from_now,
        ({
            let was = old(this).cursors@[i];
            let now = final(this).cursors@[i];
            &&& now.partition_id == was.partition_id
            &&& now.next_position >= was.next_position
            &&& forall|k: int|
                0 <= k < heads@.len() && (#[trigger] heads@[k]).partition_id == was.partition_id
                    ==> now.next_position >= heads@[k].next_position
            &&& now.next_position == was.next_position || exists|k: int|
                0 <= k < heads@.len() && (#[trigger] heads@[k]).partition_id == was.partition_id
                    && heads@[k].next_position == now.next_position
        }),
{
    lemma_cursors_after_heads(old(this).cursors@, heads@, i);
}


/// A partition without history is followed from its head, and nothing else moves.
pub proof fn law_partition_at_its_head_is_followed_from_there(
    this: &mut LocalAggregateSubscription,
    partition: u16,
    head: Result<u64, String>,
    r: Result<(), Status>,
    other: u64,
)
    requires
        call_ensures(LocalAggregateSubscription::at_head, (this, partition, head), r),
    ensures
        r is Ok <==> head is Ok,
        head matches Ok(h) ==> final(this).next_positions@.dom().contains(partition as u64)
            && final(this).next_positions@[partition as u64] == h,
        other != partition ==> (final(this).next_positions@.dom().contains(other)
            <==> old(this).next_positions@.dom().contains(other)),
        other != partition && old(this).next_positions@.dom().contains(other)
            ==> final(this).next_positions@[other] == old(this).next_positions@[other],
{
}


/// When its history is shown, a subscription tells where it stands in each of its
/// partitions, and from then on is live.
pub proof fn law_end_of_history_tells_where_it_stands(
    this: &mut LocalAggregateSubscription,
    out: Vec<AggregatePartitionCursor>,
    i: int,
)
    requires
        old(this).wf(),
        call_ensures(LocalAggregateSubscription::caught_up, (this,), out),
        0 <= i < out@.len(),
    ensures
        final(this).announced,
        final(this).next_positions@ == old(this).next_positions@,
        out@.len() == old(this).next_positions.entries@.len(),
        old(this).next_positions@.dom().contains(out@[i].partition_id as u64),
        out@[i].next_position == old(this).next_positions@[out@[i].partition_id as u64],
{
    old(this).next_positions.lemma_entry(i);
}

} // verus!
