//! Where a group begins in each partition: at the beginning, or where the partition ends
//! now, which its shard is asked for.

use vstd::prelude::*;

use crate::aggregate_follow::{AggregatePartitionCursor, SourceFrame};
use crate::aggregate_groups::{
    GroupStart, beginning_starts, check_starts, end_cursors, law_reported_positions_become_starts,
    note_starts, start_source_closed, start_sources, starts_after,
};
use crate::aggregate_types::{
    AggregateTypeDefinition, Placement, lemma_groups_name_shards, lemma_is_on, partitions_on,
    shards_with,
};
use crate::maps::IdMap;
use crate::order::lists;
use crate::status::{Code, Status, says};

verus! {

/// The ends of the partitions, as far as they are known.
#[derive(Debug)]
pub struct Capture {
    pub partition_count: u16,
    /// Each shard with the partitions that it is asked for.
    pub sources: Vec<(u64, Vec<AggregatePartitionCursor>)>,
    /// The shard that is listened to.
    pub at: usize,
    pub starts: IdMap<u64>,
}

impl Capture {
    pub open spec fn wf(&self) -> bool {
        self.starts.wf() && self.at < self.sources@.len()
    }
}

/// What is done next to find out where a group begins.
#[derive(Debug)]
pub enum CaptureStage {
    /// Open the source of the shard that stands at `at`, from now on, and take a frame.
    Open(Capture),
    /// Take another frame of the source that is open.
    Listen(Capture),
    Done(Result<IdMap<u64>, Status>),
}

/// The result, once all shards have told.
pub open spec fn is_accepted(
    r: Result<IdMap<u64>, Status>,
    starts: IdMap<u64>,
    partition_count: u16,
) -> bool {
    match r {
        Ok(s) => s == starts && starts.entries@.len() == partition_count,
        Err(s) => starts.entries@.len() != partition_count && s@ == says(
            Code::Unavailable,
            "未能捕获全部消费者组分区起点"@,
        ),
    }
}

/// Begins to find out where a group begins.
pub fn capture_group_starts(definition: &AggregateTypeDefinition, start: GroupStart) -> (stage:
    CaptureStage)
    ensures
        match start {
            GroupStart::Beginning => stage matches CaptureStage::Done(Ok(starts)) && starts.wf() && (
            forall|k: u64| #[trigger]
                starts@.dom().contains(k) <==> k < definition.partition_count) && forall|k: u64|
                k < definition.partition_count ==> #[trigger] starts@[k] == 0,
            GroupStart::Now => if definition.placements.entries@.len() == 0 {
                stage matches CaptureStage::Done(r) && exists|none: IdMap<u64>|
                    none.wf() && none@ == Map::<u64, u64>::empty() && #[trigger] is_accepted(
                        r,
                        none,
                        definition.partition_count,
                    )
            } else {
                &&& stage matches CaptureStage::Open(c)
                &&& c.wf() && c.at == 0 && c.partition_count == definition.partition_count
                &&& c.starts@ == Map::<u64, u64>::empty()
                &&& lists(
                    c.sources@.map_values(|g: (u64, Vec<AggregatePartitionCursor>)| g.0),
                    shards_with(definition.placements.entries@),
                )
                &&& forall|i: int|
                    0 <= i < c.sources@.len() ==> (#[trigger] c.sources@[i]).1@ == end_cursors(
                        partitions_on(definition.placements.entries@, c.sources@[i].0),
                    )
            },
        },
{
    match start {
        GroupStart::Beginning => CaptureStage::Done(
            Ok(beginning_starts(definition.partition_count)),
        ),
        GroupStart::Now => {
            let sources = start_sources(definition);
            let starts: IdMap<u64> = IdMap::new();
            let ghost keys = sources@.map_values(|g: (u64, Vec<AggregatePartitionCursor>)| g.0);
            let ghost entries = definition.placements.entries@;
            if sources.len() == 0 {
                proof {
                    if entries.len() > 0 {
                        let shards = entries.map_values(|e: (u64, Placement)| e.1.shard_id);
                        let shard = shards[0];
                        assert(shards.contains(shard));
                        assert(shards_with(entries).contains(shard));
                        assert(keys.contains(shard));
                    }
                    assert(entries.len() == 0);
                }
                let r = check_starts(starts, definition.partition_count);
                proof {
                    assert(is_accepted(r, starts, definition.partition_count));
                }
                CaptureStage::Done(r)
            } else {
                proof {
                    if entries.len() == 0 {
                        assert(keys.contains(keys[0]));
                        assert(shards_with(entries).contains(keys[0]));
                    }
                }
                CaptureStage::Open(
                    Capture {
                        partition_count: definition.partition_count,
                        sources,
                        at: 0,
                        starts,
                    },
                )
            }
        },
    }
}

/// Goes on with a frame of the source that is listened to; `None` says that the source has
/// ended, an error that it failed or could not be opened.  Frames that do not tell the
/// ends of the partitions are passed over.
pub fn on_start_frame(capture: Capture, frame: Option<Result<SourceFrame, Status>>) -> (stage:
    CaptureStage)
    requires
        capture.wf(),
    ensures
        match frame {
            None => stage matches CaptureStage::Done(Err(s)) && s@ == says(
                Code::Unavailable,
                "捕获消费者组 Now 起点时来源关闭"@,
            ),
            Some(Err(s)) => stage == CaptureStage::Done(Err(s)),
            Some(Ok(SourceFrame::CaughtUp(cursors))) => if exists|i: int|
                0 <= i < cursors@.len() && (#[trigger] cursors@[i]).partition_id > u16::MAX {
                stage matches CaptureStage::Done(Err(s)) && s@ == says(
                    Code::Internal,
                    "内部 partition_id 超出范围"@,
                )
            } else if capture.at + 1 < capture.sources@.len() {
                &&& stage matches CaptureStage::Open(c)
                &&& c.wf() && c.at == capture.at + 1 && c.sources == capture.sources
                &&& c.partition_count == capture.partition_count
                &&& c.starts@ == starts_after(capture.starts@, cursors@)
            } else {
                stage matches CaptureStage::Done(r) && exists|starts: IdMap<u64>|
                    starts.wf() && starts@ == starts_after(capture.starts@, cursors@)
                        && #[trigger] is_accepted(r, starts, capture.partition_count)
            },
            Some(Ok(_)) => stage == CaptureStage::Listen(capture),
        },
{
    let frame = match frame {
        None => return CaptureStage::Done(Err(start_source_closed())),
        Some(Err(s)) => return CaptureStage::Done(Err(s)),
        Some(Ok(frame)) => frame,
    };
    match frame {
        SourceFrame::CaughtUp(cursors) => {
            let total: usize = capture.sources.len();
            let mut starts = capture.starts;
            if let Err(s) = note_starts(&mut starts, &cursors) {
                return CaptureStage::Done(Err(s));
            }
            if total - capture.at > 1 {
                CaptureStage::Open(
                    Capture {
                        partition_count: capture.partition_count,
                        sources: capture.sources,
                        at: capture.at + 1,
                        starts,
                    },
                )
            } else {
                let r = check_starts(starts, capture.partition_count);
                proof {
                    assert(is_accepted(r, starts, capture.partition_count));
                }
                CaptureStage::Done(r)
            }
        },
        _ => CaptureStage::Listen(capture),
    }
}


/// A group that begins at the beginning begins at 0 in every partition, and needs to ask
/// nobody.
pub proof fn law_beginning_needs_no_answers(
    definition: AggregateTypeDefinition,
    stage: CaptureStage,
    k: u64,
)
    requires
        call_ensures(capture_group_starts, (&definition, GroupStart::Beginning), stage),
    ensures
        stage matches CaptureStage::Done(Ok(starts)) && (starts@.dom().contains(k) <==> k
            < definition.partition_count) && (k < definition.partition_count ==> starts@[k] == 0),
{
}

/// The starts of a group are accepted only if there is one for as many partitions as the
/// type has; else the request is to be tried again.
pub proof fn law_starts_are_accepted_only_where_all_are_there(
    r: Result<IdMap<u64>, Status>,
    starts: IdMap<u64>,
    partition_count: u16,
)
    requires
        is_accepted(r, starts, partition_count),
    ensures
        r is Ok <==> starts.entries@.len() == partition_count,
        r matches Ok(s) ==> s@ == starts@,
        r matches Err(s) ==> s@.code == Code::Unavailable,
{
}

/// What a source reports is waited for: a source that ends, or fails, ends the capture;
/// other frames are passed over; and after the report the next source is asked.
pub proof fn law_each_source_is_waited_for(
    capture: Capture,
    frame: Option<Result<SourceFrame, Status>>,
    stage: CaptureStage,
)
    requires
        call_ensures(on_start_frame, (capture, frame), stage),
    ensures
        frame is None ==> (stage matches CaptureStage::Done(Err(s)) && s@.code
            == Code::Unavailable),
        frame matches Some(Err(s)) ==> stage == CaptureStage::Done(Err(s)),
        frame matches Some(Ok(SourceFrame::Event(_))) ==> stage == CaptureStage::Listen(capture),
        frame matches Some(Ok(SourceFrame::Empty)) ==> stage == CaptureStage::Listen(capture),
        frame matches Some(Ok(SourceFrame::CaughtUp(cursors))) ==> {
            &&& !(stage is Listen)
            &&& stage matches CaptureStage::Open(c) ==> c.at == capture.at + 1 && c.sources
                == capture.sources && c.partition_count == capture.partition_count
            &&& capture.at + 1 >= capture.sources@.len() ==> stage is Done
        },
{
}


/// A group that begins now has every partition of the type asked for its position, at the
/// shard that it is placed on, beginning with the first shard and with nothing recorded.
pub proof fn law_beginning_now_asks_every_partition(
    definition: AggregateTypeDefinition,
    stage: CaptureStage,
    partition: u16,
)
    requires
        definition.wf(),
        call_ensures(capture_group_starts, (&definition, GroupStart::Now), stage),
        definition.placements@.dom().contains(partition as u64),
    ensures
        stage matches CaptureStage::Open(c) && c.at == 0 && c.partition_count
            == definition.partition_count && c.starts@ == Map::<u64, u64>::empty() && exists|i: int|
            0 <= i < c.sources@.len() && (#[trigger] c.sources@[i]).0
                == definition.placements@[partition as u64].shard_id && exists|m: int|
                0 <= m < c.sources@[i].1@.len() && (#[trigger] c.sources@[i].1@[m]).partition_id
                    == partition,
{
    let entries = definition.placements.entries@;
    let shard = definition.placements@[partition as u64].shard_id;
    let k = definition.placements.index(partition as u64);
    assert(0 <= k < entries.len() && definition.placements.key(k) == partition as u64);
    assert(entries[k].0 == partition as u64);
    let c = stage->Open_0;
    let ids = c.sources@.map_values(|g: (u64, Vec<AggregatePartitionCursor>)| g.0);
    let on = partitions_on(entries, shard);
    lemma_is_on(entries, shard, partition);
    lemma_groups_name_shards(entries, ids, shard);
    let i = choose|i: int| 0 <= i < ids.len() && ids[i] == shard;
    assert(c.sources@[i].0 == shard);
    assert(c.sources@[i].1@ == end_cursors(on));
    let m = choose|m: int| 0 <= m < on.len() && on[m] == partition;
    assert(c.sources@[i].1@[m].partition_id == partition);
}

/// The position that a shard reports for a partition is where the group begins it; what
/// other shards reported before is kept.
pub proof fn law_reported_position_is_recorded(
    capture: Capture,
    cursors: Vec<AggregatePartitionCursor>,
    stage: CaptureStage,
    i: int,
    q: u64,
)
    requires
        call_ensures(
            on_start_frame,
            (capture, Some(Ok::<SourceFrame, Status>(SourceFrame::CaughtUp(cursors)))),
            stage,
        ),
        0 <= i < cursors@.len(),
        forall|j: int|
            i < j < cursors@.len() ==> (#[trigger] cursors@[j]).partition_id
                != cursors@[i].partition_id,
        capture.starts@.dom().contains(q),
        forall|j: int| 0 <= j < cursors@.len() ==> (#[trigger] cursors@[j]).partition_id != q,
    ensures
        stage matches CaptureStage::Open(c) ==> {
            &&& c.starts@.dom().contains(cursors@[i].partition_id as u64)
            &&& c.starts@[cursors@[i].partition_id as u64] == cursors@[i].next_position
            &&& c.starts@.dom().contains(q) && c.starts@[q] == capture.starts@[q]
        },
        stage matches CaptureStage::Done(Ok(starts)) ==> {
            &&& starts@.dom().contains(cursors@[i].partition_id as u64)
            &&& starts@[cursors@[i].partition_id as u64] == cursors@[i].next_position
            &&& starts@.dom().contains(q) && starts@[q] == capture.starts@[q]
            &&& starts.entries@.len() == capture.partition_count
        },
{
    law_reported_positions_become_starts(
        capture.starts@,
        cursors@,
        cursors@[i].partition_id as u64,
        i,
    );
    law_reported_positions_become_starts(capture.starts@, cursors@, q, -1);
}

} // verus!
