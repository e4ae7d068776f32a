//! Groups that consume the events of an aggregate type: what they are, and how they are
//! set up.

use vstd::prelude::*;

use crate::aggregate_follow::AggregatePartitionCursor;
use crate::aggregate_tokens::{AggregateTypeId, TypeView};
use crate::aggregate_types::{
    AggregateTypeDefinition, AggregateTypeRef, aggregate_type_to_proto, lemma_groups_name_shards,
    lemma_is_on, partitions_by_shard, partitions_on, shards_with,
};
use crate::ids::{big_endian, parse_id};
use crate::maps::IdMap;
use crate::order::{lemma_filter_has, lists};
use crate::status::{Code, Status, StatusView, says};
use crate::text::{decimal, decimal_text, join2, join3, same_text};

verus! {

/// Where a group begins.
#[derive(Clone, Copy, Debug, PartialEq, Eq, Structural)]
pub enum GroupStart {
    Beginning,
    Now,
}

/// Reads where a group begins: at the beginning, if the request does not say.
pub fn proto_group_start(value: Option<GroupStart>) -> (s: GroupStart)
    ensures
        s == (match value {
            Some(s) => s,
            None => GroupStart::Beginning,
        }),
{
    match value {
        Some(s) => s,
        None => GroupStart::Beginning,
    }
}

/// How a group delivers.
#[derive(Clone, Copy, Debug, PartialEq, Eq, Structural)]
pub struct AggregateGroupSettings {
    pub max_unacked_per_consumer: u32,
    pub max_unacked_per_group: u32,
    pub ack_timeout_ms: u64,
    pub max_retries: u32,
    pub retry_min_ms: u64,
    pub retry_max_ms: u64,
}

/// Reads the settings of a request, or takes the defaults.  `verdict` says what the
/// rules on settings have against them.
pub fn proto_group_settings(
    value: Option<AggregateGroupSettings>,
    defaults: &AggregateGroupSettings,
    verdict: Result<(), String>,
) -> (r: Result<AggregateGroupSettings, Status>)
    ensures
        match verdict {
            Ok(_) => r == Ok::<AggregateGroupSettings, Status>(
                match value {
                    Some(v) => v,
                    None => *defaults,
                },
            ),
            Err(e) => r matches Err(s) && s@ == says(Code::InvalidArgument, e@),
        },
{
    match verdict {
        Ok(_) => Ok(
            match value {
                Some(v) => v,
                None => *defaults,
            },
        ),
        Err(e) => Err(Status::new(Code::InvalidArgument, e)),
    }
}

/// A group.
#[derive(Debug)]
pub struct AggregateGroupDefinition {
    pub aggregate_type: AggregateTypeId,
    pub name: String,
    pub revision: u64,
    pub epoch: u64,
    pub start: GroupStart,
    /// Where the group begins in each partition.
    pub partition_starts: IdMap<u64>,
    pub settings: AggregateGroupSettings,
    pub create_operation_id: u128,
    pub last_operation_id: u128,
}

/// What is shown of a group.
#[derive(Debug)]
pub struct AggregateGroupInfo {
    pub aggregate_type: AggregateTypeRef,
    pub name: String,
    pub revision: u64,
    pub epoch: u64,
    pub start: GroupStart,
    pub settings: AggregateGroupSettings,
}

/// `i` shows the group.
pub open spec fn shows_group(i: AggregateGroupInfo, g: AggregateGroupDefinition) -> bool {
    &&& i.aggregate_type.business_space@ == g.aggregate_type@.space
    &&& i.aggregate_type.aggregate_type@ == g.aggregate_type@.kind
    &&& i.name@ == g.name@
    &&& i.revision == g.revision
    &&& i.epoch == g.epoch
    &&& i.start == g.start
    &&& i.settings == g.settings
}

/// Shows a group.
pub fn group_info(g: &AggregateGroupDefinition) -> (i: AggregateGroupInfo)
    ensures
        shows_group(i, *g),
{
    AggregateGroupInfo {
        aggregate_type: aggregate_type_to_proto(&g.aggregate_type),
        name: g.name.clone(),
        revision: g.revision,
        epoch: g.epoch,
        start: g.start,
        settings: g.settings,
    }
}

/// The group is the one with this name.
pub open spec fn is_group(g: AggregateGroupDefinition, id: TypeView, name: Seq<char>) -> bool {
    g.aggregate_type@ == id && g.name@ == name
}

/// Finds a group that a request is about.  `verdict` says what the rules on names have
/// against its name.
pub fn require_group(
    groups: &Vec<AggregateGroupDefinition>,
    aggregate_type: &AggregateTypeId,
    name: &str,
    verdict: Result<(), String>,
) -> (r: Result<usize, Status>)
    ensures
        match verdict {
            Err(e) => r matches Err(s) && s@ == says(Code::InvalidArgument, e@),
            Ok(_) => match r {
                Ok(i) => i < groups@.len() && is_group(
                    groups@[i as int],
                    aggregate_type@,
                    name@,
                ) && forall|j: int|
                    0 <= j < i ==> !is_group(#[trigger] groups@[j], aggregate_type@, name@),
                Err(s) => s@ == says(Code::NotFound, "消费者组不存在"@) && forall|j: int|
                    0 <= j < groups@.len() ==> !is_group(
                        #[trigger] groups@[j],
                        aggregate_type@,
                        name@,
                    ),
            },
        },
{
    if let Err(e) = verdict {
        return Err(Status::new(Code::InvalidArgument, e));
    }
    let mut i: usize = 0;
    while i < groups.len()
        invariant
            i <= groups@.len(),
            verdict is Ok,
            forall|j: int|
                0 <= j < i ==> !is_group(#[trigger] groups@[j], aggregate_type@, name@),
        decreases groups@.len() - i,
    {
        if groups[i].aggregate_type.same(aggregate_type) && same_text(
            groups[i].name.as_str(),
            name,
        ) {
            return Ok(i);
        }
        i += 1;
    }
    Err(Status::of(Code::NotFound, "消费者组不存在"))
}

/// Shows the groups of an aggregate type, in order.
pub fn list_groups(groups: &Vec<AggregateGroupDefinition>, aggregate_type: &AggregateTypeId) -> (out:
    Vec<AggregateGroupInfo>)
    ensures
        ({
            let those = groups@.filter(
                |g: AggregateGroupDefinition| g.aggregate_type@ == aggregate_type@,
            );
            &&& out@.len() == those.len()
            &&& forall|i: int| 0 <= i < out@.len() ==> shows_group(#[trigger] out@[i], those[i])
        }),
{
    let ghost f = |g: AggregateGroupDefinition| g.aggregate_type@ == aggregate_type@;
    let mut out: Vec<AggregateGroupInfo> = Vec::new();
    let mut i: usize = 0;
    proof {
        reveal(Seq::filter);
        assert(groups@.take(0) =~= Seq::<AggregateGroupDefinition>::empty());
    }
    while i < groups.len()
        invariant
            i <= groups@.len(),
            f == (|g: AggregateGroupDefinition| g.aggregate_type@ == aggregate_type@),
            out@.len() == groups@.take(i as int).filter(f).len(),
            forall|k: int|
                0 <= k < out@.len() ==> shows_group(
                    #[trigger] out@[k],
                    groups@.take(i as int).filter(f)[k],
                ),
        decreases groups@.len() - i,
    {
        proof {
            reveal(Seq::filter);
            assert(groups@.take(i + 1).drop_last() =~= groups@.take(i as int));
            assert(groups@.take(i + 1).last() == groups@[i as int]);
        }
        if groups[i].aggregate_type.same(aggregate_type) {
            out.push(group_info(&groups[i]));
        }
        i += 1;
    }
    proof {
        assert(groups@.take(groups@.len() as int) =~= groups@);
    }
    out
}

/// The starts of a group that begins at the beginning: 0 in each partition.
pub fn beginning_starts(partition_count: u16) -> (starts: IdMap<u64>)
    ensures
        starts.wf(),
        forall|k: u64| #[trigger] starts@.dom().contains(k) <==> k < partition_count,
        forall|k: u64| k < partition_count ==> #[trigger] starts@[k] == 0,
{
    let mut starts: IdMap<u64> = IdMap::new();
    let mut p: u16 = 0;
    while p < partition_count
        invariant
            p <= partition_count,
            starts.wf(),
            forall|k: u64| #[trigger] starts@.dom().contains(k) <==> k < p,
            forall|k: u64| k < p ==> #[trigger] starts@[k] == 0,
        decreases partition_count - p,
    {
        starts.insert(p as u64, 0);
        p += 1;
    }
    starts
}

/// The cursors that ask for the ends of these partitions.
pub open spec fn end_cursors(partitions: Seq<u16>) -> Seq<AggregatePartitionCursor> {
    partitions.map_values(
        |p: u16| AggregatePartitionCursor { partition_id: p as u32, next_position: 0 },
    )
}

/// Whom to ask for the starts of a group that begins now: each shard with partitions,
/// in ascending order.
pub fn start_sources(d: &AggregateTypeDefinition) -> (out: Vec<(u64, Vec<AggregatePartitionCursor>)>)
    ensures
        lists(
            out@.map_values(|g: (u64, Vec<AggregatePartitionCursor>)| g.0),
            shards_with(d.placements.entries@),
        ),
        forall|i: int|
            0 <= i < out@.len() ==> (#[trigger] out@[i]).1@ == end_cursors(
                partitions_on(d.placements.entries@, out@[i].0),
            ),
{
    let ghost entries = d.placements.entries@;
    let groups = partitions_by_shard(d);
    let mut out: Vec<(u64, Vec<AggregatePartitionCursor>)> = Vec::new();
    let mut i: usize = 0;
    while i < groups.len()
        invariant
            i <= groups@.len(),
            forall|i: int|
                0 <= i < groups@.len() ==> (#[trigger] groups@[i]).1@ == partitions_on(
                    entries,
                    groups@[i].0,
                ),
            out@.len() == i,
            forall|k: int| 0 <= k < i ==> (#[trigger] out@[k]).0 == groups@[k].0,
            forall|k: int|
                0 <= k < i ==> (#[trigger] out@[k]).1@ == end_cursors(
                    partitions_on(entries, out@[k].0),
                ),
        decreases groups@.len() - i,
    {
        let partitions = &groups[i].1;
        let mut cursors: Vec<AggregatePartitionCursor> = Vec::new();
        let mut k: usize = 0;
        while k < partitions.len()
            invariant
                k <= partitions@.len(),
                cursors@.len() == k,
                forall|j: int|
                    0 <= j < k ==> #[trigger] cursors@[j] == end_cursors(partitions@)[j],
            decreases partitions@.len() - k,
        {
            cursors.push(
                AggregatePartitionCursor { partition_id: partitions[k] as u32, next_position: 0 },
            );
            k += 1;
        }
        assert(cursors@ =~= end_cursors(partitions@));
        out.push((groups[i].0, cursors));
        i += 1;
    }
    assert(out@.map_values(|g: (u64, Vec<AggregatePartitionCursor>)| g.0) =~= groups@.map_values(
        |g: (u64, Vec<u16>)| g.0,
    ));
    out
}

/// The starts with those that a source gave.
pub open spec fn starts_after(
    starts: Map<u64, u64>,
    cursors: Seq<AggregatePartitionCursor>,
) -> Map<u64, u64>
    decreases cursors.len(),
{
    if cursors.len() == 0 {
        starts
    } else {
        starts_after(starts, cursors.drop_last()).insert(
            cursors.last().partition_id as u64,
            cursors.last().next_position,
        )
    }
}

/// Takes the starts that a source gave.
pub fn note_starts(starts: &mut IdMap<u64>, cursors: &Vec<AggregatePartitionCursor>) -> (r: Result<
    (),
    Status,
>)
    requires
        old(starts).wf(),
    ensures
        final(starts).wf(),
        match r {
            Ok(_) => (forall|i: int|
                0 <= i < cursors@.len() ==> (#[trigger] cursors@[i]).partition_id <= u16::MAX)
                && final(starts)@ == starts_after(old(starts)@, cursors@),
            Err(s) => (exists|i: int|
                0 <= i < cursors@.len() && (#[trigger] cursors@[i]).partition_id > u16::MAX) && s@
                == says(Code::Internal, "内部 partition_id 超出范围"@),
        },
{
    let mut i: usize = 0;
    proof {
        assert(cursors@.take(0) =~= Seq::<AggregatePartitionCursor>::empty());
    }
    while i < cursors.len()
        invariant
            i <= cursors@.len(),
            starts.wf(),
            starts@ == starts_after(old(starts)@, cursors@.take(i as int)),
            forall|k: int| 0 <= k < i ==> (#[trigger] cursors@[k]).partition_id <= u16::MAX,
        decreases cursors@.len() - i,
    {
        let c = cursors[i];
        proof {
            assert(cursors@.take(i + 1).drop_last() =~= cursors@.take(i as int));
            assert(cursors@.take(i + 1).last() == c);
        }
        if c.partition_id > 65535 {
            assert(cursors@[i as int].partition_id > u16::MAX);
            return Err(Status::of(Code::Internal, "内部 partition_id 超出范围"));
        }
        starts.insert(c.partition_id as u64, c.next_position);
        i += 1;
    }
    proof {
        assert(cursors@.take(cursors@.len() as int) =~= cursors@);
    }
    Ok(())
}

/// What is said when a source ends before it gave its starts.
pub fn start_source_closed() -> (s: Status)
    ensures
        s@ == says(Code::Unavailable, "捕获消费者组 Now 起点时来源关闭"@),
{
    Status::of(Code::Unavailable, "捕获消费者组 Now 起点时来源关闭")
}

/// Accepts the starts of a group if there is one for each partition.
pub fn check_starts(starts: IdMap<u64>, partition_count: u16) -> (r: Result<IdMap<u64>, Status>)
    ensures
        match r {
            Ok(s) => s == starts && starts.entries@.len() == partition_count,
            Err(s) => starts.entries@.len() != partition_count && s@ == says(
                Code::Unavailable,
                "未能捕获全部消费者组分区起点"@,
            ),
        },
{
    if starts.entries.len() != partition_count as usize {
        return Err(Status::of(Code::Unavailable, "未能捕获全部消费者组分区起点"));
    }
    Ok(starts)
}

/// What is wrong with the identifier of an operation.
pub open spec fn operation_fault(bytes: Seq<u8>) -> Option<StatusView> {
    if bytes.len() != 16 {
        Some(says(Code::InvalidArgument, "operation_id 必须是 16 字节 UUID"@))
    } else {
        None
    }
}

/// Reads the identifier of an operation.
pub fn parse_operation_id(bytes: &Vec<u8>) -> (r: Result<u128, Status>)
    ensures
        match r {
            Ok(id) => operation_fault(bytes@) is None && id == big_endian(bytes@),
            Err(s) => operation_fault(bytes@) == Some(s@),
        },
{
    match parse_id(bytes) {
        Some(id) => Ok(id),
        None => Err(Status::of(Code::InvalidArgument, "operation_id 必须是 16 字节 UUID")),
    }
}

/// A new group.
pub fn new_group(
    aggregate_type: AggregateTypeId,
    name: String,
    start: GroupStart,
    partition_starts: IdMap<u64>,
    settings: AggregateGroupSettings,
    operation_id: u128,
) -> (g: AggregateGroupDefinition)
    ensures
        g == (AggregateGroupDefinition {
            aggregate_type,
            name,
            revision: 0,
            epoch: 0,
            start,
            partition_starts,
            settings,
            create_operation_id: operation_id,
            last_operation_id: operation_id,
        }),
{
    AggregateGroupDefinition {
        aggregate_type,
        name,
        revision: 0,
        epoch: 0,
        start,
        partition_starts,
        settings,
        create_operation_id: operation_id,
        last_operation_id: operation_id,
    }
}

/// A changed group.  Where it begins anew, its starts are given; what is not given stays
/// as it is.  The second part says whether the group begins anew.
pub fn changed_group(
    existing: AggregateGroupDefinition,
    anew: Option<(GroupStart, IdMap<u64>)>,
    settings: Option<AggregateGroupSettings>,
    operation_id: u128,
) -> (r: (AggregateGroupDefinition, bool))
    ensures
        r.1 == (anew is Some),
        r.0 == (AggregateGroupDefinition {
            start: match anew {
                Some(a) => a.0,
                None => existing.start,
            },
            partition_starts: match anew {
                Some(a) => a.1,
                None => existing.partition_starts,
            },
            settings: match settings {
                Some(s) => s,
                None => existing.settings,
            },
            last_operation_id: operation_id,
            ..existing
        }),
{
    let reset = anew.is_some();
    let (start, partition_starts) = match anew {
        Some(a) => a,
        None => (existing.start, existing.partition_starts),
    };
    let settings = match settings {
        Some(s) => s,
        None => existing.settings,
    };
    (
        AggregateGroupDefinition {
            aggregate_type: existing.aggregate_type,
            name: existing.name,
            revision: existing.revision,
            epoch: existing.epoch,
            start,
            partition_starts,
            settings,
            create_operation_id: existing.create_operation_id,
            last_operation_id: operation_id,
        },
        reset,
    )
}

/// What the catalog makes of a command about a group.
#[derive(Debug)]
pub enum GroupCatalogOutcome {
    Group(AggregateGroupDefinition),
    Conflict { actual_revision: Option<u64> },
    Invalid { reason: String },
    NotFound,
    Deleted,
}

/// A number that may be missing, as it is printed.
pub open spec fn option_text(n: Option<u64>) -> Seq<char> {
    match n {
        Some(n) => "Some("@ + decimal_text(n as nat) + ")"@,
        None => "None"@,
    }
}

/// Prints a number that may be missing.
pub fn option_string(n: Option<u64>) -> (s: String)
    ensures
        s@ == option_text(n),
{
    match n {
        Some(n) => {
            let d = decimal(n);
            join3("Some(", d.as_str(), ")")
        },
        None => String::from_str("None"),
    }
}

/// The reply to a group that is not of the expected revision.
pub open spec fn group_conflict(actual: Option<u64>) -> StatusView {
    says(Code::FailedPrecondition, "group revision conflict: actual="@ + option_text(actual))
}

fn conflict(actual: Option<u64>) -> (s: Status)
    ensures
        s@ == group_conflict(actual),
{
    let shown = option_string(actual);
    Status::new(
        Code::FailedPrecondition,
        join2("group revision conflict: actual=", shown.as_str()),
    )
}

/// The reply to the creation of a group.
pub fn group_created(outcome: GroupCatalogOutcome) -> (r: Result<AggregateGroupInfo, Status>)
    ensures
        match outcome {
            GroupCatalogOutcome::Group(g) => r matches Ok(i) && shows_group(i, g),
            GroupCatalogOutcome::Conflict { actual_revision } => r matches Err(s) && s@ == says(
                Code::AlreadyExists,
                "消费者组已存在: revision="@ + option_text(actual_revision),
            ),
            GroupCatalogOutcome::Invalid { reason } => r matches Err(s) && s@ == says(
                Code::InvalidArgument,
                reason@,
            ),
            GroupCatalogOutcome::NotFound => r matches Err(s) && s@ == says(
                Code::NotFound,
                "聚合类型不存在"@,
            ),
            GroupCatalogOutcome::Deleted => r matches Err(s) && s@ == says(
                Code::Internal,
                "创建消费者组返回 Deleted"@,
            ),
        },
{
    match outcome {
        GroupCatalogOutcome::Group(g) => Ok(group_info(&g)),
        GroupCatalogOutcome::Conflict { actual_revision } => {
            let shown = option_string(actual_revision);
            Err(
                Status::new(
                    Code::AlreadyExists,
                    join2("消费者组已存在: revision=", shown.as_str()),
                ),
            )
        },
        GroupCatalogOutcome::Invalid { reason } => Err(Status::new(Code::InvalidArgument, reason)),
        GroupCatalogOutcome::NotFound => Err(Status::of(Code::NotFound, "聚合类型不存在")),
        GroupCatalogOutcome::Deleted => Err(
            Status::of(Code::Internal, "创建消费者组返回 Deleted"),
        ),
    }
}

/// The reply to the change of a group.
pub fn group_updated(outcome: GroupCatalogOutcome) -> (r: Result<AggregateGroupInfo, Status>)
    ensures
        match outcome {
            GroupCatalogOutcome::Group(g) => r matches Ok(i) && shows_group(i, g),
            GroupCatalogOutcome::Conflict { actual_revision } => r matches Err(s) && s@
                == group_conflict(actual_revision),
            GroupCatalogOutcome::Invalid { reason } => r matches Err(s) && s@ == says(
                Code::InvalidArgument,
                reason@,
            ),
            GroupCatalogOutcome::NotFound => r matches Err(s) && s@ == says(
                Code::NotFound,
                "消费者组不存在"@,
            ),
            GroupCatalogOutcome::Deleted => r matches Err(s) && s@ == says(
                Code::Internal,
                "更新消费者组返回 Deleted"@,
            ),
        },
{
    match outcome {
        GroupCatalogOutcome::Group(g) => Ok(group_info(&g)),
        GroupCatalogOutcome::Conflict { actual_revision } => Err(conflict(actual_revision)),
        GroupCatalogOutcome::Invalid { reason } => Err(Status::new(Code::InvalidArgument, reason)),
        GroupCatalogOutcome::NotFound => Err(Status::of(Code::NotFound, "消费者组不存在")),
        GroupCatalogOutcome::Deleted => Err(
            Status::of(Code::Internal, "更新消费者组返回 Deleted"),
        ),
    }
}

/// The reply to the removal of a group.
pub fn group_deleted(outcome: GroupCatalogOutcome) -> (r: Result<(), Status>)
    ensures
        match outcome {
            GroupCatalogOutcome::Deleted => r is Ok,
            GroupCatalogOutcome::Conflict { actual_revision } => r matches Err(s) && s@
                == group_conflict(actual_revision),
            GroupCatalogOutcome::Invalid { reason } => r matches Err(s) && s@ == says(
                Code::InvalidArgument,
                reason@,
            ),
            GroupCatalogOutcome::NotFound => r matches Err(s) && s@ == says(
                Code::NotFound,
                "消费者组不存在"@,
            ),
            GroupCatalogOutcome::Group(_) => r matches Err(s) && s@ == says(
                Code::Internal,
                "删除消费者组返回 Group"@,
            ),
        },
{
    match outcome {
        GroupCatalogOutcome::Deleted => Ok(()),
        GroupCatalogOutcome::Conflict { actual_revision } => Err(conflict(actual_revision)),
        GroupCatalogOutcome::Invalid { reason } => Err(Status::new(Code::InvalidArgument, reason)),
        GroupCatalogOutcome::NotFound => Err(Status::of(Code::NotFound, "消费者组不存在")),
        GroupCatalogOutcome::Group(_) => Err(Status::of(Code::Internal, "删除消费者组返回 Group")),
    }
}


proof fn lemma_starts_after(
    starts: Map<u64, u64>,
    cursors: Seq<AggregatePartitionCursor>,
    p: u64,
)
    ensures
        (forall|i: int| 0 <= i < cursors.len() ==> (#[trigger] cursors[i]).partition_id != p) ==> (
        starts_after(starts, cursors).dom().contains(p) <==> starts.dom().contains(p)) && (
        starts.dom().contains(p) ==> starts_after(starts, cursors)[p] == starts[p]),
        forall|i: int|
            0 <= i < cursors.len() && (#[trigger] cursors[i]).partition_id == p && (forall|j: int|
                i < j < cursors.len() ==> (#[trigger] cursors[j]).partition_id != p)
                ==> starts_after(starts, cursors).dom().contains(p) && starts_after(
                starts,
                cursors,
            )[p] == cursors[i].next_position,
    decreases cursors.len(),
{
    if cursors.len() > 0 {
        let rest = cursors.drop_last();
        let n = cursors.len() - 1;
        lemma_starts_after(starts, rest, p);
        assert(cursors.last() == cursors[n]);
        if forall|i: int| 0 <= i < cursors.len() ==> (#[trigger] cursors[i]).partition_id != p {
            assert forall|i: int| 0 <= i < rest.len() implies (#[trigger] rest[i]).partition_id
                != p by {
                assert(rest[i] == cursors[i]);
            }
        }
        assert forall|i: int|
            0 <= i < cursors.len() && (#[trigger] cursors[i]).partition_id == p && (forall|j: int|
                i < j < cursors.len() ==> (#[trigger] cursors[j]).partition_id != p) implies starts_after(
            starts,
            cursors,
        ).dom().contains(p) && starts_after(starts, cursors)[p] == cursors[i].next_position by {
            if i < n {
                assert(rest[i] == cursors[i]);
                assert forall|j: int| i < j < rest.len() implies (#[trigger] rest[j]).partition_id
                    != p by {
                    assert(rest[j] == cursors[j]);
                }
            }
        }
    }
}

/// A group that begins now records for each partition the position that its shard reported
/// for it last, and keeps what it has of all others.
pub proof fn law_reported_positions_become_starts(
    starts: Map<u64, u64>,
    cursors: Seq<AggregatePartitionCursor>,
    p: u64,
    i: int,
)
    requires
        0 <= i < cursors.len() ==> cursors[i].partition_id == p && forall|j: int|
            i < j < cursors.len() ==> (#[trigger] cursors[j]).partition_id != p,
    ensures
        0 <= i < cursors.len() ==> starts_after(starts, cursors).dom().contains(p) && starts_after(
            starts,
            cursors,
        )[p] == cursors[i].next_position,
        (forall|j: int| 0 <= j < cursors.len() ==> (#[trigger] cursors[j]).partition_id != p)
            ==> (starts_after(starts, cursors).dom().contains(p) <==> starts.dom().contains(p))
            && (starts.dom().contains(p) ==> starts_after(starts, cursors)[p] == starts[p]),
{
    lemma_starts_after(starts, cursors, p);
}

/// To find where a group begins now, every partition is asked of the shard it is on, and
/// no shard for a partition that is not there.
pub proof fn law_every_partition_is_asked_for_its_start(
    d: AggregateTypeDefinition,
    out: Vec<(u64, Vec<AggregatePartitionCursor>)>,
    shard: u64,
    partition: u16,
)
    requires
        d.wf(),
        call_ensures(start_sources, (&d,), out),
    ensures
        forall|i: int, j: int| 0 <= i < j < out@.len() ==> out@[i].0 < out@[j].0,
        (exists|i: int|
            0 <= i < out@.len() && (#[trigger] out@[i]).0 == shard && exists|m: int|
                0 <= m < out@[i].1@.len() && (#[trigger] out@[i].1@[m]).partition_id == partition)
            <==> d.placements@.dom().contains(partition as u64)
            && d.placements@[partition as u64].shard_id == shard,
{
    let entries = d.placements.entries@;
    let ids = out@.map_values(|g: (u64, Vec<AggregatePartitionCursor>)| g.0);
    assert forall|i: int, j: int| 0 <= i < j < out@.len() implies out@[i].0 < out@[j].0 by {
        assert(ids[i] < ids[j]);
    }
    let on = partitions_on(entries, shard);
    lemma_is_on(entries, shard, partition);
    lemma_groups_name_shards(entries, ids, shard);
    if exists|i: int|
        0 <= i < out@.len() && (#[trigger] out@[i]).0 == shard && exists|m: int|
            0 <= m < out@[i].1@.len() && (#[trigger] out@[i].1@[m]).partition_id == partition {
        let i = choose|i: int|
            0 <= i < out@.len() && (#[trigger] out@[i]).0 == shard && exists|m: int|
                0 <= m < out@[i].1@.len() && (#[trigger] out@[i].1@[m]).partition_id == partition;
        let m = choose|m: int|
            0 <= m < out@[i].1@.len() && (#[trigger] out@[i].1@[m]).partition_id == partition;
        assert(out@[i].1@ == end_cursors(on));
        assert(on[m] == partition);
        assert(on.contains(partition));
        let k = choose|k: int|
            0 <= k < entries.len() && (#[trigger] entries[k]).0 as u16 == partition
                && entries[k].1.shard_id == shard;
        d.placements.lemma_entry(k);
        assert(d.placements@.dom().contains(entries[k].0));
    }
    if d.placements@.dom().contains(partition as u64)
        && d.placements@[partition as u64].shard_id == shard {
        let k = d.placements.index(partition as u64);
        assert(0 <= k < entries.len() && d.placements.key(k) == partition as u64);
        assert(entries[k].0 == partition as u64);
        let i = choose|i: int| 0 <= i < ids.len() && ids[i] == shard;
        assert(out@[i].0 == shard);
        assert(out@[i].1@ == end_cursors(on));
        let m = choose|m: int| 0 <= m < on.len() && on[m] == partition;
        assert(out@[i].1@[m].partition_id == partition);
    }
}

/// A group is shown under its names, with its revision, epoch, start and settings.
pub proof fn law_group_is_shown_as_it_is(g: AggregateGroupDefinition, i: AggregateGroupInfo)
    requires
        call_ensures(group_info, (&g,), i),
    ensures
        i.aggregate_type.business_space@ == g.aggregate_type.business_space@,
        i.aggregate_type.aggregate_type@ == g.aggregate_type.aggregate_type@,
        i.name@ == g.name@,
        i.revision == g.revision,
        i.epoch == g.epoch,
        i.start == g.start,
        i.settings == g.settings,
{
}

/// A group is known by its type and its name together.
pub proof fn law_group_is_known_by_type_and_name(
    g: AggregateGroupDefinition,
    id: AggregateTypeId,
    name: Seq<char>,
)
    ensures
        is_group(g, id@, name) <==> g.aggregate_type.business_space@ == id.business_space@
            && g.aggregate_type.aggregate_type@ == id.aggregate_type@ && g.name@ == name,
{
}

/// A group that begins at the beginning begins at 0 in every partition.
pub proof fn law_beginning_is_zero_in_every_partition(
    partition_count: u16,
    starts: IdMap<u64>,
    k: u64,
)
    requires
        call_ensures(beginning_starts, (partition_count,), starts),
    ensures
        starts@.dom().contains(k) <==> k < partition_count,
        k < partition_count ==> starts@[k] == 0,
{
}

/// A new group is at revision and epoch 0 and remembers the operation that created it; a
/// changed one keeps its name, type and counters, and what is not changed.
pub proof fn law_groups_are_created_and_changed(
    aggregate_type: AggregateTypeId,
    name: String,
    start: GroupStart,
    partition_starts: IdMap<u64>,
    settings: AggregateGroupSettings,
    operation_id: u128,
    g: AggregateGroupDefinition,
    anew: Option<(GroupStart, IdMap<u64>)>,
    changed_settings: Option<AggregateGroupSettings>,
    change_id: u128,
    r: (AggregateGroupDefinition, bool),
)
    requires
        call_ensures(
            new_group,
            (aggregate_type, name, start, partition_starts, settings, operation_id),
            g,
        ),
        call_ensures(changed_group, (g, anew, changed_settings, change_id), r),
    ensures
        g.revision == 0 && g.epoch == 0 && g.start == start && g.settings == settings && g.name@
            == name@ && g.partition_starts == partition_starts,
        g.create_operation_id == operation_id && g.last_operation_id == operation_id,
        r.0.name@ == name@ && r.0.aggregate_type@ == aggregate_type@ && r.0.revision == 0
            && r.0.epoch == 0 && r.0.create_operation_id == operation_id,
        r.0.last_operation_id == change_id,
        r.1 <==> anew is Some,
        anew is None ==> r.0.start == start && r.0.partition_starts == partition_starts,
        anew matches Some(a) ==> r.0.start == a.0 && r.0.partition_starts == a.1,
        changed_settings is None ==> r.0.settings == settings,
        changed_settings matches Some(s) ==> r.0.settings == s,
{
}

/// An operation is named by exactly sixteen bytes.
pub proof fn law_operation_is_named_by_sixteen_bytes(bytes: Vec<u8>, r: Result<u128, Status>)
    requires
        call_ensures(parse_operation_id, (&bytes,), r),
    ensures
        r is Ok <==> bytes@.len() == 16,
        r matches Ok(id) ==> id == big_endian(bytes@),
        r matches Err(s) ==> s@.code == Code::InvalidArgument,
{
}

/// A revision that is there is shown as a number, one that is not as such.
pub proof fn law_revision_is_shown(n: Option<u64>, s: String)
    requires
        call_ensures(option_string, (n,), s),
    ensures
        n is None ==> s@ == "None"@,
        n matches Some(k) ==> s@ == "Some("@ + decimal_text(k as nat) + ")"@,
{
}

/// The replies to changes of a group: a group is shown, an older revision is answered with
/// the one there is, and each other outcome has its code.
pub proof fn law_group_outcomes_are_answered(
    outcome: GroupCatalogOutcome,
    created: Result<AggregateGroupInfo, Status>,
    updated: Result<AggregateGroupInfo, Status>,
    deleted: Result<(), Status>,
)
    requires
        call_ensures(group_created, (outcome,), created),
        call_ensures(group_updated, (outcome,), updated),
        call_ensures(group_deleted, (outcome,), deleted),
    ensures
        created is Ok <==> outcome is Group,
        updated is Ok <==> outcome is Group,
        deleted is Ok <==> outcome is Deleted,
        created matches Ok(i) ==> i.name@ == outcome->Group_0.name@ && i.revision
            == outcome->Group_0.revision && i.epoch == outcome->Group_0.epoch,
        updated matches Ok(i) ==> i.name@ == outcome->Group_0.name@ && i.revision
            == outcome->Group_0.revision && i.epoch == outcome->Group_0.epoch,
        created matches Err(s) ==> s@.code == (match outcome {
            GroupCatalogOutcome::Conflict { .. } => Code::AlreadyExists,
            GroupCatalogOutcome::Invalid { .. } => Code::InvalidArgument,
            GroupCatalogOutcome::NotFound => Code::NotFound,
            _ => Code::Internal,
        }),
        updated matches Err(s) ==> s@.code == (match outcome {
            GroupCatalogOutcome::Conflict { .. } => Code::FailedPrecondition,
            GroupCatalogOutcome::Invalid { .. } => Code::InvalidArgument,
            GroupCatalogOutcome::NotFound => Code::NotFound,
            _ => Code::Internal,
        }),
        deleted matches Err(s) ==> s@.code == (match outcome {
            GroupCatalogOutcome::Conflict { .. } => Code::FailedPrecondition,
            GroupCatalogOutcome::Invalid { .. } => Code::InvalidArgument,
            GroupCatalogOutcome::NotFound => Code::NotFound,
            _ => Code::Internal,
        }),
{
}


/// A group starts where it asks, else at the beginning, and works by the settings it asks
/// for, else by the ones given for want of any; settings found wrong refuse it.
pub proof fn law_group_is_set_up_as_asked(
    start: Option<GroupStart>,
    s: GroupStart,
    value: Option<AggregateGroupSettings>,
    defaults: AggregateGroupSettings,
    verdict: Result<(), String>,
    r: Result<AggregateGroupSettings, Status>,
)
    requires
        call_ensures(proto_group_start, (start,), s),
        call_ensures(proto_group_settings, (value, &defaults, verdict), r),
    ensures
        start is None ==> s == GroupStart::Beginning,
        start matches Some(asked) ==> s == asked,
        r is Ok <==> verdict is Ok,
        r matches Ok(settings) ==> settings == (if value is Some {
            value->0
        } else {
            defaults
        }),
        verdict matches Err(e) ==> (r matches Err(t) && t@.code == Code::InvalidArgument
            && t@.message == e@),
{
}

/// A group is found by its type and its name, and is not found only if there is none.
pub proof fn law_group_is_found_by_type_and_name(
    groups: Vec<AggregateGroupDefinition>,
    aggregate_type: AggregateTypeId,
    name: &str,
    verdict: Result<(), String>,
    r: Result<usize, Status>,
    j: int,
)
    requires
        call_ensures(require_group, (&groups, &aggregate_type, name, verdict), r),
        0 <= j < groups@.len(),
    ensures
        r matches Ok(i) ==> verdict is Ok && i < groups@.len() && groups@[i as int].name@ == name@
            && groups@[i as int].aggregate_type@ == aggregate_type@,
        verdict is Ok && groups@[j].name@ == name@ && groups@[j].aggregate_type@
            == aggregate_type@ ==> (r matches Ok(i) && i <= j),
        verdict is Ok ==> (r matches Err(s) ==> s@.code == Code::NotFound),
        verdict is Err ==> (r matches Err(s) && s@.code == Code::InvalidArgument),
{
}

/// The list shows groups of the type asked for alone, and each of them.
pub proof fn law_list_shows_the_groups_of_the_type(
    groups: Vec<AggregateGroupDefinition>,
    aggregate_type: AggregateTypeId,
    out: Vec<AggregateGroupInfo>,
    j: int,
    k: int,
)
    requires
        call_ensures(list_groups, (&groups, &aggregate_type), out),
        0 <= j < groups@.len(),
        0 <= k < out@.len(),
    ensures
        groups@[j].aggregate_type@ == aggregate_type@ ==> exists|i: int|
            0 <= i < out@.len() && shows_group(#[trigger] out@[i], groups@[j]),
        exists|i: int|
            0 <= i < groups@.len() && (#[trigger] groups@[i]).aggregate_type@ == aggregate_type@
                && shows_group(out@[k], groups@[i]),
{
    let f = |g: AggregateGroupDefinition| g.aggregate_type@ == aggregate_type@;
    let those = groups@.filter(f);
    lemma_filter_has(groups@, f, those[k]);
    lemma_filter_has(groups@, f, groups@[j]);
    let i = choose|i: int| 0 <= i < groups@.len() && groups@[i] == those[k];
    assert(groups@[i].aggregate_type@ == aggregate_type@);
    if groups@[j].aggregate_type@ == aggregate_type@ {
        assert(groups@.contains(groups@[j]));
        let m = choose|m: int| 0 <= m < those.len() && those[m] == groups@[j];
        assert(shows_group(out@[m], those[m]));
    }
}

/// The starts are taken over only if there is one for every partition.
pub proof fn law_every_partition_has_a_start(
    starts: IdMap<u64>,
    partition_count: u16,
    r: Result<IdMap<u64>, Status>,
)
    requires
        call_ensures(check_starts, (starts, partition_count), r),
    ensures
        r is Ok <==> starts.entries@.len() == partition_count,
        r matches Ok(s) ==> s == starts,
        r matches Err(s) ==> s@.code == Code::Unavailable,
{
}

} // verus!
