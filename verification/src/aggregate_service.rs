//! Requests on aggregates.

use vstd::prelude::*;

use crate::aggregate_delivery::{fenced_reply, fenced_status};
use crate::aggregate_groups::{option_string, option_text};
use crate::aggregate_types::{AggregateTypeDefinition, EVENT_PARTITION_COUNT, Placement};
use crate::config::{Config, FileRead};
use crate::event::Hlc;
use crate::ids::{big_endian, parse_id};
use crate::rpc_support::{
    RuntimeTopology, WriteError, client_write_to_status, is_topology, leader_hint,
    leader_hint_status, write_failure,
};
use crate::status::{Code, Status, StatusView, says};
use crate::text::{decimal_text, join2};

verus! {

/// What the requests on aggregates go by.
#[derive(Debug)]
pub struct AggregateStoreService {
    pub topology: RuntimeTopology,
    pub max_event_bytes: u64,
}

/// What the store can do.
#[derive(Debug)]
pub struct AggregateStoreCapabilities {
    pub api_version: String,
    pub partition_count: u32,
    pub max_event_bytes: u64,
    pub max_state_bytes: u64,
    pub state_revision_cas: bool,
    pub explicit_group_settlement: bool,
    pub state_modified_time: bool,
}

/// An event of a request.
#[derive(Debug)]
pub struct NewAggregateEventRequest {
    pub event_id: Vec<u8>,
    pub event_type: String,
    pub data: Vec<u8>,
    pub metadata: Vec<u8>,
}

/// An event to be stored.
#[derive(Debug)]
pub struct NewAggregateEvent {
    pub event_id: u128,
    pub event_type: String,
    pub data: Vec<u8>,
    pub metadata: Vec<u8>,
}

/// What is wrong with an event.
pub open spec fn event_fault(e: Option<NewAggregateEventRequest>, max_event_bytes: u64) -> Option<
    StatusView,
> {
    match e {
        None => Some(says(Code::InvalidArgument, "event 必填"@)),
        Some(e) => if e.data@.len() + e.metadata@.len() > max_event_bytes {
            Some(says(Code::FailedPrecondition, "聚合事件 payload 超出限制"@))
        } else if e.event_id@.len() != 16 {
            Some(says(Code::InvalidArgument, "event_id 必须是 16 字节 UUID"@))
        } else if e.event_type@.len() == 0 {
            Some(says(Code::InvalidArgument, "event_type 不能为空"@))
        } else {
            None
        },
    }
}

impl AggregateStoreService {
    /// The service for a configuration.
    pub fn new(config: &Config, ca: FileRead) -> (r: Result<AggregateStoreService, String>)
        ensures
            match r {
                Ok(s) => is_topology(*config, ca, Ok(s.topology.current)) && s.topology.current.wf()
                    && s.max_event_bytes == config.limits.max_event_bytes,
                Err(e) => is_topology(*config, ca, Err(e)),
            },
    {
        match RuntimeTopology::new(config, ca) {
            Ok(topology) => Ok(
                AggregateStoreService {
                    topology,
                    max_event_bytes: config.limits.max_event_bytes,
                },
            ),
            Err(e) => Err(e),
        }
    }

    /// The service for a topology.
    pub fn with_topology(topology: RuntimeTopology, max_event_bytes: u64) -> (s:
        AggregateStoreService)
        ensures
            s == (AggregateStoreService { topology, max_event_bytes }),
    {
        AggregateStoreService { topology, max_event_bytes }
    }

    /// Admits a request that names the control shard.
    pub fn require_control_shard(&self, shard_id: u64) -> (r: Result<(), Status>)
        ensures
            match r {
                Ok(_) => shard_id == self.topology.current.control_shard_id,
                Err(s) => shard_id != self.topology.current.control_shard_id && s@ == says(
                    Code::InvalidArgument,
                    "control_shard_id 不匹配"@,
                ),
            },
    {
        if shard_id != self.topology.current.control_shard_id {
            return Err(Status::of(Code::InvalidArgument, "control_shard_id 不匹配"));
        }
        Ok(())
    }

    /// What the store can do.
    pub fn capabilities(&self) -> (c: AggregateStoreCapabilities)
        ensures
            c.api_version@ == "1.0"@,
            c.partition_count == EVENT_PARTITION_COUNT,
            c.max_event_bytes == self.max_event_bytes,
            c.max_state_bytes == self.max_event_bytes,
            c.state_revision_cas,
            c.explicit_group_settlement,
            c.state_modified_time,
    {
        AggregateStoreCapabilities {
            api_version: String::from_str("1.0"),
            partition_count: EVENT_PARTITION_COUNT as u32,
            max_event_bytes: self.max_event_bytes,
            max_state_bytes: self.max_event_bytes,
            state_revision_cas: true,
            explicit_group_settlement: true,
            state_modified_time: true,
        }
    }

    /// Reads the event of a request.
    pub fn new_event(&self, event: Option<NewAggregateEventRequest>) -> (r: Result<
        NewAggregateEvent,
        Status,
    >)
        ensures
            match r {
                Ok(n) => event_fault(event, self.max_event_bytes) is None && n.event_id
                    == big_endian(event->Some_0.event_id@) && n.event_type
                    == event->Some_0.event_type && n.data == event->Some_0.data && n.metadata
                    == event->Some_0.metadata,
                Err(s) => event_fault(event, self.max_event_bytes) == Some(s@),
            },
    {
        let e = match event {
            Some(e) => e,
            None => return Err(Status::of(Code::InvalidArgument, "event 必填")),
        };
        let bytes: u128 = e.data.len() as u128 + e.metadata.len() as u128;
        if bytes > self.max_event_bytes as u128 {
            return Err(Status::of(Code::FailedPrecondition, "聚合事件 payload 超出限制"));
        }
        let event_id: u128 = match parse_id(&e.event_id) {
            Some(id) => id,
            None => {
                return Err(Status::of(Code::InvalidArgument, "event_id 必须是 16 字节 UUID"));
            },
        };
        if e.event_type.as_str().is_empty() {
            return Err(Status::of(Code::InvalidArgument, "event_type 不能为空"));
        }
        Ok(
            NewAggregateEvent {
                event_id,
                event_type: e.event_type,
                data: e.data,
                metadata: e.metadata,
            },
        )
    }

    /// Admits a state of so many bytes.
    pub fn check_state_size(&self, len: usize) -> (r: Result<(), Status>)
        ensures
            match r {
                Ok(_) => len <= self.max_event_bytes,
                Err(s) => len > self.max_event_bytes && s@ == says(
                    Code::FailedPrecondition,
                    "聚合状态 payload 超出限制"@,
                ),
            },
    {
        if len as u64 > self.max_event_bytes {
            return Err(Status::of(Code::FailedPrecondition, "聚合状态 payload 超出限制"));
        }
        Ok(())
    }
}

/// Admits a request to a shard that has to be led here: `leads` says whether this node
/// leads it, `None` that it is not here; `leader` is who does.
pub fn local_leader(leads: Option<bool>, leader: Option<(u64, String)>) -> (r: Result<(), Status>)
    ensures
        if leads == Some(true) {
            r is Ok
        } else {
            r matches Err(s) && s@ == leader_hint(
                match leader {
                    Some(l) => Some((l.0, l.1@)),
                    None => None,
                },
            )
        },
{
    match leads {
        Some(true) => Ok(()),
        _ => Err(leader_hint_status(leader)),
    }
}

/// What an aggregate is expected to be at.
#[derive(Clone, Copy, Debug, PartialEq, Eq, Structural)]
pub enum ExpectedAggregateVersion {
    Any,
    NoAggregate,
    AggregateExists,
    Exact(u64),
}

/// Reads what an aggregate is expected to be at: anything, if the request does not say.
pub fn proto_expected_version(value: Option<ExpectedAggregateVersion>) -> (e:
    ExpectedAggregateVersion)
    ensures
        e == (match value {
            Some(v) => v,
            None => ExpectedAggregateVersion::Any,
        }),
{
    match value {
        Some(v) => v,
        None => ExpectedAggregateVersion::Any,
    }
}

/// What a state is expected to be at.
#[derive(Clone, Copy, Debug, PartialEq, Eq, Structural)]
pub enum ExpectedStateRevision {
    Absent,
    Exact(u64),
}

/// Reads what a state is expected to be at, which the request has to say.
pub fn proto_expected_state_revision(value: Option<ExpectedStateRevision>) -> (r: Result<
    ExpectedStateRevision,
    Status,
>)
    ensures
        match value {
            Some(v) => r == Ok::<ExpectedStateRevision, Status>(v),
            None => r matches Err(s) && s@ == says(
                Code::InvalidArgument,
                "expected_revision 必填"@,
            ),
        },
{
    match value {
        Some(v) => Ok(v),
        None => Err(Status::of(Code::InvalidArgument, "expected_revision 必填")),
    }
}

/// Where an aggregate is.  `partition` is what the hash of its name gives.
pub fn aggregate_place(d: &AggregateTypeDefinition, partition: Result<u16, String>) -> (r: Result<
    (u16, Placement),
    Status,
>)
    requires
        d.wf(),
    ensures
        match partition {
            Err(e) => r matches Err(s) && s@ == says(Code::InvalidArgument, e@),
            Ok(p) => match r {
                Ok((q, place)) => q == p && d.placements@.dom().contains(p as u64) && place
                    == d.placements@[p as u64],
                Err(s) => !d.placements@.dom().contains(p as u64) && s@ == says(
                    Code::Internal,
                    "聚合类型缺少分区放置"@,
                ),
            },
        },
{
    let p: u16 = match partition {
        Ok(p) => p,
        Err(e) => return Err(Status::new(Code::InvalidArgument, e)),
    };
    match d.placements.get(p as u64) {
        Some(place) => Ok((p, *place)),
        None => Err(Status::of(Code::Internal, "聚合类型缺少分区放置")),
    }
}

/// What a shard answers to an event of an aggregate.
#[derive(Debug)]
pub enum AggregateAppendAnswer {
    AppendOk { aggregate_version: u64, partition_position: u64 },
    OptimisticConflict { actual_version: Option<u64> },
    IdempotencyConflict,
    Fenced { current_generation: u64 },
    Invalid { reason: String },
    /// Something else, as it is printed.
    Other(String),
}

/// The reply to an event that was not stored; none if it was.
pub open spec fn aggregate_append_refusal(a: AggregateAppendAnswer) -> Option<StatusView> {
    match a {
        AggregateAppendAnswer::AppendOk { .. } => None,
        AggregateAppendAnswer::OptimisticConflict { actual_version } => Some(
            says(
                Code::FailedPrecondition,
                "aggregate version conflict: actual="@ + option_text(actual_version),
            ),
        ),
        AggregateAppendAnswer::IdempotencyConflict => Some(
            says(Code::AlreadyExists, "event_id 已绑定到不同内容"@),
        ),
        AggregateAppendAnswer::Fenced { current_generation } => Some(
            fenced_reply(current_generation),
        ),
        AggregateAppendAnswer::Invalid { reason } => Some(says(Code::InvalidArgument, reason@)),
        AggregateAppendAnswer::Other(shown) => Some(
            says(Code::Internal, "聚合追加返回意外结果: "@ + shown@),
        ),
    }
}

/// The reply to an event of an aggregate: the aggregate's version.
pub fn map_append_response(answer: AggregateAppendAnswer) -> (r: Result<u64, Status>)
    ensures
        match answer {
            AggregateAppendAnswer::AppendOk { aggregate_version, partition_position: _ } => r == Ok::<
                u64,
                Status,
            >(aggregate_version),
            _ => r matches Err(s) && aggregate_append_refusal(answer) == Some(s@),
        },
{
    match answer {
        AggregateAppendAnswer::AppendOk { aggregate_version, partition_position: _ } => Ok(
            aggregate_version,
        ),
        AggregateAppendAnswer::OptimisticConflict { actual_version } => {
            let shown = option_string(actual_version);
            Err(
                Status::new(
                    Code::FailedPrecondition,
                    join2("aggregate version conflict: actual=", shown.as_str()),
                ),
            )
        },
        AggregateAppendAnswer::IdempotencyConflict => Err(
            Status::of(Code::AlreadyExists, "event_id 已绑定到不同内容"),
        ),
        AggregateAppendAnswer::Fenced { current_generation } => Err(
            fenced_status(current_generation),
        ),
        AggregateAppendAnswer::Invalid { reason } => Err(
            Status::new(Code::InvalidArgument, reason),
        ),
        AggregateAppendAnswer::Other(shown) => Err(
            Status::new(Code::Internal, join2("聚合追加返回意外结果: ", shown.as_str())),
        ),
    }
}

/// What follows the answer to an event of an aggregate.
#[derive(Debug)]
pub enum AggregateAppendStep {
    /// Look up the aggregate type anew, then send the event once more.
    Refresh,
    Done(Result<u64, Status>),
}

/// The step is what follows the answer; `retried` tells whether the event was sent again
/// before.
pub open spec fn follows(
    step: AggregateAppendStep,
    answer: Result<AggregateAppendAnswer, WriteError>,
    retried: bool,
) -> bool {
    match answer {
        Err(e) => step matches AggregateAppendStep::Done(Err(s)) && s@ == write_failure(e),
        Ok(AggregateAppendAnswer::Fenced { .. }) if !retried => step
            == AggregateAppendStep::Refresh,
        Ok(AggregateAppendAnswer::AppendOk { aggregate_version, partition_position: _ }) => step
            == AggregateAppendStep::Done(Ok(aggregate_version)),
        Ok(a) => step matches AggregateAppendStep::Done(Err(s)) && aggregate_append_refusal(a)
            == Some(s@),
    }
}

/// Goes on after a shard answered to an event of an aggregate.  Only an event that met a
/// partition that has moved on is sent again, and only once.
pub fn on_append_answer(answer: Result<AggregateAppendAnswer, WriteError>, retried: bool) -> (step:
    AggregateAppendStep)
    ensures
        follows(step, answer, retried),
{
    match answer {
        Err(e) => AggregateAppendStep::Done(Err(client_write_to_status(e))),
        Ok(a) => {
            let fenced = match &a {
                AggregateAppendAnswer::Fenced { .. } => true,
                _ => false,
            };
            if fenced && !retried {
                AggregateAppendStep::Refresh
            } else {
                AggregateAppendStep::Done(map_append_response(a))
            }
        },
    }
}

/// What a shard answers to a fence of a partition.
#[derive(Debug)]
pub enum PartitionFenceAnswer {
    Installed { generation: u64 },
    Invalid { reason: String },
    /// Something else, as it is printed.
    Other(String),
}

/// The reply to a fence of a partition: the generation that it has seen.
pub fn map_fence_response(answer: PartitionFenceAnswer) -> (r: Result<u64, Status>)
    ensures
        match answer {
            PartitionFenceAnswer::Installed { generation } => r == Ok::<u64, Status>(generation),
            PartitionFenceAnswer::Invalid { reason } => r matches Err(s) && s@ == says(
                Code::InvalidArgument,
                reason@,
            ),
            PartitionFenceAnswer::Other(shown) => r matches Err(s) && s@ == says(
                Code::Internal,
                "聚合分区 fence 返回意外结果: "@ + shown@,
            ),
        },
{
    match answer {
        PartitionFenceAnswer::Installed { generation } => Ok(generation),
        PartitionFenceAnswer::Invalid { reason } => Err(Status::new(Code::InvalidArgument, reason)),
        PartitionFenceAnswer::Other(shown) => Err(
            Status::new(Code::Internal, join2("聚合分区 fence 返回意外结果: ", shown.as_str())),
        ),
    }
}

/// The state of an aggregate.
#[derive(Debug)]
pub struct AggregateStateDocument {
    pub revision: u64,
    pub data: Vec<u8>,
    pub modified: Hlc,
}

/// The state of an aggregate, as it is shown.
#[derive(Debug)]
pub struct GetAggregateStateResponse {
    pub revision: u64,
    pub data: Vec<u8>,
    pub modified_unix_millis: u64,
}

/// The reply about the state of an aggregate, from what the store gave.
pub fn aggregate_state(read: Result<Option<AggregateStateDocument>, String>) -> (r: Result<
    GetAggregateStateResponse,
    Status,
>)
    ensures
        match read {
            Ok(Some(d)) => r == Ok::<GetAggregateStateResponse, Status>(
                GetAggregateStateResponse {
                    revision: d.revision,
                    data: d.data,
                    modified_unix_millis: d.modified.wall,
                },
            ),
            Ok(None) => r matches Err(s) && s@ == says(Code::NotFound, "聚合状态不存在"@),
            Err(e) => r matches Err(s) && s@ == says(Code::Internal, e@),
        },
{
    match read {
        Ok(Some(d)) => Ok(
            GetAggregateStateResponse {
                revision: d.revision,
                data: d.data,
                modified_unix_millis: d.modified.wall,
            },
        ),
        Ok(None) => Err(Status::of(Code::NotFound, "聚合状态不存在")),
        Err(e) => Err(Status::new(Code::Internal, e)),
    }
}

/// What a shard answers to the state of an aggregate.
#[derive(Debug)]
pub enum PutStateAnswer {
    Stored { revision: u64, modified: Hlc },
    NotFound,
    Conflict { actual_revision: Option<u64> },
    Fenced { current_generation: u64 },
    Invalid { reason: String },
    /// Something else, as it is printed.
    Other(String),
}

/// The reply to the state of an aggregate.
#[derive(Clone, Copy, Debug, PartialEq, Eq, Structural)]
pub struct PutAggregateStateResponse {
    pub revision: u64,
    pub modified_unix_millis: u64,
}

/// Takes what a shard answers to the state of an aggregate.
pub fn put_state_reply(answer: Result<PutStateAnswer, WriteError>) -> (r: Result<
    PutAggregateStateResponse,
    Status,
>)
    ensures
        match answer {
            Ok(PutStateAnswer::Stored { revision, modified }) => r == Ok::<
                PutAggregateStateResponse,
                Status,
            >(PutAggregateStateResponse { revision, modified_unix_millis: modified.wall }),
            Ok(PutStateAnswer::NotFound) => r matches Err(s) && s@ == says(
                Code::NotFound,
                "聚合实例不存在"@,
            ),
            Ok(PutStateAnswer::Conflict { actual_revision }) => r matches Err(s) && s@ == says(
                Code::FailedPrecondition,
                "state revision conflict: actual="@ + option_text(actual_revision),
            ),
            Ok(PutStateAnswer::Fenced { current_generation }) => r matches Err(s) && s@
                == fenced_reply(current_generation),
            Ok(PutStateAnswer::Invalid { reason }) => r matches Err(s) && s@ == says(
                Code::InvalidArgument,
                reason@,
            ),
            Ok(PutStateAnswer::Other(shown)) => r matches Err(s) && s@ == says(
                Code::Internal,
                "写聚合状态返回意外结果: "@ + shown@,
            ),
            Err(e) => r matches Err(s) && s@ == write_failure(e),
        },
{
    match answer {
        Ok(PutStateAnswer::Stored { revision, modified }) => Ok(
            PutAggregateStateResponse { revision, modified_unix_millis: modified.wall },
        ),
        Ok(PutStateAnswer::NotFound) => Err(Status::of(Code::NotFound, "聚合实例不存在")),
        Ok(PutStateAnswer::Conflict { actual_revision }) => {
            let shown = option_string(actual_revision);
            Err(
                Status::new(
                    Code::FailedPrecondition,
                    join2("state revision conflict: actual=", shown.as_str()),
                ),
            )
        },
        Ok(PutStateAnswer::Fenced { current_generation }) => Err(fenced_status(current_generation)),
        Ok(PutStateAnswer::Invalid { reason }) => Err(Status::new(Code::InvalidArgument, reason)),
        Ok(PutStateAnswer::Other(shown)) => Err(
            Status::new(Code::Internal, join2("写聚合状态返回意外结果: ", shown.as_str())),
        ),
        Err(e) => Err(client_write_to_status(e)),
    }
}

/// Which catalog a command goes to.
#[derive(Clone, Copy, Debug, PartialEq, Eq, Structural)]
pub enum Catalog {
    AggregateTypes,
    Groups,
}

/// Takes what a store gave of a catalog.
pub fn catalog_read<T>(catalog: Catalog, read: Result<T, String>) -> (r: Result<T, Status>)
    ensures
        match read {
            Ok(t) => r == Ok::<T, Status>(t),
            Err(e) => r matches Err(s) && s@ == says(
                Code::Internal,
                (if catalog == Catalog::AggregateTypes {
                    "读取聚合 catalog 失败: "@
                } else {
                    "读取消费者组 catalog 失败: "@
                }) + e@,
            ),
        },
{
    match read {
        Ok(t) => Ok(t),
        Err(e) => if catalog == Catalog::AggregateTypes {
            Err(Status::new(Code::Internal, join2("读取聚合 catalog 失败: ", e.as_str())))
        } else {
            Err(Status::new(Code::Internal, join2("读取消费者组 catalog 失败: ", e.as_str())))
        },
    }
}

/// Takes what the control shard answers to a command about a catalog; what it should not
/// answer is printed.
pub fn catalog_applied<T>(catalog: Catalog, answer: Result<Result<T, String>, WriteError>) -> (r:
    Result<T, Status>)
    ensures
        match answer {
            Ok(Ok(t)) => r == Ok::<T, Status>(t),
            Ok(Err(shown)) => r matches Err(s) && s@ == says(
                Code::Internal,
                (if catalog == Catalog::AggregateTypes {
                    "聚合 catalog 返回意外结果: "@
                } else {
                    "消费者组 catalog 返回意外结果: "@
                }) + shown@,
            ),
            Err(e) => r matches Err(s) && s@ == write_failure(e),
        },
{
    match answer {
        Ok(Ok(t)) => Ok(t),
        Ok(Err(shown)) => if catalog == Catalog::AggregateTypes {
            Err(Status::new(Code::Internal, join2("聚合 catalog 返回意外结果: ", shown.as_str())))
        } else {
            Err(
                Status::new(
                    Code::Internal,
                    join2("消费者组 catalog 返回意外结果: ", shown.as_str()),
                ),
            )
        },
        Err(e) => Err(client_write_to_status(e)),
    }
}

/// Admits a command from another node: it has to be about a group's part in a partition.
pub fn admit_partition_command(is_group_partition: bool) -> (r: Result<(), Status>)
    ensures
        match r {
            Ok(_) => is_group_partition,
            Err(s) => !is_group_partition && s@ == says(
                Code::InvalidArgument,
                "内部接口只接受 AggregateGroupPartition 请求"@,
            ),
        },
{
    if is_group_partition {
        Ok(())
    } else {
        Err(Status::of(Code::InvalidArgument, "内部接口只接受 AggregateGroupPartition 请求"))
    }
}


/// An event is taken in where it is given, its data and metadata together stay within the
/// limit, its id has sixteen bytes and its kind is named; and then it is taken as it is.
pub proof fn law_event_is_taken_in_or_refused(
    service: AggregateStoreService,
    event: Option<NewAggregateEventRequest>,
    r: Result<NewAggregateEvent, Status>,
)
    requires
        call_ensures(AggregateStoreService::new_event, (&service, event), r),
    ensures
        r is Ok <==> (event matches Some(e) && e.data@.len() + e.metadata@.len()
            <= service.max_event_bytes && e.event_id@.len() == 16 && e.event_type@.len() > 0),
        r matches Ok(n) ==> {
            let e = event->0;
            &&& n.event_id == big_endian(e.event_id@)
            &&& n.event_type@ == e.event_type@ && n.data@ == e.data@ && n.metadata@ == e.metadata@
        },
        r matches Err(s) ==> s@.code == (if event is Some && event->0.data@.len()
            + event->0.metadata@.len() > service.max_event_bytes {
            Code::FailedPrecondition
        } else {
            Code::InvalidArgument
        }),
{
}

/// The answers of a shard to an append: the version, or a refusal with its code.
pub proof fn law_append_answers_have_their_codes(
    answer: AggregateAppendAnswer,
    r: Result<u64, Status>,
)
    requires
        call_ensures(map_append_response, (answer,), r),
    ensures
        r is Ok <==> answer is AppendOk,
        r matches Ok(v) ==> v == answer->aggregate_version,
        r matches Err(s) ==> s@.code == (match answer {
            AggregateAppendAnswer::OptimisticConflict { .. } => Code::FailedPrecondition,
            AggregateAppendAnswer::IdempotencyConflict => Code::AlreadyExists,
            AggregateAppendAnswer::Fenced { .. } => Code::Unavailable,
            AggregateAppendAnswer::Invalid { .. } => Code::InvalidArgument,
            _ => Code::Internal,
        }),
        answer matches AggregateAppendAnswer::Invalid { reason } ==> r->Err_0@.message == reason@,
        answer matches AggregateAppendAnswer::OptimisticConflict { actual_version: Some(v) }
            ==> r->Err_0@.message == "aggregate version conflict: actual="@ + ("Some("@
            + decimal_text(v as nat) + ")"@),
{
}

/// An append that meets a partition in a later generation is tried once more with a fresh
/// catalog, and only once; anything else is the answer.
pub proof fn law_fenced_append_is_tried_once_more(
    answer: Result<AggregateAppendAnswer, WriteError>,
    retried: bool,
    step: AggregateAppendStep,
)
    requires
        call_ensures(on_append_answer, (answer, retried), step),
    ensures
        step is Refresh <==> !retried && (answer matches Ok(AggregateAppendAnswer::Fenced { .. })),
        answer matches Ok(AggregateAppendAnswer::AppendOk { aggregate_version, partition_position })
            ==> step == AggregateAppendStep::Done(Ok(aggregate_version)),
        retried && (answer matches Ok(AggregateAppendAnswer::Fenced { .. })) ==> (step matches AggregateAppendStep::Done(
            Err(s),
        ) && s@.code == Code::Unavailable),
        answer is Err ==> step is Done && step->Done_0 is Err,
{
}

/// What a partition is refused for by a later generation says which one, and that it is
/// to be tried again.
pub proof fn law_later_generation_is_told(generation: u64, s: Status)
    requires
        call_ensures(crate::aggregate_delivery::fenced_status, (generation,), s),
    ensures
        s@.code == Code::Unavailable,
        s@.message == "partition generation advanced to "@ + decimal_text(generation as nat),
{
}


/// A state may be as large as an event may be, and the capabilities say so.
pub proof fn law_states_are_as_large_as_events_may_be(
    service: AggregateStoreService,
    len: usize,
    r: Result<(), Status>,
    c: AggregateStoreCapabilities,
)
    requires
        call_ensures(AggregateStoreService::check_state_size, (&service, len), r),
        call_ensures(AggregateStoreService::capabilities, (&service,), c),
    ensures
        r is Ok <==> len <= c.max_state_bytes,
        c.max_state_bytes == c.max_event_bytes && c.max_event_bytes == service.max_event_bytes,
        c.partition_count == EVENT_PARTITION_COUNT,
        r matches Err(s) ==> s@.code == Code::FailedPrecondition,
{
}

/// A write needs the leader here; a state needs to say what it replaces, an event need
/// not.
pub proof fn law_what_is_expected_is_kept(
    leads: Option<bool>,
    leader: Option<(u64, String)>,
    here: Result<(), Status>,
    version: Option<ExpectedAggregateVersion>,
    v: ExpectedAggregateVersion,
    revision: Option<ExpectedStateRevision>,
    r: Result<ExpectedStateRevision, Status>,
)
    requires
        call_ensures(local_leader, (leads, leader), here),
        call_ensures(proto_expected_version, (version,), v),
        call_ensures(proto_expected_state_revision, (revision,), r),
    ensures
        here is Ok <==> leads == Some(true),
        here matches Err(s) ==> s@.code == Code::Unavailable,
        version is None ==> v == ExpectedAggregateVersion::Any,
        version matches Some(x) ==> v == x,
        r is Ok <==> revision is Some,
        r matches Ok(x) ==> revision == Some(x),
        r matches Err(s) ==> s@.code == Code::InvalidArgument,
{
}

/// An aggregate is found where its type places its partition.
pub proof fn law_aggregate_is_where_its_partition_is_placed(
    d: AggregateTypeDefinition,
    partition: Result<u16, String>,
    r: Result<(u16, Placement), Status>,
)
    requires
        call_ensures(aggregate_place, (&d, partition), r),
    ensures
        partition matches Ok(p) ==> (r is Ok <==> d.placements@.dom().contains(p as u64)),
        r matches Ok((q, place)) ==> partition == Ok::<u16, String>(q) && place
            == d.placements@[q as u64],
        partition is Err ==> (r matches Err(s) && s@.code == Code::InvalidArgument),
        partition is Ok ==> (r matches Err(s) ==> s@.code == Code::Internal),
{
}

/// What is read of a state is what was stored: its revision, its contents and its time;
/// what is not there is not found.
pub proof fn law_state_is_shown_as_stored(
    read: Result<Option<AggregateStateDocument>, String>,
    r: Result<GetAggregateStateResponse, Status>,
    answer: Result<PutStateAnswer, WriteError>,
    put: Result<PutAggregateStateResponse, Status>,
)
    requires
        call_ensures(aggregate_state, (read,), r),
        call_ensures(put_state_reply, (answer,), put),
    ensures
        r is Ok <==> (read matches Ok(found) && found is Some),
        read matches Ok(Some(d)) ==> (r matches Ok(x) && x.revision == d.revision && x.data
            == d.data && x.modified_unix_millis == d.modified.wall),
        read matches Ok(None) ==> (r matches Err(s) && s@.code == Code::NotFound),
        read is Err ==> (r matches Err(s) && s@.code == Code::Internal),
        put is Ok <==> (answer matches Ok(a) && a is Stored),
        answer matches Ok(PutStateAnswer::Stored { revision, modified }) ==> (put matches Ok(x)
            && x.revision == revision && x.modified_unix_millis == modified.wall),
        answer matches Ok(PutStateAnswer::NotFound) ==> (put matches Err(s) && s@.code
            == Code::NotFound),
        answer matches Ok(PutStateAnswer::Conflict { .. }) ==> (put matches Err(s) && s@.code
            == Code::FailedPrecondition),
        answer matches Ok(PutStateAnswer::Invalid { reason }) ==> (put matches Err(s) && s@.code
            == Code::InvalidArgument && s@.message == reason@),
{
}

/// A fence that was installed is told by its generation; only requests to a partition of a
/// group pass from node to node.
pub proof fn law_installed_fence_is_told(
    answer: PartitionFenceAnswer,
    r: Result<u64, Status>,
    is_group_partition: bool,
    passed: Result<(), Status>,
)
    requires
        call_ensures(map_fence_response, (answer,), r),
        call_ensures(admit_partition_command, (is_group_partition,), passed),
    ensures
        r is Ok <==> answer is Installed,
        r matches Ok(g) ==> answer == (PartitionFenceAnswer::Installed { generation: g }),
        answer is Invalid ==> (r matches Err(s) && s@.code == Code::InvalidArgument),
        answer is Other ==> (r matches Err(s) && s@.code == Code::Internal),
        passed is Ok <==> is_group_partition,
{
}

/// What the catalog read or applied is handed on as it is.
pub proof fn law_catalog_answers_are_handed_on(
    catalog: Catalog,
    read: Result<u64, String>,
    r: Result<u64, Status>,
    answer: Result<Result<u64, String>, WriteError>,
    applied: Result<u64, Status>,
)
    requires
        call_ensures(catalog_read::<u64>, (catalog, read), r),
        call_ensures(catalog_applied::<u64>, (catalog, answer), applied),
    ensures
        r is Ok <==> read is Ok,
        r matches Ok(t) ==> read == Ok::<u64, String>(t),
        r matches Err(s) ==> s@.code == Code::Internal,
        applied is Ok <==> (answer matches Ok(a) && a is Ok),
        applied matches Ok(t) ==> answer == Ok::<Result<u64, String>, WriteError>(
            Ok::<u64, String>(t),
        ),
        answer matches Ok(a) ==> (applied matches Err(s) ==> s@.code == Code::Internal),
{
}


/// Only requests that name the control shard are taken as requests to it.
pub proof fn law_control_shard_is_named(
    service: AggregateStoreService,
    shard_id: u64,
    r: Result<(), Status>,
)
    requires
        call_ensures(AggregateStoreService::require_control_shard, (&service, shard_id), r),
    ensures
        r is Ok <==> shard_id == service.topology.current.control_shard_id,
        r matches Err(s) ==> s@.code == Code::InvalidArgument,
{
}

} // verus!
