//! Reading the requests about aggregates: what each has to say, and in which order it is
//! looked at.
//!
//! Whether a name is one that a type, an aggregate, a group or a consumer can have is
//! decided elsewhere and comes as a verdict.

use vstd::prelude::*;

use crate::aggregate_groups::{
    AggregateGroupSettings, GroupStart, operation_fault, parse_operation_id, proto_group_settings,
    proto_group_start,
};
use crate::aggregate_service::{
    AggregateAppendAnswer, AggregateAppendStep, AggregateStoreService, ExpectedAggregateVersion,
    ExpectedStateRevision, NewAggregateEvent, NewAggregateEventRequest, aggregate_place,
    event_fault, follows, proto_expected_state_revision, proto_expected_version,
};
use crate::aggregate_tokens::AggregateTypeId;
use crate::aggregate_types::{
    AggregateTypeDefinition, AggregateTypeRef, proto_aggregate_type, type_fault,
};
use crate::event::{Hlc, copy_bytes};
use crate::ids::big_endian;
use crate::status::{Code, Status, StatusView, says};

verus! {

/// What a verdict against a name comes to.
pub open spec fn name_fault(verdict: Result<(), String>) -> Option<StatusView> {
    match verdict {
        Ok(_) => None,
        Err(e) => Some(says(Code::InvalidArgument, e@)),
    }
}

/// The first fault counts.
pub open spec fn or_else(first: Option<StatusView>, second: Option<StatusView>) -> Option<
    StatusView,
> {
    match first {
        Some(fault) => Some(fault),
        None => second,
    }
}

fn check_name(verdict: Result<(), String>) -> (r: Result<(), Status>)
    ensures
        match r {
            Ok(_) => name_fault(verdict) is None,
            Err(s) => name_fault(verdict) == Some(s@),
        },
{
    match verdict {
        Ok(_) => Ok(()),
        Err(e) => Err(Status::new(Code::InvalidArgument, e)),
    }
}

/// The name is that of the request.
pub open spec fn is_named(id: AggregateTypeId, value: Option<AggregateTypeRef>) -> bool {
    value matches Some(v) && id.business_space == v.business_space && id.aggregate_type
        == v.aggregate_type
}

/// An event to append, and to which aggregate of which type.
#[derive(Debug)]
pub struct AppendAdmitted {
    pub aggregate_type: AggregateTypeId,
    pub expected: ExpectedAggregateVersion,
    pub event: NewAggregateEvent,
}

/// A state to store, as far as it goes by the type.
#[derive(Debug)]
pub struct StateAdmitted {
    pub aggregate_type: AggregateTypeId,
    pub expected_revision: ExpectedStateRevision,
}

/// A group to create.
#[derive(Debug)]
pub struct GroupAdmitted {
    pub aggregate_type: AggregateTypeId,
    pub operation_id: u128,
    pub start: GroupStart,
    pub settings: AggregateGroupSettings,
}

impl AggregateStoreService {
    /// Reads a request to append an event: the type, the aggregate, the event.
    pub fn admit_append(
        &self,
        value: Option<AggregateTypeRef>,
        type_verdict: Result<(), String>,
        aggregate_verdict: Result<(), String>,
        expected: Option<ExpectedAggregateVersion>,
        event: Option<NewAggregateEventRequest>,
    ) -> (r: Result<AppendAdmitted, Status>)
        ensures
            ({
                let fault = or_else(
                    type_fault(value, type_verdict),
                    or_else(
                        name_fault(aggregate_verdict),
                        event_fault(event, self.max_event_bytes),
                    ),
                );
                match r {
                    Err(s) => fault == Some(s@),
                    Ok(a) => fault is None && is_named(a.aggregate_type, value) && a.expected == (
                    match expected {
                        Some(e) => e,
                        None => ExpectedAggregateVersion::Any,
                    }) && a.event.event_id == big_endian(event->0.event_id@) && a.event.event_type
                        == event->0.event_type && a.event.data == event->0.data
                        && a.event.metadata == event->0.metadata,
                }
            }),
    {
        let aggregate_type = match proto_aggregate_type(value, type_verdict) {
            Ok(id) => id,
            Err(s) => return Err(s),
        };
        if let Err(s) = check_name(aggregate_verdict) {
            return Err(s);
        }
        let expected = proto_expected_version(expected);
        match self.new_event(event) {
            Ok(event) => Ok(AppendAdmitted { aggregate_type, expected, event }),
            Err(s) => Err(s),
        }
    }

    /// Reads a request to store a state of so many bytes: the size, the type, the revision
    /// that it replaces.
    pub fn admit_put_state(
        &self,
        len: usize,
        value: Option<AggregateTypeRef>,
        type_verdict: Result<(), String>,
        expected_revision: Option<ExpectedStateRevision>,
    ) -> (r: Result<StateAdmitted, Status>)
        ensures
            ({
                let too_large = if len > self.max_event_bytes {
                    Some(says(Code::FailedPrecondition, "聚合状态 payload 超出限制"@))
                } else {
                    None
                };
                let fault = or_else(
                    too_large,
                    or_else(
                        type_fault(value, type_verdict),
                        if expected_revision is None {
                            Some(says(Code::InvalidArgument, "expected_revision 必填"@))
                        } else {
                            None
                        },
                    ),
                );
                match r {
                    Err(s) => fault == Some(s@),
                    Ok(a) => fault is None && is_named(a.aggregate_type, value) && Some(
                        a.expected_revision,
                    ) == expected_revision,
                }
            }),
    {
        if let Err(s) = self.check_state_size(len) {
            return Err(s);
        }
        let aggregate_type = match proto_aggregate_type(value, type_verdict) {
            Ok(id) => id,
            Err(s) => return Err(s),
        };
        match proto_expected_state_revision(expected_revision) {
            Ok(expected_revision) => Ok(StateAdmitted { aggregate_type, expected_revision }),
            Err(s) => Err(s),
        }
    }
}

/// What a shard is asked to append.
#[derive(Debug)]
pub struct AggregateAppendCommand {
    pub aggregate_type: AggregateTypeId,
    pub partition_id: u16,
    pub partition_generation: u64,
    pub aggregate_id: String,
    pub expected_version: ExpectedAggregateVersion,
    pub event: NewAggregateEvent,
    pub hlc: Hlc,
}

/// An event on its way, and the shard that it goes to.
#[derive(Debug)]
pub struct PlacedAppend {
    pub shard_id: u64,
    pub command: AggregateAppendCommand,
}

/// The event goes where the type has the partition, with the generation that it has
/// there, and as it was admitted.
pub open spec fn is_placed(
    placed: PlacedAppend,
    a: AppendAdmitted,
    aggregate_id: Seq<char>,
    d: AggregateTypeDefinition,
    partition: u16,
) -> bool {
    let c = placed.command;
    &&& d.placements@.dom().contains(partition as u64)
    &&& placed.shard_id == d.placements@[partition as u64].shard_id
    &&& c.partition_id == partition
    &&& c.partition_generation == d.placements@[partition as u64].generation
    &&& c.aggregate_type@ == d.id@
    &&& c.aggregate_id@ == aggregate_id
    &&& c.expected_version == a.expected
    &&& c.event.event_id == a.event.event_id
    &&& c.event.event_type@ == a.event.event_type@
    &&& c.event.data@ == a.event.data@
    &&& c.event.metadata@ == a.event.metadata@
}

/// Addresses an event to the shard of its aggregate.  `partition` is what the hash of the
/// aggregate's name gives, and `hlc` the time.
pub fn place_append(
    a: &AppendAdmitted,
    aggregate_id: &str,
    d: &AggregateTypeDefinition,
    partition: Result<u16, String>,
    hlc: Hlc,
) -> (r: Result<PlacedAppend, Status>)
    requires
        d.wf(),
    ensures
        match partition {
            Err(e) => r matches Err(s) && s@ == says(Code::InvalidArgument, e@),
            Ok(p) => match r {
                Ok(placed) => is_placed(placed, *a, aggregate_id@, *d, p) && placed.command.hlc
                    == hlc,
                Err(s) => !d.placements@.dom().contains(p as u64) && s@ == says(
                    Code::Internal,
                    "聚合类型缺少分区放置"@,
                ),
            },
        },
{
    let (partition_id, place) = match aggregate_place(d, partition) {
        Ok(found) => found,
        Err(s) => return Err(s),
    };
    let event = NewAggregateEvent {
        event_id: a.event.event_id,
        event_type: a.event.event_type.clone(),
        data: copy_bytes(&a.event.data),
        metadata: copy_bytes(&a.event.metadata),
    };
    let command = AggregateAppendCommand {
        aggregate_type: d.id.clone(),
        partition_id,
        partition_generation: place.generation,
        aggregate_id: String::from_str(aggregate_id),
        expected_version: a.expected,
        event,
        hlc,
    };
    Ok(PlacedAppend { shard_id: place.shard_id, command })
}

/// An event that is sent twice asks the shard for the same both times, apart from the
/// clock; and where the shard answers both times that it has the event, with the same
/// version, both replies are that version.
pub proof fn law_repeated_append_asks_and_answers_the_same(
    first: PlacedAppend,
    second: PlacedAppend,
    a: AppendAdmitted,
    aggregate_id: Seq<char>,
    d: AggregateTypeDefinition,
    partition: u16,
    version: u64,
    position: u64,
    steps: (AggregateAppendStep, AggregateAppendStep),
)
    requires
        is_placed(first, a, aggregate_id, d, partition),
        is_placed(second, a, aggregate_id, d, partition),
        ({
            let stored = AggregateAppendAnswer::AppendOk {
                aggregate_version: version,
                partition_position: position,
            };
            follows(steps.0, Ok(stored), false) && follows(steps.1, Ok(stored), false)
        }),
    ensures
        second.shard_id == first.shard_id,
        second.command.aggregate_type@ == first.command.aggregate_type@,
        second.command.partition_id == first.command.partition_id,
        second.command.partition_generation == first.command.partition_generation,
        second.command.aggregate_id@ == first.command.aggregate_id@,
        second.command.expected_version == first.command.expected_version,
        second.command.event.event_id == first.command.event.event_id,
        second.command.event.event_type@ == first.command.event.event_type@,
        second.command.event.data@ == first.command.event.data@,
        second.command.event.metadata@ == first.command.event.metadata@,
        steps.0 == AggregateAppendStep::Done(Ok(version)),
        steps.1 == steps.0,
{
}

/// Reads a request to create a group: the type, the group's name, the operation, the
/// start, the settings.
pub fn admit_group_creation(
    value: Option<AggregateTypeRef>,
    type_verdict: Result<(), String>,
    name_verdict: Result<(), String>,
    operation_id: &Vec<u8>,
    start: Option<GroupStart>,
    settings: Option<AggregateGroupSettings>,
    defaults: &AggregateGroupSettings,
    settings_verdict: Result<(), String>,
) -> (r: Result<GroupAdmitted, Status>)
    ensures
        ({
            let fault = or_else(
                type_fault(value, type_verdict),
                or_else(
                    name_fault(name_verdict),
                    or_else(operation_fault(operation_id@), name_fault(settings_verdict)),
                ),
            );
            match r {
                Err(s) => fault == Some(s@),
                Ok(a) => fault is None && is_named(a.aggregate_type, value) && a.operation_id
                    == big_endian(operation_id@) && a.start == (match start {
                    Some(s) => s,
                    None => GroupStart::Beginning,
                }) && a.settings == (match settings {
                    Some(s) => s,
                    None => *defaults,
                }),
            }
        }),
{
    let aggregate_type = match proto_aggregate_type(value, type_verdict) {
        Ok(id) => id,
        Err(s) => return Err(s),
    };
    if let Err(s) = check_name(name_verdict) {
        return Err(s);
    }
    let operation_id: u128 = match parse_operation_id(operation_id) {
        Ok(id) => id,
        Err(s) => return Err(s),
    };
    let start = proto_group_start(start);
    match proto_group_settings(settings, defaults, settings_verdict) {
        Ok(settings) => Ok(GroupAdmitted { aggregate_type, operation_id, start, settings }),
        Err(s) => Err(s),
    }
}

/// Reads a request to remove a group: the type, the operation.
pub fn admit_group_removal(
    value: Option<AggregateTypeRef>,
    type_verdict: Result<(), String>,
    operation_id: &Vec<u8>,
) -> (r: Result<(AggregateTypeId, u128), Status>)
    ensures
        ({
            let fault = or_else(type_fault(value, type_verdict), operation_fault(operation_id@));
            match r {
                Err(s) => fault == Some(s@),
                Ok((id, operation)) => fault is None && is_named(id, value) && operation
                    == big_endian(operation_id@),
            }
        }),
{
    let aggregate_type = match proto_aggregate_type(value, type_verdict) {
        Ok(id) => id,
        Err(s) => return Err(s),
    };
    match parse_operation_id(operation_id) {
        Ok(operation) => Ok((aggregate_type, operation)),
        Err(s) => Err(s),
    }
}

/// Reads a request of a consumer to its group: the type, the consumer.
pub fn admit_consumer(
    value: Option<AggregateTypeRef>,
    type_verdict: Result<(), String>,
    consumer_verdict: Result<(), String>,
) -> (r: Result<AggregateTypeId, Status>)
    ensures
        ({
            let fault = or_else(type_fault(value, type_verdict), name_fault(consumer_verdict));
            match r {
                Err(s) => fault == Some(s@),
                Ok(id) => fault is None && is_named(id, value),
            }
        }),
{
    let aggregate_type = match proto_aggregate_type(value, type_verdict) {
        Ok(id) => id,
        Err(s) => return Err(s),
    };
    match check_name(consumer_verdict) {
        Ok(_) => Ok(aggregate_type),
        Err(s) => Err(s),
    }
}


/// An append is admitted where its type is named, the rules have nothing against the names
/// of type and aggregate, and its event can be taken in.  A version that is not expected
/// stands for any.
pub proof fn law_append_is_admitted_or_refused(
    service: AggregateStoreService,
    value: Option<AggregateTypeRef>,
    type_verdict: Result<(), String>,
    aggregate_verdict: Result<(), String>,
    expected: Option<ExpectedAggregateVersion>,
    event: Option<NewAggregateEventRequest>,
    r: Result<AppendAdmitted, Status>,
)
    requires
        call_ensures(
            AggregateStoreService::admit_append,
            (&service, value, type_verdict, aggregate_verdict, expected, event),
            r,
        ),
    ensures
        r is Ok <==> value is Some && type_verdict is Ok && aggregate_verdict is Ok && (
        event matches Some(e) && e.data@.len() + e.metadata@.len() <= service.max_event_bytes
            && e.event_id@.len() == 16 && e.event_type@.len() > 0),
        r matches Ok(a) ==> {
            &&& a.aggregate_type.business_space@ == value->0.business_space@
            &&& a.aggregate_type.aggregate_type@ == value->0.aggregate_type@
            &&& expected matches Some(e) ==> a.expected == e
            &&& expected is None ==> a.expected is Any
            &&& a.event.event_id == big_endian(event->0.event_id@)
            &&& a.event.data@ == event->0.data@ && a.event.metadata@ == event->0.metadata@
                && a.event.event_type@ == event->0.event_type@
        },
        r matches Err(s) ==> s@.code == Code::InvalidArgument || s@.code
            == Code::FailedPrecondition,
        r matches Err(s) ==> (type_verdict matches Err(e) ==> (value is Some ==> s@.message
            == e@)),
{
}

/// A state is written where it stays within the limit, its type is named and accepted, and
/// it says which revision it expects.
pub proof fn law_state_write_is_admitted_or_refused(
    service: AggregateStoreService,
    len: usize,
    value: Option<AggregateTypeRef>,
    type_verdict: Result<(), String>,
    expected_revision: Option<ExpectedStateRevision>,
    r: Result<StateAdmitted, Status>,
)
    requires
        call_ensures(
            AggregateStoreService::admit_put_state,
            (&service, len, value, type_verdict, expected_revision),
            r,
        ),
    ensures
        r is Ok <==> len <= service.max_event_bytes && value is Some && type_verdict is Ok
            && expected_revision is Some,
        r matches Ok(a) ==> a.aggregate_type.business_space@ == value->0.business_space@
            && a.aggregate_type.aggregate_type@ == value->0.aggregate_type@ && Some(
            a.expected_revision,
        ) == expected_revision,
        r matches Err(s) ==> s@.code == (if len > service.max_event_bytes {
            Code::FailedPrecondition
        } else {
            Code::InvalidArgument
        }),
{
}

/// A group is created, removed or read from only under names that the rules accept; a
/// change of it is named by sixteen bytes.
pub proof fn law_group_requests_are_admitted_or_refused(
    value: Option<AggregateTypeRef>,
    type_verdict: Result<(), String>,
    name_verdict: Result<(), String>,
    operation_id: Vec<u8>,
    start: Option<GroupStart>,
    settings: Option<AggregateGroupSettings>,
    defaults: AggregateGroupSettings,
    settings_verdict: Result<(), String>,
    created: Result<GroupAdmitted, Status>,
    removed: Result<(AggregateTypeId, u128), Status>,
    consumed: Result<AggregateTypeId, Status>,
)
    requires
        call_ensures(
            admit_group_creation,
            (
                value,
                type_verdict,
                name_verdict,
                &operation_id,
                start,
                settings,
                &defaults,
                settings_verdict,
            ),
            created,
        ),
        call_ensures(admit_group_removal, (value, type_verdict, &operation_id), removed),
        call_ensures(admit_consumer, (value, type_verdict, name_verdict), consumed),
    ensures
        created is Ok <==> value is Some && type_verdict is Ok && name_verdict is Ok
            && operation_id@.len() == 16 && settings_verdict is Ok,
        removed is Ok <==> value is Some && type_verdict is Ok && operation_id@.len() == 16,
        consumed is Ok <==> value is Some && type_verdict is Ok && name_verdict is Ok,
        created matches Ok(a) ==> {
            &&& a.aggregate_type.business_space@ == value->0.business_space@
                && a.aggregate_type.aggregate_type@ == value->0.aggregate_type@
            &&& a.operation_id == big_endian(operation_id@)
            &&& start is None ==> a.start is Beginning
            &&& start matches Some(s) ==> a.start == s
            &&& settings is None ==> a.settings == defaults
            &&& settings matches Some(s) ==> a.settings == s
        },
        removed matches Ok((id, operation)) ==> id.business_space@ == value->0.business_space@
            && id.aggregate_type@ == value->0.aggregate_type@ && operation == big_endian(
            operation_id@,
        ),
        consumed matches Ok(id) ==> id.business_space@ == value->0.business_space@
            && id.aggregate_type@ == value->0.aggregate_type@,
        created matches Err(s) ==> s@.code == Code::InvalidArgument,
        removed matches Err(s) ==> s@.code == Code::InvalidArgument,
        consumed matches Err(s) ==> s@.code == Code::InvalidArgument,
{
}

/// An append goes to the shard and generation that its partition has in the catalog, with
/// all that was admitted of it.
pub proof fn law_append_is_placed_where_its_partition_is(
    a: AppendAdmitted,
    aggregate_id: &str,
    d: AggregateTypeDefinition,
    partition: Result<u16, String>,
    hlc: Hlc,
    r: Result<PlacedAppend, Status>,
)
    requires
        call_ensures(place_append, (&a, aggregate_id, &d, partition, hlc), r),
    ensures
        r is Ok <==> (partition matches Ok(p) && d.placements@.dom().contains(p as u64)),
        r matches Ok(placed) ==> {
            let p = partition->Ok_0;
            let c = placed.command;
            &&& placed.shard_id == d.placements@[p as u64].shard_id
            &&& c.partition_id == p && c.partition_generation
                == d.placements@[p as u64].generation
            &&& c.aggregate_type.business_space@ == d.id.business_space@
                && c.aggregate_type.aggregate_type@ == d.id.aggregate_type@
            &&& c.aggregate_id@ == aggregate_id@ && c.expected_version == a.expected
            &&& c.event.event_id == a.event.event_id && c.event.event_type@
                == a.event.event_type@ && c.event.data@ == a.event.data@ && c.event.metadata@
                == a.event.metadata@
            &&& c.hlc == hlc
        },
        r matches Err(s) ==> s@.code == (if partition is Err {
            Code::InvalidArgument
        } else {
            Code::Internal
        }),
{
}

} // verus!
