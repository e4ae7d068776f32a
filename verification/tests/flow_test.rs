//! Requests that take several steps, run to their end.

use es_server::aggregate_admission::{
    admit_consumer, admit_group_creation, admit_group_removal, place_append,
};
use es_server::aggregate_consume::{FetchRound, FetchStep, RoundEnd, Settling};
use es_server::aggregate_delivery::{
    GroupDelivery, GroupFetchLimits, NamedDelivery, PartitionOutput, SettlementAnswer,
};
use es_server::aggregate_follow::{AggregatePartitionCursor, SourceFrame, StoredAggregateEvent};
use es_server::aggregate_group_start::{CaptureStage, capture_group_starts, on_start_frame};
use es_server::aggregate_groups::{
    AggregateGroupDefinition, AggregateGroupSettings, GroupStart, beginning_starts,
};
use es_server::aggregate_registration::{
    RegisterStage, fence_at, on_partition_fenced, on_type_activated, on_type_created, register,
};
use es_server::aggregate_service::{
    AggregateAppendAnswer, AggregateAppendStep, AggregateStoreService, ExpectedAggregateVersion,
    ExpectedStateRevision, NewAggregateEventRequest, on_append_answer,
};
use es_server::aggregate_tokens::{AggregateTypeId, encode_delivery_token};
use es_server::aggregate_types::{
    AggregateTypeDefinition, AggregateTypeRef, AggregateTypeStatus, CatalogOutcome, Placement,
};
use es_server::config::{Config, FileRead};
use es_server::event::{Event, Hlc};
use es_server::ids::id_bytes;
use es_server::maps::{IdMap, TextMap};
use es_server::persistent_fetch::FetchResponse;
use es_server::persistent_flow::{Look, LookStage};
use es_server::persistent_group::{
    Delivery, PersistentGroup, PersistentSettings, PersistentTarget, StreamProgress,
};
use es_server::persistent_service::{GroupOutcome, SettlementStatus};
use es_server::route_table::RouteTable;
use es_server::status::{Code, Status};
use es_server::versions::VersionMap;

fn aggregate_type() -> AggregateTypeId {
    AggregateTypeId { business_space: "orders".to_string(), aggregate_type: "order".to_string() }
}

fn type_ref() -> Option<AggregateTypeRef> {
    Some(AggregateTypeRef {
        business_space: "orders".to_string(),
        aggregate_type: "order".to_string(),
    })
}

fn definition(shards: &[u64]) -> AggregateTypeDefinition {
    let mut placements: IdMap<Placement> = IdMap::new();
    for (partition, shard) in shards.iter().enumerate() {
        let place = Placement { shard_id: *shard, generation: 7, moving_to: None };
        placements.insert(partition as u64, place);
    }
    AggregateTypeDefinition {
        id: aggregate_type(),
        partition_count: shards.len() as u16,
        status: AggregateTypeStatus::Registering,
        placements,
    }
}

fn settings() -> AggregateGroupSettings {
    AggregateGroupSettings {
        max_unacked_per_consumer: 100,
        max_unacked_per_group: 1_000,
        ack_timeout_ms: 30_000,
        max_retries: 5,
        retry_min_ms: 100,
        retry_max_ms: 10_000,
    }
}

fn group(partitions: u16) -> AggregateGroupDefinition {
    AggregateGroupDefinition {
        aggregate_type: aggregate_type(),
        name: "workers".to_string(),
        revision: 1,
        epoch: 3,
        start: GroupStart::Beginning,
        partition_starts: beginning_starts(partitions),
        settings: settings(),
        create_operation_id: 1,
        last_operation_id: 1,
    }
}

fn refused() -> Status {
    Status::new(Code::Unavailable, "no leader".to_string())
}

#[test]
fn a_type_is_activated_when_every_partition_is_fenced() {
    let stage = register(type_ref(), Ok(()), &id_bytes(9), &vec![4, 5]);
    let registration = match stage {
        RegisterStage::Create { registration, placements, seed } => {
            assert_eq!(registration.operation_id, 9);
            assert_eq!(seed, id_bytes(9));
            assert_eq!(placements[..3], [4, 5, 4]);
            registration
        }
        other => panic!("should create: {other:?}"),
    };
    let created = Ok(CatalogOutcome::AggregateType(definition(&[4, 5, 4])));
    let mut stage = on_type_created(registration, created);
    let mut fenced: Vec<(u16, u64, u64)> = Vec::new();
    loop {
        stage = match stage {
            RegisterStage::Fence { registration, definition, at } => {
                let f = fence_at(&definition, at);
                fenced.push((f.partition_id, f.shard_id, f.generation));
                on_partition_fenced(registration, definition, at, Ok(7))
            }
            other => {
                stage = other;
                break;
            }
        };
    }
    assert_eq!(fenced, [(0, 4, 7), (1, 5, 7), (2, 4, 7)]);
    assert!(matches!(&stage, RegisterStage::Activate(r) if r.operation_id == 9));
    match on_type_activated(Ok((CatalogOutcome::AggregateType(definition(&[4])), 12))) {
        RegisterStage::Done(Ok(info)) => assert_eq!(info.catalog_revision, 12),
        other => panic!("should be done: {other:?}"),
    }
}

#[test]
fn a_registration_stops_at_the_first_failure() {
    assert!(matches!(
        register(None, Ok(()), &id_bytes(9), &vec![4]),
        RegisterStage::Done(Err(s)) if s.code() == Code::InvalidArgument
    ));
    assert!(matches!(
        register(type_ref(), Ok(()), &vec![1], &vec![4]),
        RegisterStage::Done(Err(s)) if s.code() == Code::InvalidArgument
    ));
    let begun = || match register(type_ref(), Ok(()), &id_bytes(9), &vec![4]) {
        RegisterStage::Create { registration, .. } => registration,
        other => panic!("should create: {other:?}"),
    };
    assert!(matches!(
        on_type_created(begun(), Ok(CatalogOutcome::Conflict { reason: "taken".to_string() })),
        RegisterStage::Done(Err(s)) if s.code() == Code::AlreadyExists
    ));
    assert!(matches!(
        on_partition_fenced(begun(), definition(&[4, 5]), 0, Err(refused())),
        RegisterStage::Done(Err(s)) if s.message() == "no leader"
    ));
    assert!(matches!(
        on_type_activated(Ok((CatalogOutcome::NotFound, 1))),
        RegisterStage::Done(Err(s)) if s.code() == Code::NotFound
    ));
}

fn stored(partition: u16, position: u64) -> StoredAggregateEvent {
    StoredAggregateEvent {
        aggregate_type: aggregate_type(),
        partition_id: partition,
        partition_position: position,
        aggregate_id: "order-1".to_string(),
        aggregate_version: position,
        event_id: 1,
        event_type: "created".to_string(),
        data: vec![0; 3],
        metadata: Vec::new(),
        hlc: Hlc { wall: 1, logical: 0 },
    }
}

fn output(partition: u16, count: u64, caught_up: bool) -> PartitionOutput {
    let deliveries = (0..count)
        .map(|position| {
            let d = GroupDelivery {
                delivery_id: position as u128,
                partition_position: position,
                attempt: 1,
                deadline_ms: 5,
                replayed: false,
            };
            (d, stored(partition, position))
        })
        .collect();
    PartitionOutput { deliveries, caught_up, throttled: false }
}

#[test]
fn a_fetch_goes_round_until_it_is_full() {
    let limits = GroupFetchLimits { max_events: 3, max_bytes: 1_000, wait_ms: 50 };
    let (d, g) = (definition(&[4, 5, 4]), group(3));
    let mut round = FetchRound::begin(&limits);
    let mut asked: Vec<(u16, u64, u32)> = Vec::new();
    while let FetchStep::Ask { partition_id, place, input } = round.next(&d, &g, 100) {
        assert_eq!((input.group_epoch, input.now_ms, input.ack_timeout_ms), (3, 100, 30_000));
        asked.push((partition_id, place.shard_id, input.max_events));
        round = round.on_output(&g, partition_id, Ok(output(partition_id, 2, true))).unwrap();
    }
    assert_eq!(asked, [(0, 4, 3), (1, 5, 1)]);
    match round.end(50, false) {
        RoundEnd::Answer(r) => {
            assert_eq!(r.deliveries.len(), 4);
            assert!(!r.caught_up, "a full fetch has not caught up");
        }
        other => panic!("should answer: {other:?}"),
    }
}

#[test]
fn an_idle_fetch_sleeps_and_a_failed_one_fails() {
    let limits = GroupFetchLimits { max_events: 3, max_bytes: 1_000, wait_ms: 50 };
    let (d, g) = (definition(&[4]), group(1));
    let mut round = FetchRound::begin(&limits);
    assert!(matches!(round.next(&d, &g, 1), FetchStep::Ask { .. }));
    let mut round = round.on_output(&g, 0, Ok(output(0, 0, false))).unwrap();
    assert!(matches!(round.next(&d, &g, 1), FetchStep::Over));
    assert!(matches!(round.end(50, false), RoundEnd::Again { pause_ms: 20 }));
    let round = FetchRound::begin(&limits);
    assert_eq!(round.on_output(&g, 0, Err(refused())).unwrap_err().code(), Code::Unavailable);
}

#[test]
fn settling_goes_round_the_partitions() {
    let name = |epoch: u64, partition: u16, delivery: u128| NamedDelivery {
        delivery_id: encode_delivery_token(&aggregate_type(), "workers", epoch, partition, delivery)
            .unwrap(),
        acceptable: true,
    };
    let named = || vec![name(3, 1, 10), name(2, 0, 11), name(3, 0, 12), name(3, 1, 13)];
    let (d, g) = (definition(&[4, 5]), group(2));
    let mut s = Settling::begin(named(), &aggregate_type(), "workers", 3).unwrap();
    let mut asked: Vec<(u64, u64, usize)> = Vec::new();
    while let Some(ask) = s.next(&d, &g).unwrap() {
        let count = s.groups[s.at].1.len();
        asked.push((ask.partition_id, ask.place.shard_id, count));
        let statuses = vec![SettlementStatus::Applied; count];
        s = s.on_answer(Ok(SettlementAnswer::Renewed(statuses)), Some(99), "").unwrap();
    }
    assert_eq!(asked, [(0, 4, 1), (1, 5, 2)]);
    let results = s.finish();
    let deadlines: Vec<u64> = results.iter().map(|r| r.deadline_ms).collect();
    assert_eq!(deadlines, [99, 0, 99, 99]);
    assert_eq!(results[1].status, SettlementStatus::StaleLease);
    assert!(results.iter().zip(named()).all(|(r, n)| r.delivery_id == n.delivery_id));

    let elsewhere = vec![name(3, 9, 10)];
    let s = Settling::begin(elsewhere, &aggregate_type(), "workers", 3).unwrap();
    assert_eq!(s.next(&d, &g).unwrap_err().code(), Code::InvalidArgument);
    let s = Settling::begin(named(), &aggregate_type(), "workers", 3).unwrap();
    let stale = Ok(SettlementAnswer::StaleEpoch { current_epoch: 4 });
    assert_eq!(s.on_answer(stale, None, "").unwrap_err().code(), Code::FailedPrecondition);
}

#[test]
fn a_group_that_begins_now_begins_at_the_ends() {
    let at = |partition_id: u32, next_position: u64| AggregatePartitionCursor {
        partition_id,
        next_position,
    };
    let d = definition(&[4, 5, 4]);
    match capture_group_starts(&d, GroupStart::Beginning) {
        CaptureStage::Done(Ok(starts)) => assert_eq!(starts.entries, [(0, 0), (1, 0), (2, 0)]),
        other => panic!("should be done: {other:?}"),
    }
    let c = match capture_group_starts(&d, GroupStart::Now) {
        CaptureStage::Open(c) => c,
        other => panic!("should open a source: {other:?}"),
    };
    assert_eq!(c.sources[c.at].0, 4);
    let c = match on_start_frame(c, Some(Ok(SourceFrame::Empty))) {
        CaptureStage::Listen(c) => c,
        other => panic!("should listen: {other:?}"),
    };
    let frame = SourceFrame::CaughtUp(vec![at(0, 6), at(2, 8)]);
    let c = match on_start_frame(c, Some(Ok(frame))) {
        CaptureStage::Open(c) => c,
        other => panic!("should open the next source: {other:?}"),
    };
    assert_eq!(c.sources[c.at].0, 5);
    match on_start_frame(c, Some(Ok(SourceFrame::CaughtUp(vec![at(1, 7)])))) {
        CaptureStage::Done(Ok(starts)) => assert_eq!(starts.entries, [(0, 6), (1, 7), (2, 8)]),
        other => panic!("should be done: {other:?}"),
    }
    let again = || match capture_group_starts(&definition(&[4]), GroupStart::Now) {
        CaptureStage::Open(c) => c,
        other => panic!("should open a source: {other:?}"),
    };
    assert!(matches!(on_start_frame(again(), None), CaptureStage::Done(Err(_))));
    assert!(matches!(on_start_frame(again(), Some(Err(refused()))), CaptureStage::Done(Err(_))));
    assert!(matches!(
        on_start_frame(again(), Some(Ok(SourceFrame::CaughtUp(Vec::new())))),
        CaptureStage::Done(Err(s)) if s.code() == Code::Unavailable
    ));
}

#[test]
fn requests_are_looked_at_in_order() {
    let unread = FileRead::Failed("missing".to_string());
    let service = AggregateStoreService::new(&Config::default(), unread).unwrap();
    let event = || {
        Some(NewAggregateEventRequest {
            event_id: id_bytes(4),
            event_type: "created".to_string(),
            data: vec![1],
            metadata: Vec::new(),
        })
    };
    let bad = || Err("bad name".to_string());
    let ok = service.admit_append(type_ref(), Ok(()), Ok(()), None, event()).unwrap();
    assert_eq!(ok.expected, ExpectedAggregateVersion::Any);
    assert_eq!(ok.event.event_id, 4);
    assert!(ok.aggregate_type.same(&aggregate_type()));
    let first = service.admit_append(None, Ok(()), bad(), None, None).unwrap_err();
    assert_eq!(first.message(), "aggregate_type 必填");
    let second = service.admit_append(type_ref(), Ok(()), bad(), None, None).unwrap_err();
    assert_eq!(second.message(), "bad name");
    let third = service.admit_append(type_ref(), Ok(()), Ok(()), None, None).unwrap_err();
    assert_eq!(third.message(), "event 必填");

    let absent = Some(ExpectedStateRevision::Absent);
    assert!(service.admit_put_state(10, type_ref(), Ok(()), absent).is_ok());
    let large = service.admit_put_state(1024 * 1024 + 1, None, Ok(()), None).unwrap_err();
    assert_eq!(large.code(), Code::FailedPrecondition);
    let open = service.admit_put_state(10, type_ref(), Ok(()), None).unwrap_err();
    assert_eq!(open.message(), "expected_revision 必填");

    let create = |name: Result<(), String>, operation: &Vec<u8>, rules: Result<(), String>| {
        admit_group_creation(
            type_ref(),
            Ok(()),
            name,
            operation,
            Some(GroupStart::Now),
            None,
            &settings(),
            rules,
        )
    };
    let made = create(Ok(()), &id_bytes(8), Ok(())).unwrap();
    assert_eq!((made.operation_id, made.start, made.settings), (8, GroupStart::Now, settings()));
    assert_eq!(create(bad(), &vec![], bad()).unwrap_err().message(), "bad name");
    assert_eq!(
        create(Ok(()), &vec![], bad()).unwrap_err().message(),
        "operation_id 必须是 16 字节 UUID"
    );
    assert_eq!(create(Ok(()), &id_bytes(8), bad()).unwrap_err().message(), "bad name");
    assert_eq!(admit_group_removal(type_ref(), Ok(()), &id_bytes(3)).unwrap().1, 3);
    assert!(admit_group_removal(type_ref(), Ok(()), &vec![3]).is_err());
    assert!(admit_consumer(type_ref(), Ok(()), Ok(())).is_ok());
    assert_eq!(admit_consumer(type_ref(), Ok(()), bad()).unwrap_err().message(), "bad name");
}

fn persistent_group(streams: &[(&str, u64, u64)]) -> PersistentGroup {
    let mut progress: TextMap<StreamProgress> = TextMap::new();
    for (stream, next, generation) in streams {
        progress.insert(stream.to_string(), StreamProgress::new(*next, *generation));
    }
    PersistentGroup {
        name: "g".to_string(),
        revision: 1,
        epoch: 1,
        target: PersistentTarget::All,
        settings: PersistentSettings {
            max_unacked_per_consumer: 10,
            max_unacked_per_group: 100,
            ack_timeout_ms: 500,
            max_retries: 3,
            retry_min_ms: 1,
            retry_max_ms: 2,
        },
        progress,
        pending_retries: VersionMap::new(),
        deliveries: Vec::new(),
        parked: Vec::new(),
        scan_after: None,
    }
}

fn expired_delivery() -> Delivery {
    Delivery {
        delivery_id: 1,
        stream_id: "a".to_string(),
        version: 0,
        consumer_id: "c".to_string(),
        deadline_ms: 900,
        attempt: 1,
        group_epoch: 1,
        replayed: false,
    }
}

fn event(stream: &str, version: u64) -> Event {
    Event {
        stream_id: stream.to_string(),
        version,
        event_id: id_bytes(3),
        event_type: "T".to_string(),
        data: Vec::new(),
        metadata: Vec::new(),
        hlc: None,
        position: version,
        shard_id: 5,
    }
}

fn look() -> Look {
    Look { consumer_id: "c".to_string(), max_events: 4, max_bytes: 1_000, now: 1_000 }
}

#[test]
fn a_look_goes_from_the_group_to_its_events() {
    let look = look();
    let mut table = RouteTable::new();
    table.insert("a".to_string(), 5);
    table.insert("b".to_string(), 6);
    table.stream_generations.insert("a".to_string(), 2);

    assert!(matches!(Look::begin(), LookStage::ReadGroup { expired: false }));
    let mut late = persistent_group(&[("a", 3, 1)]);
    late.deliveries.push(expired_delivery());
    assert!(matches!(look.on_group(false, Ok(late), &table), LookStage::Expire));
    assert!(matches!(Look::on_expired(Ok(())), LookStage::ReadGroup { expired: true }));

    let group = persistent_group(&[("a", 3, 1)]);
    match look.on_group(true, Ok(group), &table) {
        LookStage::Heads { missing } => assert_eq!(missing, ["b"]),
        other => panic!("should ask for heads: {other:?}"),
    }
    let mut heads: TextMap<(u64, u64)> = TextMap::new();
    heads.insert("b".to_string(), (9, 1));
    match Look::on_heads(Ok(heads)) {
        LookStage::EnsureStreams { streams } => {
            assert_eq!(streams.get("b").unwrap().next_version, 0);
        }
        other => panic!("should add streams: {other:?}"),
    }
    let full = || persistent_group(&[("a", 3, 1), ("b", 0, 1)]);
    let group = match Look::on_ensured(Ok(GroupOutcome::Done(full())), "") {
        LookStage::Ownership { group } => group,
        other => panic!("should look at owners: {other:?}"),
    };
    let routes = match Look::on_table(group, &table) {
        LookStage::Reconcile { generations, routes } => {
            assert_eq!(generations.entries, [("a".to_string(), 2)]);
            routes
        }
        other => panic!("should reconcile: {other:?}"),
    };
    let current = persistent_group(&[("a", 3, 2), ("b", 0, 1)]);
    let (group, routes) = match Look::on_reconciled(routes, Ok(GroupOutcome::Done(current)), "") {
        LookStage::Credit { group, routes } => (group, routes),
        other => panic!("should ask for credit: {other:?}"),
    };
    let mut g = match look.on_credit(group, routes, 2) {
        LookStage::Read(g) => g,
        other => panic!("should read: {other:?}"),
    };
    let mut asked: Vec<(u64, u32)> = Vec::new();
    while let Some(read) = g.next() {
        asked.push((read.shard_id, read.max_events));
        let got = if read.shard_id == 5 { vec![(event("a", 3), 10)] } else { Vec::new() };
        g = g.on_events(Ok(got)).unwrap();
    }
    assert_eq!(asked, [(5, 2), (6, 1)]);
    let events = match look.on_gathered(g) {
        LookStage::Claim { candidates, events, deadline_ms } => {
            assert_eq!(deadline_ms, 1_500);
            assert_eq!(candidates.len(), 1);
            assert_eq!((candidates[0].version, candidates[0].event_id), (3, 3));
            events
        }
        other => panic!("should claim: {other:?}"),
    };
    let mut claim = expired_delivery();
    claim.version = 3;
    match Look::on_claimed(events, Ok(GroupOutcome::Done(vec![claim])), "") {
        LookStage::Done(Ok(FetchResponse { deliveries, .. })) => {
            assert_eq!(deliveries.len(), 1);
            assert_eq!(deliveries[0].event.version, 3);
        }
        other => panic!("should be done: {other:?}"),
    }
}

#[test]
fn a_look_ends_early_without_credit_or_events() {
    let look = look();
    let routes = || {
        let mut m: TextMap<u64> = TextMap::new();
        m.insert("a".to_string(), 5);
        m
    };
    let group = || persistent_group(&[("a", 3, 1)]);
    match look.on_credit(group(), routes(), 0) {
        LookStage::Done(Ok(r)) => assert_eq!((r.throttled, r.retry_after_ms), (true, 500)),
        other => panic!("should be throttled: {other:?}"),
    }
    let g = match look.on_credit(group(), routes(), 3) {
        LookStage::Read(g) => g,
        other => panic!("should read: {other:?}"),
    };
    let g = g.on_events(Ok(Vec::new())).unwrap();
    assert!(g.next().is_none());
    match look.on_gathered(g) {
        LookStage::Done(Ok(r)) => assert!(r.caught_up && r.deliveries.is_empty()),
        other => panic!("should be caught up: {other:?}"),
    }
    let gone: Result<GroupOutcome<PersistentGroup>, Status> = Ok(GroupOutcome::NotFound);
    assert!(matches!(
        Look::on_ensured(gone, ""),
        LookStage::Done(Err(s)) if s.code() == Code::NotFound
    ));
    assert!(matches!(Look::on_expired(Err(refused())), LookStage::Done(Err(_))));
    assert!(matches!(Look::on_heads(Err(refused())), LookStage::Done(Err(_))));
}

#[test]
fn a_registration_spreads_and_fences_every_partition() {
    let shards = vec![4, 5, 9];
    let ask = || match register(type_ref(), Ok(()), &id_bytes(9), &shards) {
        RegisterStage::Create { registration, placements, .. } => (registration, placements),
        other => panic!("should create: {other:?}"),
    };
    let (registration, placements) = ask();
    let (again, same) = ask();
    assert_eq!((again.operation_id, &same), (registration.operation_id, &placements));
    let created = Ok(CatalogOutcome::AggregateType(definition(&placements)));
    let mut stage = on_type_created(registration, created);
    let mut fences = 0;
    while let RegisterStage::Fence { registration, definition, at } = stage {
        let f = fence_at(&definition, at);
        assert_eq!(f.shard_id, shards[f.partition_id as usize % 3]);
        fences += 1;
        stage = on_partition_fenced(registration, definition, at, Ok(7));
    }
    assert_eq!(fences, 256);
    assert!(matches!(stage, RegisterStage::Activate(_)));
    let mut active = definition(&placements);
    active.status = AggregateTypeStatus::Active;
    match on_type_activated(Ok((CatalogOutcome::AggregateType(active), 3))) {
        RegisterStage::Done(Ok(info)) => {
            assert_eq!(info.partition_count, 256);
            assert_eq!(info.status, AggregateTypeStatus::Active);
        }
        other => panic!("should be done: {other:?}"),
    }
}

#[test]
fn an_event_that_is_sent_again_asks_for_the_same() {
    let service =
        AggregateStoreService::new(&Config::default(), FileRead::Failed("missing".to_string()))
            .unwrap();
    let event = Some(NewAggregateEventRequest {
        event_id: id_bytes(4),
        event_type: "OrderChanged".to_string(),
        data: vec![1, 2],
        metadata: vec![3],
    });
    let expected = Some(ExpectedAggregateVersion::NoAggregate);
    let admitted = service.admit_append(type_ref(), Ok(()), Ok(()), expected, event).unwrap();
    let d = definition(&[4, 5]);
    let place = |wall: u64| {
        place_append(&admitted, "order-1", &d, Ok(1), Hlc { wall, logical: 0 }).unwrap()
    };
    let (first, second) = (place(10), place(20));
    assert_eq!((first.shard_id, second.shard_id), (5, 5));
    for placed in [&first, &second] {
        let c = &placed.command;
        assert!(c.aggregate_type.same(&aggregate_type()));
        assert_eq!((c.partition_id, c.partition_generation), (1, 7));
        assert_eq!(c.aggregate_id, "order-1");
        assert_eq!(c.expected_version, ExpectedAggregateVersion::NoAggregate);
        assert_eq!(c.event.event_id, 4);
        assert_eq!((c.event.event_type.as_str(), &c.event.data), ("OrderChanged", &vec![1, 2]));
        assert_eq!(c.event.metadata, [3]);
    }
    assert_eq!((first.command.hlc.wall, second.command.hlc.wall), (10, 20));
    let hlc = || Hlc { wall: 1, logical: 0 };
    let nowhere = place_append(&admitted, "order-1", &d, Ok(9), hlc()).unwrap_err();
    assert_eq!(nowhere.code(), Code::Internal);
    let unhashed = place_append(&admitted, "", &d, Err("empty".to_string()), hlc()).unwrap_err();
    assert_eq!(unhashed.message(), "empty");

    let stored =
        || Ok(AggregateAppendAnswer::AppendOk { aggregate_version: 0, partition_position: 6 });
    for _ in 0..2 {
        assert!(matches!(on_append_answer(stored(), false), AggregateAppendStep::Done(Ok(0))));
    }
    let taken = Ok(AggregateAppendAnswer::OptimisticConflict { actual_version: Some(0) });
    assert!(matches!(
        on_append_answer(taken, false),
        AggregateAppendStep::Done(Err(s)) if s.code() == Code::FailedPrecondition
    ));
}
