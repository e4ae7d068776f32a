//! Aggregates: their types, events, states and groups of consumers.

use std::collections::BTreeSet;

use es_server::aggregate_delivery::{
    GroupAnswer, GroupDelivery, GroupFetch, GroupFetchLimits, GroupSettlementRequest, PartitionFetch,
    PartitionOutput, PartitionState, PartitionStep, SettlementAnswer, by_partition, claim_answer,
    claim_command, claimed_output, delivery_deadline, delivery_place, fenced_status, finish_results,
    group_candidates, group_fetch_limits, map_group_settlement_response, named_deliveries,
    note_results, open_group_partition, partition_settlements, plan_partition_fetch,
    sort_deliveries,
};
use es_server::aggregate_follow::{
    AggregateEvent, AggregatePartitionCursor, AggregateReadMerger, AggregateSource,
    AggregateSourceMessage, FollowPayload, FollowStart, InternalAggregateEvent,
    LocalAggregateSubscription, PartitionStart, SourceFrame, StoredAggregateEvent, follow_sources,
    follow_start, lagged, open_partition,
};
use es_server::aggregate_groups::{
    AggregateGroupDefinition, AggregateGroupSettings, GroupCatalogOutcome, GroupStart,
    beginning_starts, changed_group, check_starts, group_created, group_deleted, group_info,
    group_updated, list_groups, new_group, note_starts, parse_operation_id, proto_group_settings,
    proto_group_start, require_group, start_source_closed, start_sources,
};
use es_server::aggregate_service::{
    AggregateAppendAnswer, AggregateAppendStep, AggregateStateDocument, AggregateStoreService,
    Catalog, ExpectedAggregateVersion, ExpectedStateRevision, NewAggregateEventRequest,
    PartitionFenceAnswer, PutStateAnswer, admit_partition_command, aggregate_place,
    aggregate_state, catalog_applied, catalog_read, local_leader, map_append_response,
    map_fence_response, on_append_answer, proto_expected_state_revision, proto_expected_version,
    put_state_reply,
};
use es_server::aggregate_states::{
    InternalStateInfo, StateCursor, StoredState, partition_states, state_order, state_page,
    state_page_reply, state_page_size, state_read, state_read_limit, state_sources,
};
use es_server::aggregate_tokens::{
    AggregateCursor, AggregateTypeId, CURSOR_VERSION, STATE_PAGE_TOKEN_VERSION, StatePageToken,
    decode_cursor, decode_delivery_token, decode_state_page_token, encode_cursor,
    encode_delivery_token, encode_state_page_token,
};
use es_server::aggregate_types::{
    AggregateCatalog, AggregateTypeDefinition, AggregateTypeRef, AggregateTypeStatus,
    CatalogOutcome, Placement, aggregate_type_info, aggregate_type_to_proto, list_partitions,
    partitions_by_shard, proto_aggregate_type, spread_partitions, type_activated, type_created,
};
use es_server::config::{Config, FileRead};
use es_server::event::Hlc;
use es_server::ids::id_bytes;
use es_server::maps::IdMap;
use es_server::persistent_service::{SettlementAction, SettlementStatus};
use es_server::rpc_support::WriteError;
use es_server::status::Code;

fn id(space: &str, kind: &str) -> AggregateTypeId {
    AggregateTypeId { business_space: space.to_string(), aggregate_type: kind.to_string() }
}

fn aggregate_type() -> AggregateTypeId {
    id("orders", "order")
}

fn settings() -> AggregateGroupSettings {
    AggregateGroupSettings {
        max_unacked_per_consumer: 100,
        max_unacked_per_group: 1_000,
        ack_timeout_ms: 30_000,
        max_retries: 5,
        retry_min_ms: 100,
        retry_max_ms: 10_000,
    }
}

fn group_definition() -> AggregateGroupDefinition {
    let mut starts: IdMap<u64> = IdMap::new();
    starts.insert(0, 0);
    AggregateGroupDefinition {
        aggregate_type: aggregate_type(),
        name: "workers".into(),
        revision: 2,
        epoch: 3,
        start: GroupStart::Beginning,
        partition_starts: starts,
        settings: settings(),
        create_operation_id: 1,
        last_operation_id: 2,
    }
}

fn definition(status: AggregateTypeStatus, shards: &[u64]) -> AggregateTypeDefinition {
    let mut placements: IdMap<Placement> = IdMap::new();
    for (partition, shard) in shards.iter().enumerate() {
        placements.insert(
            partition as u64,
            Placement { shard_id: *shard, generation: 1, moving_to: None },
        );
    }
    AggregateTypeDefinition {
        id: aggregate_type(),
        partition_count: shards.len() as u16,
        status,
        placements,
    }
}

fn stored(partition: u16, position: u64) -> StoredAggregateEvent {
    StoredAggregateEvent {
        aggregate_type: aggregate_type(),
        partition_id: partition,
        partition_position: position,
        aggregate_id: format!("order-{position}"),
        aggregate_version: position,
        event_id: 500 + position as u128,
        event_type: "created".to_string(),
        data: vec![1, 2, 3],
        metadata: vec![4],
        hlc: Hlc { wall: position, logical: 0 },
    }
}

#[test]
fn cursor_rejects_other_aggregate_type_and_trailing_bytes() {
    let aggregate_type = id("orders", "order");
    let mut cursor = AggregateCursor {
        version: CURSOR_VERSION,
        aggregate_type: aggregate_type.clone(),
        next_positions: vec![0; 256],
    };
    let bytes = encode_cursor(&cursor).unwrap();
    assert!(decode_cursor(&bytes, &aggregate_type, 256).is_ok());
    let other = id("billing", "invoice");
    assert!(decode_cursor(&bytes, &other, 256).is_err());
    let mut trailing = bytes;
    trailing.push(0);
    assert!(decode_cursor(&trailing, &aggregate_type, 256).is_err());

    cursor.version = CURSOR_VERSION + 1;
    let bytes = encode_cursor(&cursor).unwrap();
    assert!(decode_cursor(&bytes, &aggregate_type, 256).is_err());
    cursor.version = CURSOR_VERSION;
    cursor.next_positions.pop();
    let bytes = encode_cursor(&cursor).unwrap();
    assert!(decode_cursor(&bytes, &aggregate_type, 256).is_err());
}

#[test]
fn state_page_token_validates_partition_count() {
    let aggregate_type = id("orders", "order");
    let mut token = StatePageToken {
        version: STATE_PAGE_TOKEN_VERSION,
        aggregate_type: aggregate_type.clone(),
        after_aggregate_ids: vec![String::new(); 255],
    };
    let bytes = encode_state_page_token(&token).unwrap();
    assert!(decode_state_page_token(&bytes, &aggregate_type, 256).is_err());

    token.after_aggregate_ids.push(String::new());
    let bytes = encode_state_page_token(&token).unwrap();
    assert!(decode_state_page_token(&bytes, &aggregate_type, 256).is_ok());
    let other = id("billing", "invoice");
    assert!(decode_state_page_token(&bytes, &other, 256).is_err());

    token.version = STATE_PAGE_TOKEN_VERSION + 1;
    let bytes = encode_state_page_token(&token).unwrap();
    assert!(decode_state_page_token(&bytes, &aggregate_type, 256).is_err());
}

#[test]
fn protocol_inputs_and_aggregate_type_statuses_map_all_variants() {
    assert!(proto_aggregate_type(None, Ok(())).is_err());
    let bad = AggregateTypeRef { business_space: "bad/path".into(), aggregate_type: "order".into() };
    let refused = proto_aggregate_type(Some(bad), Err("identifier".to_string())).unwrap_err();
    assert_eq!(refused.code(), Code::InvalidArgument);
    assert!(
        proto_aggregate_type(Some(aggregate_type_to_proto(&aggregate_type())), Ok(()))
            .unwrap()
            .same(&aggregate_type())
    );

    for (input, expected) in [
        (None, ExpectedAggregateVersion::Any),
        (Some(ExpectedAggregateVersion::Any), ExpectedAggregateVersion::Any),
        (Some(ExpectedAggregateVersion::NoAggregate), ExpectedAggregateVersion::NoAggregate),
        (
            Some(ExpectedAggregateVersion::AggregateExists),
            ExpectedAggregateVersion::AggregateExists,
        ),
        (Some(ExpectedAggregateVersion::Exact(9)), ExpectedAggregateVersion::Exact(9)),
    ] {
        assert_eq!(proto_expected_version(input), expected);
    }

    assert!(proto_expected_state_revision(None).is_err());
    assert_eq!(
        proto_expected_state_revision(Some(ExpectedStateRevision::Absent)).unwrap(),
        ExpectedStateRevision::Absent
    );
    assert_eq!(
        proto_expected_state_revision(Some(ExpectedStateRevision::Exact(4))).unwrap(),
        ExpectedStateRevision::Exact(4)
    );

    for status in [AggregateTypeStatus::Registering, AggregateTypeStatus::Active] {
        let mut value = definition(status, &[]);
        value.partition_count = 256;
        let info = aggregate_type_info(&value, 8);
        assert_eq!(info.status, status);
        assert_eq!((info.partition_count, info.catalog_revision), (256, 8));
    }
}

#[test]
fn append_fence_and_group_responses_preserve_grpc_categories() {
    assert_eq!(
        map_append_response(AggregateAppendAnswer::AppendOk {
            aggregate_version: 4,
            partition_position: 9,
        })
        .unwrap(),
        4
    );
    for (response, code) in [
        (
            AggregateAppendAnswer::OptimisticConflict { actual_version: Some(3) },
            Code::FailedPrecondition,
        ),
        (AggregateAppendAnswer::IdempotencyConflict, Code::AlreadyExists),
        (AggregateAppendAnswer::Fenced { current_generation: 2 }, Code::Unavailable),
        (AggregateAppendAnswer::Invalid { reason: "bad".into() }, Code::InvalidArgument),
        (AggregateAppendAnswer::Other("Noop".into()), Code::Internal),
    ] {
        assert_eq!(map_append_response(response).unwrap_err().code(), code);
    }
    assert_eq!(map_fence_response(PartitionFenceAnswer::Installed { generation: 7 }).unwrap(), 7);
    assert_eq!(
        map_fence_response(PartitionFenceAnswer::Invalid { reason: "bad".into() })
            .unwrap_err()
            .code(),
        Code::InvalidArgument
    );
    assert_eq!(
        map_fence_response(PartitionFenceAnswer::Other("Noop".into())).unwrap_err().code(),
        Code::Internal
    );

    let domain_results = || {
        vec![
            SettlementStatus::Applied,
            SettlementStatus::AlreadySettled,
            SettlementStatus::StaleLease,
            SettlementStatus::WrongConsumer,
        ]
    };
    assert_eq!(
        map_group_settlement_response(SettlementAnswer::Settled(domain_results()), false, "")
            .unwrap(),
        domain_results()
    );
    assert!(
        map_group_settlement_response(SettlementAnswer::Renewed(domain_results()), true, "")
            .is_ok()
    );
    for (response, renew, code) in [
        (SettlementAnswer::Settled(Vec::new()), true, Code::Internal),
        (SettlementAnswer::Renewed(Vec::new()), false, Code::Internal),
        (SettlementAnswer::StaleEpoch { current_epoch: 2 }, false, Code::FailedPrecondition),
        (SettlementAnswer::Fenced { current_generation: 2 }, false, Code::Unavailable),
        (SettlementAnswer::Invalid { reason: "bad".into() }, false, Code::InvalidArgument),
        (SettlementAnswer::Other, false, Code::Internal),
    ] {
        assert_eq!(
            map_group_settlement_response(response, renew, "Noop").unwrap_err().code(),
            code
        );
    }
}

#[test]
fn group_settings_starts_and_delivery_tokens_validate_identity() {
    assert_eq!(proto_group_start(None), GroupStart::Beginning);
    assert_eq!(proto_group_start(Some(GroupStart::Now)), GroupStart::Now);
    assert!(proto_group_settings(None, &settings(), Ok(())).is_ok());
    let none = AggregateGroupSettings { max_unacked_per_consumer: 0, ..settings() };
    assert!(proto_group_settings(Some(none), &settings(), Err("zero".to_string())).is_err());
    let definition = group_definition();
    let info = group_info(&definition);
    assert_eq!(info.name, "workers");
    assert_eq!(info.start, GroupStart::Beginning);
    let mut from_now = group_definition();
    from_now.start = GroupStart::Now;
    assert_eq!(group_info(&from_now).start, GroupStart::Now);

    let delivery_id: u128 = 0xfeed_0000_0000_0000_0000_0000_0000_beef;
    let token = |group: &str, epoch: u64, partition: u16, delivery: u128| {
        encode_delivery_token(&aggregate_type(), group, epoch, partition, delivery).unwrap()
    };
    let bytes = token(&definition.name, definition.epoch, 0, delivery_id);
    assert_eq!(
        decode_delivery_token(&bytes, &definition.aggregate_type, &definition.name)
            .unwrap()
            .delivery_id,
        delivery_id
    );
    assert!(decode_delivery_token(&bytes, &definition.aggregate_type, "other").is_err());
    let other = id("billing", "invoice");
    assert!(decode_delivery_token(&bytes, &other, &definition.name).is_err());
    let fields = (2u8, "orders", "order", "workers", 0u16, 3u64, uuid::Uuid::from_u128(delivery_id));
    let bad_bytes = bincode::serde::encode_to_vec(fields, bincode::config::standard()).unwrap();
    assert!(
        decode_delivery_token(&bad_bytes, &definition.aggregate_type, &definition.name).is_err()
    );

    let empty = decode_state_page_token(&Vec::new(), &definition.aggregate_type, 2).unwrap();
    assert_eq!(empty.after_aggregate_ids, vec![String::new(); 2]);
    assert!(decode_cursor(&vec![0xff], &definition.aggregate_type, 2).is_err());
}

#[test]
fn tokens_are_laid_out_field_by_field() {
    let fields = (1u8, "orders", "order", "workers", 7u16, 3u64, uuid::Uuid::from_u128(9));
    let expected = bincode::serde::encode_to_vec(fields, bincode::config::standard()).unwrap();
    assert_eq!(encode_delivery_token(&aggregate_type(), "workers", 3, 7, 9).unwrap(), expected);
    let cursor = AggregateCursor {
        version: 1,
        aggregate_type: id("a", "b"),
        next_positions: vec![2, 300],
    };
    assert_eq!(
        encode_cursor(&cursor).unwrap(),
        [1, 1, b'a', 1, b'b', 2, 2, 251, 44, 1]
    );
}

#[test]
fn aggregate_read_merger_handles_invalid_frames_degradation_and_recovery() {
    let aggregate_type = aggregate_type();
    let cursor = AggregateCursor {
        version: CURSOR_VERSION,
        aggregate_type: aggregate_type.clone(),
        next_positions: vec![0, 0],
    };
    let mut merger = AggregateReadMerger::new(cursor, BTreeSet::from([3, 7]));

    for (partition_id, partition_position) in [(u32::MAX, 1), (2, 1), (0, 1)] {
        let frame = InternalAggregateEvent { partition_id, partition_position, event: None };
        assert!(merger.apply(AggregateSourceMessage::Event(3, frame)).is_empty());
    }

    let event = AggregateEvent {
        aggregate_id: "order-1".into(),
        aggregate_version: 0,
        event_id: vec![1; 16],
        event_type: "created".into(),
        data: b"{}".to_vec(),
        metadata: b"{}".to_vec(),
        hlc: None,
    };
    let responses = merger.apply(AggregateSourceMessage::Event(
        3,
        InternalAggregateEvent { partition_id: 0, partition_position: 5, event: Some(event) },
    ));
    assert_eq!(responses.len(), 1);
    let decoded = decode_cursor(&responses[0].cursor, &aggregate_type, 2).unwrap();
    assert_eq!(decoded.next_positions, vec![6, 0]);
    match &responses[0].payload {
        FollowPayload::Event(event) => assert_eq!(event.aggregate_id, "order-1"),
        other => panic!("should be an event: {other:?}"),
    }

    let degraded = merger.apply(AggregateSourceMessage::Degraded(3));
    assert_eq!(degraded.len(), 1);
    assert!(merger.apply(AggregateSourceMessage::Degraded(3)).is_empty());
    let first_source = merger.apply(AggregateSourceMessage::CaughtUp(
        3,
        vec![
            AggregatePartitionCursor { partition_id: u32::MAX, next_position: 99 },
            AggregatePartitionCursor { partition_id: 2, next_position: 99 },
            AggregatePartitionCursor { partition_id: 0, next_position: 9 },
        ],
    ));
    assert!(first_source.is_empty());

    let caught_up = merger.apply(AggregateSourceMessage::CaughtUp(7, Vec::new()));
    assert_eq!(caught_up.len(), 1);
    assert!(matches!(caught_up[0].payload, FollowPayload::CaughtUp));

    assert_eq!(merger.apply(AggregateSourceMessage::Degraded(3)).len(), 1);
    let recovered = merger.apply(AggregateSourceMessage::CaughtUp(3, Vec::new()));
    assert_eq!(recovered.len(), 1);
    assert!(matches!(recovered[0].payload, FollowPayload::Recovered));
    assert!(merger.apply(AggregateSourceMessage::CaughtUp(3, Vec::new())).is_empty());
}

#[test]
fn a_reader_begins_at_the_beginning_now_or_a_cursor() {
    let d = definition(AggregateTypeStatus::Active, &[4, 5, 4]);
    let (cursor, now) = follow_start(None, &d).unwrap();
    assert_eq!((cursor.next_positions.clone(), now), (vec![0, 0, 0], false));
    assert!(follow_start(Some(FollowStart::Now), &d).unwrap().1);
    let given = AggregateCursor {
        version: CURSOR_VERSION,
        aggregate_type: aggregate_type(),
        next_positions: vec![1, 2, 3],
    };
    let bytes = encode_cursor(&given).unwrap();
    let (cursor, now) = follow_start(Some(FollowStart::Cursor(bytes)), &d).unwrap();
    assert_eq!((cursor.next_positions.clone(), now), (vec![1, 2, 3], false));
    assert!(follow_start(Some(FollowStart::Cursor(vec![0xff])), &d).is_err());

    let sources = follow_sources(&d, &cursor.next_positions);
    let four = sources.iter().find(|s| s.0 == 4).expect("shard 4");
    let places: Vec<(u32, u64)> = four.1.iter().map(|c| (c.partition_id, c.next_position)).collect();
    assert_eq!(places, [(0, 1), (2, 3)]);
}

#[test]
fn a_partition_is_followed_from_history_into_live_events() {
    let mut sub = LocalAggregateSubscription::new(aggregate_type());
    let at = |partition_id: u32, next_position: u64| AggregatePartitionCursor {
        partition_id,
        next_position,
    };
    assert_eq!(open_partition(&at(1, 4), false).unwrap(), PartitionStart::History(1, 4));
    assert_eq!(open_partition(&at(2, 4), true).unwrap(), PartitionStart::Head(2));
    assert_eq!(
        open_partition(&at(70_000, 0), false).unwrap_err().code(),
        Code::InvalidArgument
    );
    let shown = sub.history(1, 4, Ok(vec![stored(1, 4), stored(1, 5)])).unwrap();
    assert_eq!(shown.len(), 2);
    sub.at_head(2, Ok(9)).unwrap();
    assert!(sub.at_head(3, Err("disk".to_string())).is_err());
    assert_eq!(sub.caught_up(), [at(1, 6), at(2, 9)]);
    assert!(sub.live(stored(1, 5)).is_none());
    assert_eq!(sub.live(stored(1, 6)).unwrap().partition_position, 6);
    assert!(sub.live(stored(1, 6)).is_none());
    let mut other = stored(1, 7);
    other.aggregate_type = id("billing", "invoice");
    assert!(sub.live(other).is_none());
    assert!(sub.live(stored(8, 7)).is_none());
    assert_eq!(lagged().code(), Code::Unavailable);
}

#[test]
fn a_source_goes_on_where_it_broke_off() {
    let at = |partition_id: u32, next_position: u64| AggregatePartitionCursor {
        partition_id,
        next_position,
    };
    let mut source = AggregateSource { shard_id: 4, cursors: vec![at(0, 1)], from_now: true };
    let frame = InternalAggregateEvent { partition_id: 0, partition_position: 7, event: None };
    assert!(matches!(
        source.on_frame(SourceFrame::Event(frame)),
        Some(AggregateSourceMessage::Event(4, _))
    ));
    assert_eq!(source.cursors, [at(0, 8)]);
    source.on_frame(SourceFrame::CaughtUp(vec![at(0, 12)]));
    assert_eq!(source.cursors, [at(0, 12)]);
    assert!(!source.from_now);
    assert!(source.on_frame(SourceFrame::Empty).is_none());
    assert!(matches!(source.on_closed(), AggregateSourceMessage::Degraded(4)));
    assert!(matches!(source.on_end(false), Some(AggregateSourceMessage::Degraded(4))));
    let early = AggregateSource { shard_id: 4, cursors: Vec::new(), from_now: true };
    assert!(early.on_end(false).is_none());
    assert!(early.on_end(true).is_some());
}

#[test]
fn a_catalog_lists_and_finds_its_types() {
    let catalog = AggregateCatalog {
        revision: 6,
        aggregate_types: vec![
            definition(AggregateTypeStatus::Active, &[4, 5]),
            AggregateTypeDefinition {
                id: id("billing", "invoice"),
                partition_count: 1,
                status: AggregateTypeStatus::Registering,
                placements: IdMap::new(),
            },
        ],
    };
    assert_eq!(catalog.find(&aggregate_type()), Some(0));
    assert_eq!(catalog.get(&id("x", "y")).unwrap_err().code(), Code::NotFound);
    assert_eq!(catalog.require_active(&aggregate_type(), "Active").unwrap(), 0);
    assert_eq!(
        catalog.require_active(&id("billing", "invoice"), "Registering").unwrap_err().code(),
        Code::Unavailable
    );
    assert_eq!(catalog.list().len(), 2);
    let status = catalog.status();
    assert_eq!((status.aggregate_type_count, status.active_aggregate_type_count), (2, 1));
    let parts = list_partitions(&catalog.aggregate_types[0]);
    assert_eq!(parts.iter().map(|p| p.shard_id).collect::<Vec<u64>>(), [4, 5]);
    let groups = partitions_by_shard(&definition(AggregateTypeStatus::Active, &[4, 5, 4]));
    assert_eq!(groups.iter().find(|g| g.0 == 4).unwrap().1, [0, 2]);
    let spread = spread_partitions(&vec![3, 9]);
    assert_eq!(spread.len(), 256);
    assert_eq!(spread[..4], [3, 9, 3, 9]);
}

#[test]
fn catalog_outcomes_become_replies() {
    let made = type_created(CatalogOutcome::AggregateType(definition(
        AggregateTypeStatus::Registering,
        &[4],
    )));
    assert_eq!(made.unwrap().partition_count, 1);
    let active = definition(AggregateTypeStatus::Active, &[4]);
    assert_eq!(
        type_activated(CatalogOutcome::AggregateType(active), 9).unwrap().catalog_revision,
        9
    );
    assert!(type_created(CatalogOutcome::Conflict { reason: "taken".into() }).is_err());
    assert!(type_created(CatalogOutcome::Invalid { reason: "bad".into() }).is_err());
    assert!(type_activated(CatalogOutcome::NotFound, 9).is_err());
    assert_eq!(catalog_read(Catalog::Groups, Ok(3)).unwrap(), 3);
    let failed: Result<u8, String> = Err("disk".to_string());
    assert_eq!(catalog_read(Catalog::AggregateTypes, failed).unwrap_err().code(), Code::Internal);
    assert_eq!(catalog_applied(Catalog::Groups, Ok(Ok(3))).unwrap(), 3);
    let odd: Result<Result<u8, String>, WriteError> = Ok(Err("Noop".to_string()));
    assert_eq!(catalog_applied(Catalog::Groups, odd).unwrap_err().code(), Code::Internal);
    assert!(admit_partition_command(true).is_ok());
    assert!(admit_partition_command(false).is_err());
}

#[test]
fn the_service_checks_what_it_is_given() {
    let unread = || FileRead::Failed("missing".to_string());
    let service = AggregateStoreService::new(&Config::default(), unread()).unwrap();
    assert!(service.require_control_shard(0).is_ok());
    assert!(service.require_control_shard(1).is_err());
    let service = AggregateStoreService::with_topology(service.topology, service.max_event_bytes);
    assert!(service.require_control_shard(0).is_ok());
    let c = service.capabilities();
    assert_eq!((c.partition_count, c.max_event_bytes), (256, 1024 * 1024));
    let event = |len: usize, kind: &str, id: Vec<u8>| {
        Some(NewAggregateEventRequest {
            event_id: id,
            event_type: kind.to_string(),
            data: vec![0; len],
            metadata: Vec::new(),
        })
    };
    assert_eq!(service.new_event(event(3, "T", id_bytes(8))).unwrap().event_id, 8);
    for (bad, code) in [
        (None, Code::InvalidArgument),
        (event(3, "T", vec![1]), Code::InvalidArgument),
        (event(3, "", id_bytes(8)), Code::InvalidArgument),
    ] {
        assert_eq!(service.new_event(bad).unwrap_err().code(), code);
    }
    assert!(service.new_event(event(1024 * 1024 + 1, "T", id_bytes(8))).is_err());
    assert!(service.check_state_size(1024 * 1024).is_ok());
    assert!(service.check_state_size(1024 * 1024 + 1).is_err());
    assert!(local_leader(Some(true), None).is_ok());
    assert!(local_leader(Some(false), None).is_err());
    assert!(local_leader(None, None).is_err());
}

#[test]
fn a_fenced_append_refreshes_the_catalog_once() {
    let fenced = || Ok(AggregateAppendAnswer::Fenced { current_generation: 2 });
    assert!(matches!(on_append_answer(fenced(), false), AggregateAppendStep::Refresh));
    assert!(matches!(on_append_answer(fenced(), true), AggregateAppendStep::Done(Err(_))));
    let d = definition(AggregateTypeStatus::Active, &[4, 5]);
    let (partition, place) = aggregate_place(&d, Ok(1)).unwrap();
    assert_eq!((partition, place.shard_id), (1, 5));
    assert!(aggregate_place(&d, Ok(2)).is_err());
    assert!(aggregate_place(&d, Err("hash".to_string())).is_err());
}

#[test]
fn states_are_read_and_written_by_revision() {
    let doc = AggregateStateDocument {
        revision: 3,
        data: vec![7],
        modified: Hlc { wall: 44, logical: 0 },
    };
    let got = aggregate_state(Ok(Some(doc))).unwrap();
    assert_eq!((got.revision, got.modified_unix_millis), (3, 44));
    assert_eq!(aggregate_state(Ok(None)).unwrap_err().code(), Code::NotFound);
    assert_eq!(aggregate_state(Err("disk".into())).unwrap_err().code(), Code::Internal);
    let put = put_state_reply(Ok(PutStateAnswer::Stored {
        revision: 4,
        modified: Hlc { wall: 45, logical: 0 },
    }))
    .unwrap();
    assert_eq!((put.revision, put.modified_unix_millis), (4, 45));
    for (answer, code) in [
        (PutStateAnswer::NotFound, Code::NotFound),
        (PutStateAnswer::Conflict { actual_revision: Some(3) }, Code::FailedPrecondition),
        (PutStateAnswer::Fenced { current_generation: 2 }, Code::Unavailable),
        (PutStateAnswer::Invalid { reason: "bad".into() }, Code::InvalidArgument),
        (PutStateAnswer::Other("Noop".into()), Code::Internal),
    ] {
        assert_eq!(put_state_reply(Ok(answer)).unwrap_err().code(), code);
    }
}

fn state(partition_id: u32, aggregate_id: &str) -> InternalStateInfo {
    InternalStateInfo {
        partition_id,
        aggregate_id: aggregate_id.to_string(),
        revision: 1,
        modified_unix_millis: 2,
    }
}

#[test]
fn pages_of_states_lose_and_repeat_nothing() {
    let d = definition(AggregateTypeStatus::Active, &[4, 5]);
    let all = [(0, "a"), (1, "b"), (0, "c"), (1, "d"), (0, "e")];
    let mut token_bytes: Vec<u8> = Vec::new();
    let mut seen: Vec<String> = Vec::new();
    loop {
        let token = decode_state_page_token(&token_bytes, &d.id, 2).unwrap();
        let asked = state_sources(&d, &token);
        assert_eq!(asked.len(), 2);
        let items: Vec<InternalStateInfo> = all
            .iter()
            .filter(|(p, a)| *a > token.after_aggregate_ids[*p as usize].as_str())
            .map(|(p, a)| state(*p, a))
            .collect();
        let mut of_each = [0; 2];
        let items: Vec<InternalStateInfo> = items
            .into_iter()
            .filter(|i| {
                of_each[i.partition_id as usize] += 1;
                of_each[i.partition_id as usize] <= state_read_limit(2)
            })
            .collect();
        let page = state_page(&items, 2, token).unwrap();
        let reply = state_page_reply(page).unwrap();
        seen.extend(reply.states.iter().map(|s| s.aggregate_id.clone()));
        if reply.next_page_token.is_empty() {
            break;
        }
        token_bytes = reply.next_page_token;
    }
    assert_eq!(seen, ["a", "b", "c", "d", "e"]);
}

#[test]
fn states_are_sorted_and_bounded() {
    assert_eq!(state_page_size(0), 100);
    assert_eq!(state_page_size(7), 7);
    assert_eq!(state_page_size(5_000), 1_000);
    assert_eq!(state_read_limit(100), 101);
    let items = vec![state(1, "b"), state(0, "a"), state(0, "c")];
    assert_eq!(state_order(&items), [1, 0, 2]);
    let read = |partition_id: u32, after: &str| {
        state_read(StateCursor { partition_id, after_aggregate_id: after.to_string() })
    };
    assert_eq!(read(3, "x").unwrap().after, Some("x".to_string()));
    assert_eq!(read(3, "").unwrap().after, None);
    assert!(read(70_000, "").is_err());
    let found = partition_states(
        3,
        Ok(vec![StoredState { aggregate_id: "a".into(), revision: 2, modified_wall: 8 }]),
    )
    .unwrap();
    assert_eq!((found[0].partition_id, found[0].modified_unix_millis), (3, 8));
}

#[test]
fn groups_begin_and_change() {
    let starts = beginning_starts(3);
    assert_eq!(starts.entries, [(0, 0), (1, 0), (2, 0)]);
    let d = definition(AggregateTypeStatus::Active, &[4, 5, 4]);
    assert_eq!(start_sources(&d).len(), 2);
    let mut noted: IdMap<u64> = IdMap::new();
    let at = |partition_id: u32, next_position: u64| AggregatePartitionCursor {
        partition_id,
        next_position,
    };
    note_starts(&mut noted, &vec![at(0, 4), at(1, 6)]).unwrap();
    assert!(note_starts(&mut noted, &vec![at(70_000, 4)]).is_err());
    assert!(check_starts(noted, 3).is_err());
    assert_eq!(check_starts(starts, 3).unwrap().entries.len(), 3);
    assert_eq!(start_source_closed().code(), Code::Unavailable);
    assert_eq!(parse_operation_id(&id_bytes(6)).unwrap(), 6);
    assert!(parse_operation_id(&vec![1]).is_err());

    let g = new_group(
        aggregate_type(),
        "g".into(),
        GroupStart::Now,
        beginning_starts(1),
        settings(),
        77,
    );
    assert_eq!((g.create_operation_id, g.last_operation_id), (77, 77));
    let epoch = g.epoch;
    let (same, anew) = changed_group(g, None, None, 78);
    assert!(!anew);
    assert_eq!(same.last_operation_id, 78);
    let (fresh, anew) =
        changed_group(same, Some((GroupStart::Beginning, beginning_starts(1))), None, 79);
    assert!(anew);
    assert_eq!(fresh.start, GroupStart::Beginning);
    assert_eq!(fresh.epoch, epoch);
}

#[test]
fn groups_are_found_by_type_and_name() {
    let groups = vec![group_definition()];
    assert_eq!(require_group(&groups, &aggregate_type(), "workers", Ok(())).unwrap(), 0);
    assert_eq!(
        require_group(&groups, &aggregate_type(), "x", Ok(())).unwrap_err().code(),
        Code::NotFound
    );
    assert_eq!(
        require_group(&groups, &aggregate_type(), "", Err("name".into())).unwrap_err().code(),
        Code::InvalidArgument
    );
    assert_eq!(list_groups(&groups, &aggregate_type()).len(), 1);
    assert!(list_groups(&groups, &id("x", "y")).is_empty());
    assert_eq!(group_created(GroupCatalogOutcome::Group(group_definition())).unwrap().revision, 2);
    assert!(group_deleted(GroupCatalogOutcome::Deleted).is_ok());
    assert_eq!(group_deleted(GroupCatalogOutcome::NotFound).unwrap_err().code(), Code::NotFound);
    let conflict = || GroupCatalogOutcome::Conflict { actual_revision: Some(5) };
    assert!(group_updated(conflict()).unwrap_err().message().contains("Some(5)"));
    assert!(group_created(conflict()).is_err());
}

fn fetch(epoch: u64) -> PartitionFetch {
    PartitionFetch {
        group_epoch: epoch,
        start_position: 5,
        ack_timeout_ms: 100,
        now_ms: 10,
        max_events: 4,
        max_bytes: 1_000,
    }
}

#[test]
fn a_partition_of_a_group_is_opened_and_read() {
    let fresh = open_group_partition(None, &fetch(3)).unwrap();
    assert_eq!((fresh.epoch, fresh.next_position), (3, 5));
    let kept = PartitionState { epoch: 3, next_position: 9, delivered: 1, retrying: 0 };
    assert_eq!(open_group_partition(Some(kept), &fetch(3)).unwrap(), kept);
    let newer = PartitionState { epoch: 4, ..kept };
    assert_eq!(
        open_group_partition(Some(newer), &fetch(3)).unwrap_err().code(),
        Code::FailedPrecondition
    );
    assert!(matches!(
        plan_partition_fetch(&kept, 20, 8, 4),
        PartitionStep::Scan { from: 9, .. }
    ));
    match plan_partition_fetch(&kept, 20, 0, 4) {
        PartitionStep::Answer(out) => assert!(out.throttled && out.deliveries.is_empty()),
        PartitionStep::Scan { .. } => panic!("no credit"),
    }
    assert_eq!(delivery_deadline(10, 100), 110);
    assert_eq!(delivery_deadline(u64::MAX, 100), u64::MAX);
}

#[test]
fn claimed_events_are_delivered_with_tokens() {
    let (candidates, events) = group_candidates(vec![stored(0, 5), stored(0, 6)]);
    assert_eq!(candidates.len(), 2);
    assert_eq!(candidates[0].payload_bytes, 4);
    assert_eq!(candidates[1].event_id, 506);
    assert_ne!(candidates[0].delivery_id, candidates[1].delivery_id);
    let claimed = GroupDelivery {
        delivery_id: 31,
        partition_position: 5,
        attempt: 1,
        deadline_ms: 110,
        replayed: false,
    };
    let out = claimed_output(events, vec![claimed], 7, 7).unwrap();
    assert_eq!(out.deliveries.len(), 1);
    assert!(out.caught_up);

    let limits = GroupFetchLimits { max_events: 3, max_bytes: 100, wait_ms: 5 };
    let mut fetch = GroupFetch::new(&limits);
    assert_eq!(fetch.room(), Some((3, 100)));
    fetch.absorb(&group_definition(), 0, out).unwrap();
    assert_eq!(fetch.deliveries.len(), 1);
    let token =
        decode_delivery_token(&fetch.deliveries[0].delivery_id, &aggregate_type(), "workers")
            .unwrap();
    assert_eq!((token.delivery_id, token.partition_id, token.group_epoch), (31, 0, 3));
    assert!(fetch.is_done(5, false));
    let none = PartitionOutput { deliveries: Vec::new(), caught_up: false, throttled: false };
    let mut idle = GroupFetch::new(&limits);
    idle.absorb(&group_definition(), 0, none).unwrap();
    assert!(!idle.is_done(5, false));
    assert!(idle.is_done(5, true));
    assert!(idle.is_done(0, false));
}

#[test]
fn group_answers_become_replies() {
    assert_eq!(claim_answer(Ok(GroupAnswer::Done(3))).unwrap(), 3);
    let cases: Vec<(GroupAnswer<u8>, Code)> = vec![
        (GroupAnswer::StaleEpoch { current_epoch: 4 }, Code::FailedPrecondition),
        (GroupAnswer::Fenced { current_generation: 4 }, Code::Unavailable),
        (GroupAnswer::Invalid { reason: "bad".into() }, Code::InvalidArgument),
        (GroupAnswer::Other("Noop".into()), Code::Internal),
    ];
    for (answer, code) in cases {
        assert_eq!(claim_answer(Ok(answer)).unwrap_err().code(), code);
    }
    assert!(fenced_status(4).message().contains("4"));
    let limit = |max_events: u32, max_bytes: u64, wait_ms: u64| GroupFetchLimits {
        max_events,
        max_bytes,
        wait_ms,
    };
    let l = group_fetch_limits(&limit(0, 900, 7), &limit(10, 100, 0), &limit(50, 500, 60));
    assert_eq!((l.max_events, l.max_bytes, l.wait_ms), (10, 500, 7));
}

#[test]
fn every_settlement_gets_a_result() {
    let token = |epoch: u64, partition: u16, delivery: u128| {
        encode_delivery_token(&aggregate_type(), "workers", epoch, partition, delivery).unwrap()
    };
    let request = |delivery_id: Vec<u8>, action: Option<SettlementAction>| GroupSettlementRequest {
        delivery_id,
        action,
        reason: "why".to_string(),
    };
    let requests = vec![
        request(token(3, 1, 10), Some(SettlementAction::Ack)),
        request(token(2, 1, 11), Some(SettlementAction::Ack)),
        request(token(3, 0, 12), Some(SettlementAction::Retry)),
    ];
    let named = named_deliveries(&requests);
    let sorted = sort_deliveries(&named, &aggregate_type(), "workers", 3).unwrap();
    assert_eq!(sorted.live.len(), 2);
    let stale = sorted.results[1].as_ref().expect("an old epoch is answered at once");
    assert_eq!(stale.status, SettlementStatus::StaleLease);

    let groups = by_partition(&sorted.live);
    assert_eq!(groups.iter().map(|g| g.0).collect::<Vec<u64>>(), [0, 1]);
    let asked = partition_settlements(&groups[0].1, &requests);
    assert_eq!((asked[0].delivery_id, asked[0].action), (12, SettlementAction::Retry));
    let mut results = sorted.results;
    for (_, live) in &groups {
        note_results(&mut results, &named, live, &vec![SettlementStatus::Applied], Some(55));
    }
    let finished = finish_results(results);
    let statuses: Vec<SettlementStatus> = finished.iter().map(|r| r.status).collect();
    assert_eq!(
        statuses,
        [SettlementStatus::Applied, SettlementStatus::StaleLease, SettlementStatus::Applied]
    );
    assert_eq!(finished[0].delivery_id, token(3, 1, 10));

    let unknown = vec![request(token(3, 1, 10), None)];
    assert!(sort_deliveries(&named_deliveries(&unknown), &aggregate_type(), "workers", 3).is_err());
    let foreign = vec![request(vec![1, 2], Some(SettlementAction::Ack))];
    assert!(sort_deliveries(&named_deliveries(&foreign), &aggregate_type(), "workers", 3).is_err());
    let d = definition(AggregateTypeStatus::Active, &[4, 5]);
    assert_eq!(delivery_place(&d, 1).unwrap().shard_id, 5);
    assert!(delivery_place(&d, 2).is_err());
}

#[test]
fn bytes_that_announce_more_than_they_hold_are_refused() {
    let d = definition(AggregateTypeStatus::Active, &[4, 5]);
    let huge = |head: &[u8]| {
        let mut bytes = head.to_vec();
        bytes.push(253);
        bytes.extend([255; 8]);
        bytes
    };
    // A text, then a list, of more items than there can be.
    for bytes in [huge(&[1]), huge(&[1, 0]), huge(&[1, 0, 0])] {
        let refused = decode_cursor(&bytes, &d.id, 2).unwrap_err();
        assert!(refused.message().starts_with("aggregate cursor 解码失败: "));
        assert!(decode_state_page_token(&bytes, &d.id, 2).is_err());
        assert!(decode_delivery_token(&bytes, &d.id, "workers").is_err());
        assert!(follow_start(Some(FollowStart::Cursor(bytes)), &d).is_err());
    }
    assert!(decode_state_page_token(&huge(&[1, 0, 0, 1]), &d.id, 2).is_err());
    assert!(decode_delivery_token(&huge(&[1, 0, 0]), &d.id, "workers").is_err());
}

#[test]
fn a_claim_asks_for_what_the_fetch_asks_for() {
    let input = PartitionFetch {
        group_epoch: 3,
        start_position: 2,
        ack_timeout_ms: 30_000,
        now_ms: 1_000,
        max_events: 7,
        max_bytes: 4_096,
    };
    let (candidates, _) = group_candidates(vec![stored(1, 4), stored(1, 5)]);
    let c = claim_command(&input, "c-1".to_string(), candidates);
    assert_eq!((c.group_epoch, c.start_position), (3, 2));
    assert_eq!((c.now_ms, c.deadline_ms), (1_000, 31_000));
    assert_eq!((c.max_claim, c.max_bytes), (7, 4_096));
    assert_eq!(c.consumer_id, "c-1");
    let positions: Vec<u64> = c.candidates.iter().map(|c| c.partition_position).collect();
    assert_eq!(positions, [4, 5]);
    let late = PartitionFetch { now_ms: u64::MAX, ..input };
    assert_eq!(claim_command(&late, String::new(), Vec::new()).deadline_ms, u64::MAX);
}
