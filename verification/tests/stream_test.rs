//! Streams: appending, reading, merging and following them.

use std::collections::BTreeSet;

use es_server::append::{
    AppendFlow, AppendOutcome, AppendStep, ExpectedVersion, NewEventRequest, append_command,
    append_reply, check_append, check_create_stream, create_stream_reply,
    proto_to_expected_version,
};
use es_server::backlog::{
    BatchReader, PersistentCursor, Visit, admit_batch, events_failure, head_failure,
};
use es_server::config::{Config, FileRead, LimitsSection, PeerConfig};
use es_server::event::{Event, Hlc, StoredEvent, public_subscription_event, show};
use es_server::ids::{id_bytes, parse_id};
use es_server::merge::merge_by_hlc;
use es_server::read::{
    ReadAllRequest, ShardPosition, read_all_cursors, read_all_page, read_all_stream, read_route,
    read_stream_page, shard_is_read, shard_not_here, stream_meta,
};
use es_server::rpc_support::{
    InternalSource, RemoteShards, RuntimeTopology, WriteError, client_write_to_status, leader_hint_status,
};
use es_server::service::resolve_write_shard;
use es_server::status::Code;
use es_server::subscription::{
    LocalSubscription, SourceItem, SourceMessage, SubscribePayload, SubscribePlan, SubscribeTarget,
    admit_internal, aggregate_source_message, forward_item, group_streams, plan_subscription,
    stored_history,
};

fn unread() -> FileRead {
    FileRead::Failed("missing".to_string())
}

fn ev(shard: u64, pos: u64, wall: u64) -> Event {
    Event {
        stream_id: format!("s{shard}"),
        version: pos,
        event_id: Vec::new(),
        event_type: "T".into(),
        data: Vec::new(),
        metadata: Vec::new(),
        hlc: Some(Hlc { wall, logical: 0 }),
        position: pos,
        shard_id: shard,
    }
}

fn stored(stream: &str, version: u64, position: u64) -> StoredEvent {
    StoredEvent {
        stream_id: stream.to_string(),
        version,
        event_id: 7,
        event_type: "T".to_string(),
        data: vec![1, 2],
        metadata: Vec::new(),
        hlc: Hlc { wall: position, logical: 0 },
        position,
    }
}

fn new_event(data: usize, metadata: usize) -> NewEventRequest {
    NewEventRequest {
        event_id: vec![1; 16],
        event_type: "T".to_string(),
        data: vec![0; data],
        metadata: vec![0; metadata],
    }
}

fn texts(names: &[&str]) -> Vec<String> {
    names.iter().map(|n| n.to_string()).collect()
}

#[test]
fn remote_shards_skip_self_and_unreachable_peers() {
    let mut config = Config::default();
    config.node.peers = vec![PeerConfig {
        id: config.node.id,
        addr: "127.0.0.1:9".into(),
        internal_addr: None,
    }];
    let remote = RemoteShards::new(&config, unread()).expect("remote shards");
    assert!(remote.nodes_to_ask().is_empty());

    config.node.peers = vec![PeerConfig {
        id: 2,
        addr: "127.0.0.1:9".into(),
        internal_addr: Some("127.0.0.1:19".into()),
    }];
    let remote = RemoteShards::new(&config, unread()).expect("remote shards");
    assert_eq!(remote.nodes_to_ask(), [2]);
    assert!(remote.leader_at(2, None).is_none());
    assert!(remote.leader_at(2, Some(false)).is_none());
    assert_eq!(leader_hint_status(None).code(), Code::Unavailable);
    let status = remote
        .internal_address(None, InternalSource::AggregateStore)
        .expect_err("no leader");
    assert_eq!(status.code(), Code::Unavailable);
    assert_eq!(status.message(), "aggregate store source unavailable");
    let status = remote
        .internal_address(Some(9), InternalSource::Subscription)
        .expect_err("no address");
    assert_eq!(status.message(), "internal subscription source unavailable");
    assert_eq!(
        remote.leader_at(2, Some(true)).expect("leader"),
        (2, "http://127.0.0.1:9".to_string())
    );
    assert_eq!(
        remote.internal_address(Some(2), InternalSource::AggregateStore).expect("address"),
        "http://127.0.0.1:19"
    );
    let leader = remote.leader_at(2, Some(true));
    assert_eq!(RemoteShards::source_address(leader).expect("address"), "http://127.0.0.1:9");
    for unknown in [None, Some((2, "http://[::1".to_string()))] {
        let status = RemoteShards::source_address(unknown).expect_err("no source");
        assert_eq!(status.code(), Code::Unavailable);
        assert_eq!(status.message(), "read-all shard source unavailable");
    }
}

#[test]
fn runtime_topology_reloads_shards_and_peers_atomically() {
    let config = Config::default();
    let mut topology = RuntimeTopology::new(&config, unread()).expect("topology");
    assert_eq!(topology.current.all_shards, [0]);

    let mut expanded = config.clone();
    expanded.placement.nodes[0].primary.push(1);
    expanded.node.peers.push(PeerConfig {
        id: 2,
        addr: "127.0.0.1:50052".into(),
        internal_addr: Some("127.0.0.1:51052".into()),
    });
    topology.reload(&expanded, unread()).expect("reload");

    assert_eq!(topology.current.all_shards, [0, 1]);
    assert!(topology.current.remote.addrs.get(2).is_some());
    assert!(topology.current.remote.internal_addrs.get(2).is_some());
}

#[test]
fn runtime_topology_rejects_shard_removal_without_partial_update() {
    let mut config = Config::default();
    config.placement.nodes[0].primary.push(1);
    let mut topology = RuntimeTopology::new(&config, unread()).expect("topology");

    let mut reduced = config;
    reduced.placement.nodes[0].primary.retain(|shard| *shard == 0);
    let error = topology.reload(&reduced, unread()).expect_err("a shard is gone");
    assert!(error.contains("不能移除 Shard"), "{error}");
    assert_eq!(topology.current.all_shards, [0, 1]);
}

#[test]
fn raft_write_errors_keep_grpc_categories_and_hints() {
    let with_leader = WriteError::ForwardToLeader {
        leader_id: Some(2),
        leader_addr: Some("http://127.0.0.1:50052".into()),
    };
    let status = client_write_to_status(with_leader);
    assert_eq!(status.code(), Code::Unavailable);
    assert!(status.message().contains("leader_id=2"));

    let unknown = WriteError::ForwardToLeader { leader_id: None, leader_addr: None };
    assert!(client_write_to_status(unknown).message().contains("leader unknown"));

    let membership = WriteError::ChangeMembership("empty membership".to_string());
    assert_eq!(client_write_to_status(membership).code(), Code::FailedPrecondition);

    let fatal = WriteError::Fatal("stopped".to_string());
    assert_eq!(client_write_to_status(fatal).code(), Code::Internal);
}

#[test]
fn merge_truncated_unconsumed_watermark_none() {
    let streams = vec![
        vec![ev(0, 1, 100), ev(0, 2, 200), ev(0, 3, 300)],
        vec![ev(1, 1, 1000)],
    ];
    let (events, consumed) = merge_by_hlc(streams, 2, false);
    assert_eq!(events.len(), 2);
    assert_eq!(consumed, vec![Some(2), None], "nothing of shard 1 was consumed");
}

#[test]
fn forward_merge_watermark_advances() {
    let streams =
        vec![vec![ev(0, 1, 100), ev(0, 2, 300)], vec![ev(1, 1, 200), ev(1, 2, 400)]];
    let (events, consumed) = merge_by_hlc(streams, 0, false);
    assert_eq!(events.len(), 4);
    assert_eq!(consumed, vec![Some(2), Some(2)]);
    let walls: Vec<u64> = events.iter().map(|e| e.hlc.as_ref().unwrap().wall).collect();
    assert_eq!(walls, [100, 200, 300, 400]);
}

#[test]
fn backward_merge_watermark_min_position() {
    let streams =
        vec![vec![ev(0, 9, 100), ev(0, 8, 300), ev(0, 7, 500)], vec![ev(1, 5, 200)]];
    let (_, consumed) = merge_by_hlc(streams, 0, true);
    assert_eq!(consumed, vec![Some(7), Some(5)], "the least position given of each");
}

#[test]
fn single_stream_truncated_watermark() {
    let streams = vec![vec![ev(0, 1, 1), ev(0, 2, 1), ev(0, 3, 1)]];
    let (events, consumed) = merge_by_hlc(streams, 2, false);
    assert_eq!(events.len(), 2);
    assert_eq!(consumed, vec![Some(2)]);
}

#[test]
fn merge_keeps_the_order_within_a_source() {
    let streams = vec![
        vec![ev(0, 1, 5), ev(0, 2, 5), ev(0, 3, 6)],
        vec![ev(1, 1, 5), ev(1, 2, 7)],
    ];
    let (events, _) = merge_by_hlc(streams, 0, false);
    let of = |shard: u64| -> Vec<u64> {
        events.iter().filter(|e| e.shard_id == shard).map(|e| e.position).collect()
    };
    assert_eq!(of(0), [1, 2, 3]);
    assert_eq!(of(1), [1, 2]);
}

#[test]
fn public_subscription_projection_keeps_stream_version_identity() {
    for (stream, version, data) in [("a", 0, vec![]), ("orders", u64::MAX, vec![1, 2, 255])] {
        let event = Event {
            stream_id: stream.to_string(),
            version,
            event_id: vec![1; 16],
            event_type: "T".into(),
            data: data.clone(),
            metadata: vec![],
            hlc: None,
            position: 99,
            shard_id: 7,
        };
        let projected = public_subscription_event(event);
        assert_eq!(projected.stream_id, stream);
        assert_eq!(projected.version, version);
        assert_eq!(projected.data, data);
    }
}

#[test]
fn aggregate_source_messages_emit_each_state_transition_once() {
    let mut pending: BTreeSet<u64> = BTreeSet::from([3, 7]);
    let mut caught_up = false;
    let mut degraded = false;

    assert!(matches!(
        aggregate_source_message(
            SourceMessage::Event(ev(3, 4, 9)),
            &mut pending,
            &mut caught_up,
            &mut degraded,
        ),
        Some(SubscribePayload::Event(event)) if event.stream_id == "s3" && event.version == 4
    ));
    assert!(
        aggregate_source_message(
            SourceMessage::CaughtUp(3),
            &mut pending,
            &mut caught_up,
            &mut degraded,
        )
        .is_none()
    );
    assert!(matches!(
        aggregate_source_message(
            SourceMessage::CaughtUp(7),
            &mut pending,
            &mut caught_up,
            &mut degraded,
        ),
        Some(SubscribePayload::CaughtUp)
    ));
    assert!(
        aggregate_source_message(
            SourceMessage::CaughtUp(7),
            &mut pending,
            &mut caught_up,
            &mut degraded,
        )
        .is_none()
    );
    assert!(matches!(
        aggregate_source_message(
            SourceMessage::Degraded(3),
            &mut pending,
            &mut caught_up,
            &mut degraded,
        ),
        Some(SubscribePayload::Degraded)
    ));
    assert!(
        aggregate_source_message(
            SourceMessage::Degraded(7),
            &mut pending,
            &mut caught_up,
            &mut degraded,
        )
        .is_none()
    );
}

#[test]
fn a_page_of_all_shards_can_be_continued() {
    let req = ReadAllRequest {
        shard_ids: vec![0, 1],
        from_position: 1,
        max_count: 2,
        descending: false,
        from_positions: Vec::new(),
    };
    let mut cursors = read_all_cursors(&req).expect("cursors");
    assert_eq!(cursors.len(), 2);
    let shard = |id: u64| -> Vec<Event> {
        (1..4).map(|p| ev(id, p, 10 * p + id)).collect()
    };
    let mut seen: Vec<(u64, u64)> = Vec::new();
    loop {
        let streams: Vec<Vec<Event>> = cursors
            .iter()
            .map(|c| {
                if shard_is_read(c, false) {
                    shard(c.shard_id)
                        .into_iter()
                        .filter(|e| e.position >= c.from_position)
                        .take(2)
                        .collect()
                } else {
                    Vec::new()
                }
            })
            .collect();
        let page = read_all_page(&cursors, streams, 2, false);
        if page.events.is_empty() {
            break;
        }
        seen.extend(page.events.iter().map(|e| (e.shard_id, e.position)));
        cursors = page.next_positions;
        assert!(seen.len() <= 6);
    }
    assert_eq!(seen, [(0, 1), (1, 1), (0, 2), (1, 2), (0, 3), (1, 3)]);
}

#[test]
fn reading_backwards_ends_at_the_first_position() {
    let cursors =
        vec![ShardPosition { shard_id: 4, from_position: 1, ended: false }];
    let page = read_all_page(&cursors, vec![vec![ev(4, 0, 9)]], 10, true);
    assert_eq!(page.events.len(), 1);
    assert!(page.next_positions[0].ended);
    assert!(!shard_is_read(&page.next_positions[0], true));
}

#[test]
fn reads_of_all_need_shards_without_repetition() {
    let req = |shards: Vec<u64>, from: Vec<ShardPosition>| ReadAllRequest {
        shard_ids: shards,
        from_position: 0,
        max_count: 1,
        descending: false,
        from_positions: from,
    };
    let one = || ShardPosition { shard_id: 3, from_position: 9, ended: false };
    let cursors = read_all_cursors(&req(vec![3], vec![one()])).expect("cursor");
    assert_eq!(cursors.len(), 1);
    assert_eq!(cursors[0].from_position, 9);
    let missing = read_all_cursors(&req(Vec::new(), Vec::new())).expect_err("no shard");
    assert_eq!(missing.code(), Code::InvalidArgument);
}

#[test]
fn stream_reads_say_what_went_wrong() {
    let page = read_stream_page(3, Ok(vec![stored("s", 4, 9)])).expect("page");
    assert_eq!(page.events[0].version, 4);
    assert_eq!(page.events[0].shard_id, 3);
    assert_eq!(page.events[0].event_id, id_bytes(7));
    let failed = read_stream_page(3, Err("disk".to_string())).expect_err("failed read");
    assert_eq!(failed.code(), Code::Internal);
    assert!(failed.message().contains("disk"));
    let back = read_all_stream(3, true, Ok(vec![stored("s", 4, 8), stored("s", 5, 9)]))
        .expect("events");
    let positions: Vec<u64> = back.iter().map(|e| e.position).collect();
    assert_eq!(positions.len(), 2);
    assert!(shard_not_here(5).message().contains("5"));
}

#[test]
fn a_stream_without_a_route_is_looked_up_again() {
    assert_eq!(read_route("s", Some(4), Ok(None)).expect("route"), 4);
    assert_eq!(read_route("s", None, Ok(Some(5))).expect("route"), 5);
    let lost = read_route("s", None, Ok(None)).expect_err("no route");
    assert_eq!(lost.code(), Code::NotFound);
}

#[test]
fn metadata_of_a_stream() {
    let none = stream_meta(None, None).expect("no stream");
    assert!(!none.exists);
    let here = stream_meta(Some(2), Some(Ok(Some(7)))).expect("stream");
    assert!(here.exists);
    assert_eq!((here.shard_id, here.current_version), (2, 7));
    assert!(stream_meta(Some(2), Some(Err("disk".to_string()))).is_err());
}

#[test]
fn appends_are_checked_before_they_are_sent() {
    let limits = LimitsSection { max_event_bytes: 10, max_append_batch_bytes: 100 };
    assert!(check_append(&limits, 100, &vec![new_event(6, 4)]).is_ok());
    assert_eq!(
        check_append(&limits, 101, &vec![new_event(1, 0)]).expect_err("batch").code(),
        Code::FailedPrecondition
    );
    assert_eq!(
        check_append(&limits, 50, &vec![new_event(1, 0), new_event(11, 0)])
            .expect_err("event")
            .code(),
        Code::FailedPrecondition
    );
}

#[test]
fn an_append_command_carries_what_was_asked() {
    let hlc = Hlc { wall: 3, logical: 1 };
    let command = append_command(
        "s".to_string(),
        4,
        Some(Some(ExpectedVersion::Exact(9))),
        vec![new_event(2, 0)],
        hlc,
    )
    .expect("command");
    assert_eq!(command.ownership_generation, 4);
    assert!(matches!(command.expected_version, ExpectedVersion::Exact(9)));
    assert_eq!(command.events[0].event_id, parse_id(&vec![1; 16]).expect("id"));
    assert!(matches!(proto_to_expected_version(None), ExpectedVersion::Any));

    let mut bad = new_event(1, 0);
    bad.event_id = vec![1; 15];
    let hlc = Hlc { wall: 3, logical: 1 };
    let refused = append_command("s".to_string(), 4, Some(None), vec![bad], hlc);
    assert_eq!(refused.expect_err("no id").code(), Code::InvalidArgument);
    let hlc = Hlc { wall: 3, logical: 1 };
    let refused = append_command("s".to_string(), 4, None, vec![new_event(1, 0)], hlc);
    assert_eq!(refused.expect_err("no expectation").code(), Code::InvalidArgument);
}

#[test]
fn a_fenced_append_is_tried_once_more() {
    let command = append_command(
        "s".to_string(),
        4,
        Some(None),
        vec![new_event(1, 0)],
        Hlc { wall: 3, logical: 1 },
    )
    .expect("command");
    let fenced = || Ok(AppendOutcome::OwnershipFenced { current_generation: 5 });
    let flow = match AppendFlow::begin(command).on_answer(2, fenced()) {
        AppendStep::Recover { flow, attempted_generation } => {
            assert_eq!(attempted_generation, 4);
            flow.resume(5)
        }
        AppendStep::Done(_) => panic!("should recover"),
    };
    assert_eq!(flow.command.ownership_generation, 5);
    match flow.on_answer(2, fenced()) {
        AppendStep::Done(Err(status)) => assert_eq!(status.code(), Code::Unavailable),
        _ => panic!("a second fence ends the append"),
    }
}

#[test]
fn append_outcomes_become_replies() {
    let ok = append_reply(
        2,
        AppendOutcome::AppendOk { next_expected_version: 5, first_position: 7, last_position: 8 },
    )
    .expect("reply");
    assert_eq!(
        (ok.shard_id, ok.next_expected_version, ok.first_position, ok.last_position),
        (2, 5, 7, 8)
    );
    let conflict =
        append_reply(2, AppendOutcome::OptimisticConflict { actual_version: "Some(3)".to_string() })
            .expect_err("conflict");
    assert_eq!(conflict.code(), Code::FailedPrecondition);
    assert!(conflict.message().contains("Some(3)"));
    let other = append_reply(2, AppendOutcome::Other("Noop".to_string())).expect_err("unexpected");
    assert_eq!(other.code(), Code::Internal);
}

#[test]
fn creating_a_stream() {
    assert_eq!(check_create_stream("").expect_err("no name").code(), Code::InvalidArgument);
    assert!(check_create_stream("s").is_ok());
    let made = create_stream_reply(3, true, Some((1, "http://h:1".to_string())));
    assert_eq!((made.shard_id, made.leader_addr.as_str(), made.exists), (3, "http://h:1", false));
    assert!(create_stream_reply(3, false, None).exists);
    assert!(resolve_write_shard(true, None).is_ok());
    assert_eq!(resolve_write_shard(false, None).expect_err("elsewhere").code(), Code::Unavailable);
}

#[test]
fn an_id_is_read_back_from_its_bytes() {
    for id in [0, 1, 0x0102_0304_0506_0708_090a_0b0c_0d0e_0f10, u128::MAX] {
        assert_eq!(parse_id(&id_bytes(id)), Some(id));
    }
    assert_eq!(id_bytes(1)[15], 1);
    assert_eq!(parse_id(&vec![0; 15]), None);
    assert_eq!(parse_id(&vec![0; 17]), None);
}

#[test]
fn subscriptions_are_planned_by_shard() {
    match plan_subscription(Some(SubscribeTarget::All), &vec![4, 2]).expect("plan") {
        SubscribePlan::Groups(groups) => {
            let shards: Vec<u64> = groups.iter().map(|g| g.0).collect();
            assert_eq!(shards, [4, 2]);
            assert!(groups.iter().all(|g| g.1.is_empty()));
        }
        SubscribePlan::Route(_) => panic!("every shard is followed"),
    }
    assert_eq!(
        plan_subscription(None, &vec![0]).expect_err("no target").code(),
        Code::InvalidArgument
    );
    assert_eq!(
        plan_subscription(Some(SubscribeTarget::Streams(Vec::new())), &vec![0])
            .expect_err("no stream")
            .code(),
        Code::InvalidArgument
    );
    match plan_subscription(Some(SubscribeTarget::Streams(texts(&["b", "a", "b"]))), &vec![0])
        .expect("plan")
    {
        SubscribePlan::Route(streams) => assert_eq!(streams, ["a", "b"]),
        SubscribePlan::Groups(_) => panic!("the streams are routed first"),
    }
    let groups = group_streams(&vec![
        ("a".to_string(), 5),
        ("b".to_string(), 1),
        ("c".to_string(), 5),
    ]);
    assert_eq!(groups.len(), 2);
    let five = groups.iter().find(|g| g.0 == 5).expect("shard 5");
    assert_eq!(five.1, ["a", "c"]);
}

#[test]
fn a_source_that_ends_degrades_the_subscription() {
    assert!(matches!(forward_item(3, None), (SourceMessage::Degraded(3), _)));
    assert!(matches!(
        forward_item(3, Some(SourceItem::CaughtUp)),
        (SourceMessage::CaughtUp(3), _)
    ));
    assert!(admit_internal(3, Some(true)).is_ok());
    assert!(admit_internal(3, Some(false)).is_err());
    assert!(admit_internal(3, None).is_err());
}

#[test]
fn live_events_follow_history_without_gaps_or_repetition() {
    let mut sub = LocalSubscription::new(2, texts(&["a"]));
    assert!(!sub.caught_up);
    let read = vec![
        Ok(vec![stored("a", 0, 1), stored("a", 1, 3)]),
        Err("disk".to_string()),
    ];
    let items = sub.history(stored_history(read));
    let versions: Vec<Option<u64>> = items
        .iter()
        .map(|i| match i {
            SourceItem::Event(e) => Some(e.version),
            SourceItem::CaughtUp => None,
        })
        .collect();
    assert_eq!(versions, [Some(0), Some(1), None]);
    assert!(sub.caught_up);
    assert!(sub.live(stored("a", 1, 3)).is_none());
    assert!(sub.live(stored("b", 1, 4)).is_none());
    assert_eq!(sub.live(stored("a", 2, 5)).expect("new").version, 2);
    assert!(sub.live(stored("a", 2, 5)).is_none());
}

#[test]
fn a_batch_is_bounded_in_events_and_bytes() {
    let cursor = |from: u64| PersistentCursor {
        stream_id: "s".to_string(),
        from_version: from,
        max_count: 10,
    };
    let mut reader = BatchReader::new(2, 100);
    assert!(matches!(
        reader.visit(&cursor(0), Some(9)),
        Visit::Read { from_version: 0, count: 2 }
    ));
    assert!(reader.absorb(vec![(ev(0, 1, 1), 10), (ev(0, 2, 2), 10)]));
    assert_eq!(reader.events.len(), 2);
    let mut reader = BatchReader::new(5, 100);
    assert!(matches!(reader.visit(&cursor(3), None), Visit::Skip));
    assert!(matches!(reader.visit(&cursor(0), Some(9)), Visit::Read { .. }));
    assert!(reader.absorb(vec![(ev(0, 1, 1), 60), (ev(0, 2, 2), 60)]));
    assert_eq!(reader.events.len(), 1);
    assert_eq!(reader.used_bytes, 60);
}

#[test]
fn batches_are_read_at_the_leader_within_limits() {
    assert!(admit_batch(0, Some(true), 1000, 7340032).is_ok());
    assert_eq!(
        admit_batch(0, Some(true), 1001, 1).expect_err("events").code(),
        Code::InvalidArgument
    );
    assert_eq!(
        admit_batch(0, Some(true), 1, 7340033).expect_err("bytes").code(),
        Code::InvalidArgument
    );
    assert!(admit_batch(0, Some(false), 1, 1).is_err());
    assert!(admit_batch(0, None, 1, 1).is_err());
    assert!(head_failure("disk").message().contains("disk"));
    assert!(events_failure("disk").message().contains("disk"));
}

#[test]
fn a_stored_event_is_shown_with_its_shard() {
    let e = show(stored("s", 3, 8), 5);
    assert_eq!((e.stream_id.as_str(), e.version, e.position, e.shard_id), ("s", 3, 8, 5));
    assert_eq!(e.event_id, id_bytes(7));
    assert_eq!(e.hlc.map(|h| h.wall), Some(8));
}
