//! Persistent subscriptions: groups, what their consumers get, and what they settle.

use es_server::backlog::PersistentHead;
use es_server::event::{Event, Hlc};
use es_server::ids::{id_bytes, parse_id};
use es_server::maps::TextMap;
use es_server::persistent_fetch::{
    Allowance, Gathered, allowance, candidates_of, claim_deadline, claimed_reply, has_expired,
    nothing_read, parse_uuid, plan_reads,
};
use es_server::persistent_group::{
    Delivery, Lease, Parked, PendingRetry, PersistentGroup, PersistentSettings, PersistentTarget,
    StreamProgress, TargetRequest, fill_settings, group_info, parse_settings, parse_target,
};
use es_server::persistent_service::{
    FetchLimits, GroupOutcome, ResetStart, SettlementAction, SettlementRequest, SettlementStatus,
    StartSpec, StreamReset, Submitted, admit_control, apply_update, create_reply, delete_reply,
    ensured_progress, fetch_limits, fetch_pause, group_reply, initial_progress, list_parked,
    missing_streams, newer_generations, note_heads, parked_event, parse_settlements, plan_update,
    read_persistent_group, route_heads, settlement_results, start_streams, submit_persistent,
    targeted, update_reply,
};
use es_server::route_table::RouteTable;
use es_server::rpc_support::WriteError;
use es_server::status::Code;
use es_server::versions::VersionMap;

fn settings() -> PersistentSettings {
    PersistentSettings {
        max_unacked_per_consumer: 10,
        max_unacked_per_group: 100,
        ack_timeout_ms: 30_000,
        max_retries: 3,
        retry_min_ms: 100,
        retry_max_ms: 1_000,
    }
}

fn texts(names: &[&str]) -> Vec<String> {
    names.iter().map(|n| n.to_string()).collect()
}

fn group(target: PersistentTarget) -> PersistentGroup {
    PersistentGroup {
        name: "workers".to_string(),
        revision: 4,
        epoch: 2,
        target,
        settings: settings(),
        progress: TextMap::new(),
        pending_retries: VersionMap::new(),
        deliveries: Vec::new(),
        parked: Vec::new(),
        scan_after: None,
    }
}

fn routes(streams: &[(&str, u64)]) -> TextMap<u64> {
    let mut m: TextMap<u64> = TextMap::new();
    for (stream, shard) in streams {
        m.insert(stream.to_string(), *shard);
    }
    m
}

fn table(streams: &[(&str, u64)]) -> RouteTable {
    let mut t = RouteTable::new();
    for (stream, shard) in streams {
        t.insert(stream.to_string(), *shard);
    }
    t
}

fn heads(known: &[(&str, u64, u64)]) -> TextMap<(u64, u64)> {
    let mut m: TextMap<(u64, u64)> = TextMap::new();
    for (stream, version, generation) in known {
        m.insert(stream.to_string(), (*version, *generation));
    }
    m
}

fn delivery(id: u128, stream: &str, version: u64, consumer: &str, deadline_ms: u64) -> Delivery {
    Delivery {
        delivery_id: id,
        stream_id: stream.to_string(),
        version,
        consumer_id: consumer.to_string(),
        deadline_ms,
        attempt: 1,
        group_epoch: 2,
        replayed: false,
    }
}

fn event(stream: &str, version: u64) -> Event {
    Event {
        stream_id: stream.to_string(),
        version,
        event_id: id_bytes(1000 + version as u128),
        event_type: "T".to_string(),
        data: vec![1, 2, 3],
        metadata: Vec::new(),
        hlc: Some(Hlc { wall: version, logical: 0 }),
        position: version,
        shard_id: 0,
    }
}

#[test]
fn targets_are_distinct_names_or_all() {
    let t = parse_target(Some(TargetRequest::Streams(texts(&["b", "", "a", "b"])))).expect("target");
    assert!(t.same(&PersistentTarget::Streams(texts(&["a", "b"]))));
    assert!(t.contains("a"));
    assert!(!t.contains("c"));
    assert!(t.copy().same(&t));
    assert!(parse_target(Some(TargetRequest::All)).expect("all").contains("anything"));
    for bad in [None, Some(TargetRequest::Streams(texts(&["", ""])))] {
        assert_eq!(parse_target(bad).expect_err("no target").code(), Code::InvalidArgument);
    }
}

#[test]
fn unset_settings_take_the_defaults() {
    let mut asked = settings();
    asked.max_retries = 0;
    asked.ack_timeout_ms = 5;
    let filled = fill_settings(Some(asked), &settings());
    assert_eq!(filled.max_retries, 3);
    assert_eq!(filled.ack_timeout_ms, 5);
    assert_eq!(fill_settings(None, &settings()).retry_max_ms, 1_000);
    assert!(parse_settings(None, &settings(), Ok(())).is_ok());
    let refused = parse_settings(None, &settings(), Err("too many".to_string())).expect_err("bad");
    assert_eq!(refused.code(), Code::InvalidArgument);
    assert!(refused.message().contains("too many"));
}

#[test]
fn a_fetch_reads_retries_first_and_skips_what_others_hold() {
    let mut g = group(PersistentTarget::All);
    for stream in ["a", "b", "c", "d"] {
        g.progress.insert(stream.to_string(), StreamProgress::new(5, 1));
    }
    g.progress.insert(
        "b".to_string(),
        StreamProgress {
            next_version: 5,
            ownership_generation: 1,
            resolved_gaps: Vec::new(),
            lease: Some(Lease { consumer_id: "other".to_string(), deadline_ms: 2_000 }),
        },
    );
    g.progress.insert(
        "c".to_string(),
        StreamProgress {
            next_version: 5,
            ownership_generation: 1,
            resolved_gaps: vec![6, 8],
            lease: None,
        },
    );
    g.pending_retries.insert("d".to_string(), 3, PendingRetry { not_before_ms: 900, replayed: true });
    g.pending_retries.insert("a".to_string(), 9, PendingRetry { not_before_ms: 1_500, replayed: false });
    g.deliveries.push(delivery(1, "a", 7, "me", 9_000));
    let plan = plan_reads(&g, &routes(&[("a", 1), ("b", 1), ("c", 2), ("d", 2)]), "me", 10, 1_000);
    assert_eq!(plan.next_retry, Some(1_500));
    let seen: Vec<(u64, Vec<(String, u64, u32)>)> = plan
        .requests
        .iter()
        .map(|(shard, reads)| {
            let reads = reads
                .iter()
                .map(|c| (c.stream_id.clone(), c.from_version, c.max_count))
                .collect();
            (*shard, reads)
        })
        .collect();
    assert_eq!(
        seen,
        [
            (1, vec![("a".to_string(), 8, 9)]),
            (2, vec![("d".to_string(), 3, 1), ("c".to_string(), 9, 9)]),
        ]
    );
}

#[test]
fn a_scan_goes_on_behind_the_last_stream() {
    let mut g = group(PersistentTarget::All);
    for stream in ["a", "b", "c"] {
        g.progress.insert(stream.to_string(), StreamProgress::new(0, 1));
    }
    g.scan_after = Some("a".to_string());
    let plan = plan_reads(&g, &routes(&[("a", 1), ("b", 1), ("c", 1)]), "me", 2, 0);
    let names: Vec<&str> = plan.requests[0].1.iter().map(|c| c.stream_id.as_str()).collect();
    assert_eq!(names, ["b", "c"]);
}

#[test]
fn what_is_read_is_bounded_and_claimed() {
    let mut gathered = Gathered::new(3, 20);
    assert_eq!(gathered.room(), Some((3, 20)));
    gathered.absorb(vec![(event("b", 1), 8), (event("a", 4), 8), (event("a", 5), 8)]);
    assert_eq!(gathered.events.entries.len(), 2);
    assert_eq!(gathered.used_bytes, 16);
    assert_eq!(gathered.room(), Some((1, 4)));

    let mut retries: VersionMap<PendingRetry> = VersionMap::new();
    retries.insert("a".to_string(), 4, PendingRetry { not_before_ms: 0, replayed: true });
    let candidates = candidates_of(&gathered.events, &retries).expect("candidates");
    let named: Vec<(&str, u64, u128, bool)> = candidates
        .iter()
        .map(|c| (c.stream_id.as_str(), c.version, c.event_id, c.replayed))
        .collect();
    assert_eq!(named, [("a", 4, 1004, true), ("b", 1, 1001, false)]);
    assert_ne!(candidates[0].delivery_id, candidates[1].delivery_id);

    let reply = claimed_reply(
        gathered.events,
        vec![delivery(11, "a", 4, "me", 99), delivery(12, "z", 4, "me", 99)],
    );
    assert_eq!(reply.deliveries.len(), 1);
    assert_eq!(reply.deliveries[0].delivery_id, id_bytes(11));
    assert_eq!(reply.deliveries[0].event.version, 4);
    assert_eq!(reply.deliveries[0].lease_deadline_ms, 99);
}

#[test]
fn a_large_first_event_is_still_delivered() {
    let mut gathered = Gathered::new(3, 4);
    gathered.absorb(vec![(event("a", 1), 50), (event("a", 2), 1)]);
    assert_eq!(gathered.events.entries.len(), 1);
}

#[test]
fn a_consumer_without_credit_waits() {
    let mut g = group(PersistentTarget::All);
    assert!(matches!(allowance(&g, "me", 3, 10, 0), Allowance::Fetch(3)));
    assert!(matches!(allowance(&g, "me", 30, 10, 0), Allowance::Fetch(10)));
    match allowance(&g, "me", 0, 10, 0) {
        Allowance::Throttled(r) => assert_eq!(r.retry_after_ms, 30_000),
        Allowance::Fetch(_) => panic!("no credit"),
    }
    g.deliveries.push(delivery(1, "a", 7, "me", 900));
    g.deliveries.push(delivery(2, "a", 8, "me", 800));
    match allowance(&g, "me", 0, 10, 500) {
        Allowance::Throttled(r) => assert_eq!((r.retry_after_ms, r.throttled), (300, true)),
        Allowance::Fetch(_) => panic!("no credit"),
    }
    assert!(has_expired(&g.deliveries, 800));
    assert!(!has_expired(&g.deliveries, 799));
    assert_eq!(claim_deadline(u64::MAX, 5), u64::MAX);
    assert_eq!(claim_deadline(10, 5), 15);
    let idle = nothing_read(None, 7);
    assert!(idle.caught_up && idle.retry_after_ms == 0);
    assert_eq!(nothing_read(Some(10), 7).retry_after_ms, 3);
}

#[test]
fn ids_must_have_sixteen_bytes() {
    assert_eq!(parse_uuid(&id_bytes(9), "delivery_id").expect("id"), 9);
    let refused = parse_uuid(&vec![1; 4], "delivery_id").expect_err("short");
    assert_eq!(refused.code(), Code::InvalidArgument);
    assert_eq!(refused.message(), "delivery_id 必须是 16 字节 UUID");
}

#[test]
fn heads_are_asked_where_the_streams_are() {
    let t = table(&[("a", 1), ("b", 2)]);
    let routed = route_heads(&texts(&["b", "a"]), &t).expect("routes");
    assert_eq!(routed, [("b".to_string(), 2), ("a".to_string(), 1)]);
    assert_eq!(route_heads(&texts(&["x"]), &t).expect_err("lost").code(), Code::NotFound);
    let mut have: TextMap<(u64, u64)> = TextMap::new();
    let head = |exists: bool| PersistentHead {
        stream_id: "a".to_string(),
        exists,
        current_version: 6,
    };
    note_heads(&mut have, vec![head(true)], &t).expect("noted");
    assert_eq!(have.get("a"), Some(&(6, 1)));
    assert_eq!(
        note_heads(&mut have, vec![head(false)], &t).expect_err("no data").code(),
        Code::NotFound
    );
}

#[test]
fn a_new_group_begins_where_it_was_told() {
    let t = table(&[("a", 1), ("b", 2)]);
    let all = PersistentTarget::All;
    assert_eq!(targeted(&all, &t), ["a", "b"]);
    let mut start = StartSpec { from_now: true, next_versions: TextMap::new() };
    start.next_versions.insert("a".to_string(), 2);
    let streams = start_streams(&all, &start, &t).expect("streams");
    assert_eq!(streams, ["a", "b"]);
    let p = initial_progress(&streams, &start, &heads(&[("a", 6, 1), ("b", 9, 3)])).expect("begun");
    assert_eq!(p.get("a").expect("a").next_version, 2);
    assert_eq!(p.get("b").expect("b").next_version, 10);
    assert_eq!(p.get("b").expect("b").ownership_generation, 3);

    start.next_versions.insert("a".to_string(), 8);
    assert_eq!(
        initial_progress(&streams, &start, &heads(&[("a", 6, 1), ("b", 9, 3)]))
            .expect_err("beyond the head")
            .code(),
        Code::InvalidArgument
    );
    start.next_versions.insert("x".to_string(), 0);
    assert!(start_streams(&all, &start, &t).is_err());
}

#[test]
fn a_group_of_all_streams_grows() {
    let t = table(&[("a", 1), ("b", 2)]);
    let mut g = group(PersistentTarget::All);
    g.progress.insert("a".to_string(), StreamProgress::new(3, 1));
    assert_eq!(missing_streams(&g, &t), ["b"]);
    let added = ensured_progress(&heads(&[("b", 4, 2)]));
    assert_eq!(added.get("b").expect("b").next_version, 0);
    let fixed = group(PersistentTarget::Streams(texts(&["a"])));
    assert!(missing_streams(&fixed, &t).is_empty());

    let mut moved = table(&[("a", 1), ("b", 2)]);
    moved.stream_generations.insert("a".to_string(), 5);
    let newer = newer_generations(&g, &moved);
    assert_eq!(newer.entries, [("a".to_string(), 5)]);
}

#[test]
fn an_update_keeps_what_stays_and_resets_what_is_named() {
    let t = table(&[("a", 1), ("b", 2), ("c", 2)]);
    let mut g = group(PersistentTarget::Streams(texts(&["a", "b"])));
    g.progress.insert("a".to_string(), StreamProgress::new(3, 1));
    g.progress.insert("b".to_string(), StreamProgress::new(4, 1));
    g.pending_retries.insert("a".to_string(), 1, PendingRetry { not_before_ms: 0, replayed: false });
    g.pending_retries.insert("b".to_string(), 1, PendingRetry { not_before_ms: 0, replayed: false });
    let reset = |stream: &str, start: ResetStart| StreamReset {
        stream_id: stream.to_string(),
        start: Some(start),
    };
    let wanted = PersistentTarget::Streams(texts(&["a", "c"]));
    let plan =
        plan_update(&g, Some(wanted), vec![reset("c", ResetStart::NextVersion(2))], &t).expect("plan");
    assert!(plan.target_changed);
    assert_eq!(plan.desired, ["a", "c"]);
    let (g, _) = apply_update(g, plan, settings(), &heads(&[]), &heads(&[("c", 7, 4)])).expect("group");
    assert_eq!(g.revision, 5);
    assert_eq!(g.progress.names(), ["a", "c"]);
    assert_eq!(g.progress.get("a").expect("a").next_version, 3);
    assert_eq!(g.progress.get("c").expect("c").next_version, 2);
    assert_eq!(g.pending_retries.entries.len(), 1);

    let outside = plan_update(&g, None, vec![reset("z", ResetStart::Now)], &t);
    assert_eq!(outside.expect_err("not a target").code(), Code::InvalidArgument);
}

#[test]
fn outcomes_become_replies() {
    assert_eq!(create_reply(GroupOutcome::Done(3), "").expect("done"), 3);
    let conflict = || -> GroupOutcome<u8> { GroupOutcome::Conflict { actual_revision: 6 } };
    assert_eq!(create_reply(conflict(), "").expect_err("exists").code(), Code::AlreadyExists);
    assert_eq!(
        update_reply(conflict(), "").expect_err("conflict").message(),
        "subscription revision conflict: actual_revision=6"
    );
    assert_eq!(delete_reply(conflict(), "").expect_err("conflict").code(), Code::Aborted);
    let gone = || -> GroupOutcome<u8> { GroupOutcome::NotFound };
    assert_eq!(update_reply(gone(), "").expect_err("gone").code(), Code::NotFound);
    assert_eq!(group_reply("Claim", gone(), "").expect_err("gone").code(), Code::NotFound);
    let odd = || -> GroupOutcome<u8> { GroupOutcome::Unexpected };
    let refused = group_reply("Claim", odd(), "Noop").expect_err("odd");
    assert_eq!(refused.code(), Code::Internal);
    assert!(refused.message().contains("Claim") && refused.message().contains("Noop"));
    let invalid = || -> GroupOutcome<u8> { GroupOutcome::Invalid { reason: "no".to_string() } };
    assert_eq!(update_reply(invalid(), "").expect_err("bad").message(), "no");
}

#[test]
fn groups_are_kept_by_the_control_shard() {
    assert!(admit_control(Some(true), None).is_ok());
    assert_eq!(admit_control(None, None).expect_err("elsewhere").code(), Code::Unavailable);
    assert_eq!(admit_control(Some(false), None).expect_err("follower").code(), Code::Unavailable);
    assert_eq!(submit_persistent(Ok(Submitted::Groups(4))).expect("written"), 4);
    let odd: Result<Submitted<u8>, WriteError> = Ok(Submitted::Other("Noop".to_string()));
    assert_eq!(submit_persistent(odd).expect_err("odd").code(), Code::Internal);
    assert_eq!(read_persistent_group("g", Ok(Some(1))).expect("found"), 1);
    let none: Result<Option<u8>, String> = Ok(None);
    assert_eq!(
        read_persistent_group("g", none).expect_err("gone").message(),
        "persistent subscription 'g' not found"
    );
}

#[test]
fn fetches_have_limits() {
    let asked = |max_events: u32, max_bytes: u64, wait_ms: u64| FetchLimits {
        max_events,
        max_bytes,
        wait_ms,
    };
    let defaults = asked(50, 1_000, 100);
    let l = fetch_limits("g", "c", &asked(0, 7, 0), &defaults, 500).expect("limits");
    assert_eq!((l.max_events, l.max_bytes, l.wait_ms), (50, 7, 100));
    for bad in [asked(1_001, 0, 0), asked(0, 7_340_033, 0), asked(0, 0, 501)] {
        assert_eq!(
            fetch_limits("g", "c", &bad, &defaults, 500).expect_err("too much").code(),
            Code::InvalidArgument
        );
    }
    assert!(fetch_limits("", "c", &asked(1, 1, 1), &defaults, 500).is_err());
    assert!(fetch_limits("g", "", &asked(1, 1, 1), &defaults, 500).is_err());
    assert_eq!(fetch_pause(1, false, false, 0), None);
    assert_eq!(fetch_pause(0, true, false, 0), None);
    assert_eq!(fetch_pause(0, false, true, 0), None);
    assert_eq!(fetch_pause(0, false, false, 0), Some(50));
    assert_eq!(fetch_pause(0, false, false, 7), Some(7));
    assert_eq!(fetch_pause(0, false, false, 70), Some(50));
}

#[test]
fn settlements_are_checked_and_answered_in_order() {
    let request = |id: Vec<u8>, action: Option<SettlementAction>| SettlementRequest {
        delivery_id: id,
        action,
        reason: "why".to_string(),
    };
    let parsed = parse_settlements(
        "c",
        vec![
            request(id_bytes(4), Some(SettlementAction::Park)),
            request(id_bytes(5), Some(SettlementAction::Ack)),
        ],
    )
    .expect("settlements");
    let ids: Vec<u128> = parsed.iter().map(|s| s.delivery_id).collect();
    assert_eq!(ids, [4, 5]);
    assert_eq!(parsed[0].action, SettlementAction::Park);
    for bad in [
        parse_settlements("", vec![request(id_bytes(4), Some(SettlementAction::Ack))]),
        parse_settlements("c", Vec::new()),
        parse_settlements("c", vec![request(vec![1], Some(SettlementAction::Ack))]),
        parse_settlements("c", vec![request(id_bytes(4), None)]),
    ] {
        assert_eq!(bad.expect_err("refused").code(), Code::InvalidArgument);
    }
    let results =
        settlement_results(&ids, &vec![SettlementStatus::Applied, SettlementStatus::StaleLease]);
    assert_eq!(parse_id(&results[1].delivery_id), Some(5));
    assert_eq!(results[1].status, SettlementStatus::StaleLease);
}

#[test]
fn parked_events_come_in_pages() {
    let mut g = group(PersistentTarget::All);
    for i in 0..3 {
        g.parked.push(Parked {
            parked_id: i as u128,
            stream_id: if i == 1 { "lost".to_string() } else { "a".to_string() },
            version: i,
            attempts: 2,
            reason: "bad".to_string(),
            parked_at_ms: 7,
        });
    }
    let t = table(&[("a", 5)]);
    let page = list_parked(&g, &t, 0, 2);
    assert_eq!(page.next_offset, 2);
    assert_eq!(page.reads.len(), 2);
    assert_eq!(page.reads[0].1.as_ref().expect("read").0, 5);
    assert!(page.reads[1].1.is_none());
    let last = list_parked(&g, &t, 2, 2);
    assert_eq!((last.reads.len(), last.next_offset), (1, 0));
    let shown = parked_event(&g.parked[0], Some(event("a", 0)));
    assert_eq!(shown.parked_id, id_bytes(0));
    assert_eq!(shown.event.expect("event").version, 0);
    assert_eq!(group_info(&g).parked_count, 3);
}
