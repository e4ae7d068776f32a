//! Ownership of streams, against an authority held in memory.

use std::collections::BTreeMap;

use es_server::config::{
    Config, FileRead, NodeConfig, PeerConfig, PlacementConfig, PlacementNode, StorageConfig,
};
use es_server::maps::IdMap;
use es_server::migration_service::{
    AppendMigratedRequest, MigratedEvent, SetStreamShardRequest, admit_shard,
    check_delete, check_fence, commit_reply, fence_reply, list_streams, migrated_append,
    migrated_reply, move_change, read_chunks, stream_meta_from_shard,
};
use es_server::append::{AppendOutcome, ExpectedVersion};
use es_server::event::{Hlc, StoredEvent};
use es_server::ids::{id_bytes, parse_id};
use es_server::ownership::{
    AppendStage, AppendTarget, ChangeAnswer, ChangeReceipt, ChangeStage, Committed, ControlRecord,
    FenceReply, OwnerMatch, OwnershipApply, OwnershipChange, OwnershipError, OwnershipOutcome,
    Purpose, StreamOwnership, candidates, commit_applied, commit_failure, configured_shards,
    control_shard, fence_failure, fence_installed, forward_node_id,
};
use es_server::route_table::{Owner, RouteTable, RouteTableManager, routes_path};
use es_server::rpc_support::WriteError;
use es_server::service::EsService;
use es_server::status::Code;

fn test_config() -> Config {
    Config {
        node: NodeConfig {
            id: 1,
            listen_addr: "127.0.0.1:0".into(),
            internal_listen_addr: None,
            peers: Vec::new(),
        },
        storage: StorageConfig {
            data_dir: "/data".to_string(),
            memtable_arena_bytes: 4 * 1024 * 1024,
        },
        placement: PlacementConfig {
            replication_factor: 1,
            nodes: vec![PlacementNode { id: 1, primary: vec![0, 1], replica: Vec::new() }],
        },
        snapshot: Default::default(),
        tls: None,
        limits: Default::default(),
    }
}

fn unread() -> FileRead {
    FileRead::Failed("missing".to_string())
}

/// Decides as the control shard does, and keeps the fences of the data shards.
struct Authority {
    table: RouteTable,
    eligible: Vec<u64>,
    moves: BTreeMap<String, (u128, u64, u64)>,
    fences: BTreeMap<(u64, String), u64>,
    calls: Vec<(u64, String, u64)>,
    restored: usize,
}

impl Authority {
    fn new() -> Authority {
        Authority {
            table: RouteTable::new(),
            eligible: Vec::new(),
            moves: BTreeMap::new(),
            fences: BTreeMap::new(),
            calls: Vec::new(),
            restored: 0,
        }
    }

    fn answer(&self, outcome: OwnershipOutcome) -> Committed {
        let shown = format!("{outcome:?}");
        Committed {
            applied: Ok(OwnershipApply { outcome, shown, table: self.table.copy() }),
            persisted: Ok(()),
        }
    }

    fn bootstrap(&mut self, eligible: &[u64]) -> Committed {
        self.eligible = eligible.to_vec();
        self.answer(OwnershipOutcome::Snapshot)
    }

    fn ensure(&mut self, stream: &str) -> Committed {
        let (owner, created) = match self.table.lookup_owner(stream) {
            Some(owner) => (owner, false),
            None => {
                let shard = self.table.allocate(&self.eligible).expect("a shard");
                self.table.insert(stream.to_string(), shard);
                (Owner { shard_id: shard, generation: 1 }, true)
            }
        };
        self.answer(OwnershipOutcome::Owner { owner, created })
    }

    fn prepare(&mut self, stream: &str, expected: OwnerMatch, target: u64, id: u128) -> Committed {
        let current = self.table.lookup_owner(stream);
        let outcome = match current {
            Some(owner) if owner.shard_id == target => {
                OwnershipOutcome::Owner { owner, created: false }
            }
            Some(owner) if owner.match_token() == expected => {
                if self.eligible.contains(&target) {
                    let generation = owner.generation + 1;
                    self.moves.insert(stream.to_string(), (id, target, generation));
                    OwnershipOutcome::MovePrepared { current: owner, generation, operation_id: id }
                } else {
                    OwnershipOutcome::Invalid {
                        reason: format!("目标 Shard {target} 不在可分配集合中"),
                    }
                }
            }
            other => OwnershipOutcome::Conflict { current: other },
        };
        self.answer(outcome)
    }

    fn complete(&mut self, stream: &str, id: u128) -> Committed {
        let (prepared, target, generation) = self.moves.remove(stream).expect("a prepared move");
        assert_eq!(prepared, id);
        self.table.streams.insert(stream.to_string(), target);
        self.table.stream_generations.insert(stream.to_string(), generation);
        self.table.version += 1;
        let owner = Owner { shard_id: target, generation };
        self.answer(OwnershipOutcome::Owner { owner, created: false })
    }

    fn place(&mut self, eligible: &[u64]) -> Committed {
        if eligible.is_empty() {
            return self.answer(OwnershipOutcome::Invalid { reason: "no shard".to_string() });
        }
        self.eligible = eligible.to_vec();
        self.answer(OwnershipOutcome::Snapshot)
    }

    fn adopt(&mut self, stream: &str, target: u64) -> Committed {
        match self.table.lookup_owner(stream) {
            None => {
                self.table.insert(stream.to_string(), target);
                let owner = Owner { shard_id: target, generation: 1 };
                self.answer(OwnershipOutcome::Owner { owner, created: true })
            }
            current => self.answer(OwnershipOutcome::Conflict { current }),
        }
    }

    fn fence(&mut self, shard: u64, stream: &str, generation: u64) -> Result<u64, OwnershipError> {
        self.calls.push((shard, stream.to_string(), generation));
        let current = self.fences.entry((shard, stream.to_string())).or_default();
        *current = (*current).max(generation);
        Ok(*current)
    }

    fn fence_of(&self, shard: u64, stream: &str) -> Option<u64> {
        self.fences.get(&(shard, stream.to_string())).copied()
    }
}

struct Node {
    ownership: StreamOwnership,
    authority: Authority,
}

impl Node {
    fn new() -> Node {
        let config = test_config();
        let path = routes_path(&config.storage.data_dir);
        let table = RouteTableManager::new(&config, path, unread()).expect("route table");
        Node {
            ownership: StreamOwnership::new(table, vec![0, 1], 0),
            authority: Authority::new(),
        }
    }

    fn run(
        &mut self,
        stream: &str,
        purpose: Purpose,
        first: AppendStage,
    ) -> Result<AppendTarget, OwnershipError> {
        let mut stage = first;
        loop {
            stage = match stage {
                AppendStage::Done(r) => return r,
                AppendStage::Bootstrap => {
                    let answer = self.authority.bootstrap(&self.ownership.eligible_shards);
                    self.ownership.on_bootstrapped(stream, answer)
                }
                AppendStage::Ensure { last } => {
                    let answer = self.authority.ensure(stream);
                    self.ownership.on_ensured(stream, purpose, last, answer)
                }
                AppendStage::Fence { owner, created, last } => {
                    let seen = self.authority.fence(owner.shard_id, stream, owner.generation);
                    let target = AppendTarget { owner, created_now: created };
                    self.ownership.on_fenced(stream, purpose, target, last, seen)
                }
            };
        }
    }

    fn for_append(&mut self, stream: &str) -> Result<AppendTarget, OwnershipError> {
        let first = self.ownership.for_append(stream);
        self.run(stream, Purpose::Append, first)
    }

    fn recover_fenced(&mut self, stream: &str, attempted: u64) -> Result<AppendTarget, OwnershipError> {
        let _ = self.authority.bootstrap(&self.ownership.eligible_shards.clone());
        let first = self.ownership.recover_fenced(stream, attempted);
        self.run(stream, Purpose::Recover { attempted }, first)
    }

    fn answer(&mut self, stage: &ChangeStage) -> ChangeAnswer {
        let a = &mut self.authority;
        match stage {
            ChangeStage::Bootstrap(_) => {
                ChangeAnswer::Committed(a.bootstrap(&self.ownership.eligible_shards))
            }
            ChangeStage::PrepareMove { stream, expected, target_shard, operation_id } => {
                ChangeAnswer::Committed(a.prepare(stream, *expected, *target_shard, *operation_id))
            }
            ChangeStage::FenceTarget(m) => {
                ChangeAnswer::Fenced(a.fence(m.target_shard, &m.stream, m.generation))
            }
            ChangeStage::FenceSource(m) => {
                ChangeAnswer::Fenced(a.fence(m.source_shard, &m.stream, m.generation))
            }
            ChangeStage::CompleteMove(m) => {
                ChangeAnswer::Committed(a.complete(&m.stream, m.operation_id))
            }
            ChangeStage::ApplyPlacement { eligible_shards } => {
                ChangeAnswer::Committed(a.place(eligible_shards))
            }
            ChangeStage::AdoptOrphan { stream, target_shard, .. } => {
                ChangeAnswer::Committed(a.adopt(stream, *target_shard))
            }
            ChangeStage::FenceAdopter(d) => {
                ChangeAnswer::Fenced(a.fence(d.target_shard, &d.stream, d.owner.generation))
            }
            ChangeStage::FenceOrphanage(d) => {
                ChangeAnswer::Fenced(a.fence(d.source_shard, &d.stream, d.owner.generation))
            }
            ChangeStage::PublishAdoption(_) => ChangeAnswer::Persisted(Ok(())),
            ChangeStage::RestoreProjection => {
                a.restored += 1;
                ChangeAnswer::Persisted(Ok(()))
            }
            ChangeStage::Done(_) => unreachable!("a change that is done asks nothing"),
        }
    }

    fn change(&mut self, change: OwnershipChange) -> Result<ChangeReceipt, OwnershipError> {
        let mut stage = self.ownership.change(change);
        loop {
            if let ChangeStage::Done(r) = stage {
                return r;
            }
            let answer = self.answer(&stage);
            stage = self.ownership.on_answer(stage, answer);
        }
    }
}

fn move_of(stream: &str, expected: OwnerMatch, target_shard: u64) -> OwnershipChange {
    OwnershipChange::Move { stream: stream.to_string(), expected, target_shard, operation_id: 77 }
}

fn adoption(stream: &str, source_shard: u64, target_shard: u64) -> OwnershipChange {
    OwnershipChange::AdoptOrphan { stream: stream.to_string(), source_shard, target_shard }
}

#[test]
fn persisted_control_shard_survives_lower_shard_addition() {
    let mut initial = test_config();
    initial.placement.nodes[0].primary = vec![10, 11];
    let (first, to_record) =
        EsService::new(&initial, ControlRecord::Missing, unread(), unread()).expect("service");
    assert_eq!(first.ownership.control_shard_id(), 10);
    assert!(to_record);
    assert!(!first.ownership.initialized);
    assert_eq!(first.ownership.route_table.snapshot().version, 0);
    assert!(first.ownership.confirmed_fences.entries.is_empty());

    let mut expanded = initial;
    expanded.placement.nodes[0].primary.insert(0, 0);
    let (restarted, to_record) =
        EsService::new(&expanded, ControlRecord::Recorded(10), unread(), unread())
            .expect("service");
    assert_eq!(restarted.ownership.control_shard_id(), 10);
    assert!(!to_record);
    assert_eq!(restarted.all_shards, [0, 10, 11]);
    let gone = EsService::new(&expanded, ControlRecord::Recorded(12), unread(), unread());
    assert_eq!(gone.expect_err("not placed"), "持久化控制 Shard 12 不在当前放置表中");
}

#[test]
fn a_failed_first_commit_leaves_nothing_initialized() {
    let (service, _) =
        EsService::new(&test_config(), ControlRecord::Missing, unread(), unread()).expect("service");
    let mut ownership = service.ownership;
    let down = || OwnershipError::Unavailable("no leader".to_string());
    let refused = Committed { applied: Err(down()), persisted: Ok(()) };
    assert!(matches!(ownership.on_bootstrapped("s", refused), AppendStage::Done(Err(_))));
    assert!(!ownership.initialized);
    let unwritten = || Committed {
        applied: Ok(OwnershipApply {
            table: RouteTable::new(),
            outcome: OwnershipOutcome::Snapshot,
            shown: String::new(),
        }),
        persisted: Err("disk full".to_string()),
    };
    assert!(matches!(ownership.on_bootstrapped("s", unwritten()), AppendStage::Done(Err(_))));
    assert!(ownership.refresh_projection(unwritten()).is_err());
    assert!(!ownership.initialized);
}

#[test]
fn a_control_record_must_be_readable_and_placed() {
    let shards = configured_shards(&test_config().placement);
    assert_eq!(shards, [0, 1]);
    assert!(control_shard(&Vec::new(), ControlRecord::Missing).is_err());
    assert!(control_shard(&shards, ControlRecord::Recorded(9)).is_err());
    let err = control_shard(&shards, ControlRecord::Corrupt("eof".to_string())).expect_err("bad");
    assert!(err.contains("eof"));
    let err = control_shard(&shards, ControlRecord::Unreadable("io".to_string())).expect_err("bad");
    assert!(err.contains("io"));
}

#[test]
fn concurrent_first_append_returns_one_owner_and_installs_one_fence() {
    let mut node = Node::new();
    let targets: Vec<AppendTarget> =
        (0..32).map(|_| node.for_append("orders/42").expect("target")).collect();
    assert!(targets.iter().all(|target| target.shard_id() == targets[0].shard_id()));
    assert_eq!(
        targets.iter().filter(|target| target.created_now()).count(),
        1,
        "one call creates the stream"
    );
    assert_eq!(node.authority.calls.len(), 1);
}

#[test]
fn refresh_projection_discards_forged_higher_version() {
    let mut node = Node::new();
    let owner = *node.for_append("orders/authority").expect("target").owner();
    let mut forged = RouteTable::new();
    forged.insert("orders/authority".to_string(), 1);
    forged.version = 999;
    node.ownership.route_table.mem = forged;

    let answer = node.authority.bootstrap(&[0, 1]);
    node.ownership.refresh_projection(answer).expect("refreshed");
    assert_eq!(node.ownership.known("orders/authority"), Some(owner));
    assert_eq!(node.ownership.route_table.snapshot().version, 1);
}

#[test]
fn move_installs_new_generation_on_target_and_source_before_publish() {
    let mut node = Node::new();
    let initial = node.for_append("orders/7").expect("target");
    assert_eq!(initial.shard_id(), 0);

    let receipt =
        node.change(move_of("orders/7", initial.owner().match_token(), 1)).expect("moved");
    let moved = receipt.owner.expect("owner");
    assert_eq!(moved.shard_id, 1);
    assert_eq!(moved.generation, 2);
    assert!(receipt.changed);

    assert_eq!(node.authority.fence_of(0, "orders/7"), Some(2));
    assert_eq!(node.authority.fence_of(1, "orders/7"), Some(2));
    assert_eq!(node.ownership.known("orders/7"), Some(moved));
    let order: Vec<u64> = node.authority.calls.iter().skip(1).map(|c| c.0).collect();
    assert_eq!(order, [1, 0], "the target, and then the source");
}

#[test]
fn a_move_stops_when_the_target_cannot_be_fenced() {
    let mut node = Node::new();
    let initial = node.for_append("orders/7").expect("target");
    let stage = node.ownership.change(move_of("orders/7", initial.owner().match_token(), 1));
    let answer = node.answer(&stage);
    let stage = node.ownership.on_answer(stage, answer);
    assert!(matches!(stage, ChangeStage::FenceTarget(_)));
    let failed = Err(OwnershipError::Unavailable("no leader".to_string()));
    match node.ownership.on_answer(stage, ChangeAnswer::Fenced(failed)) {
        ChangeStage::Done(Err(OwnershipError::Unavailable(text))) => assert_eq!(text, "no leader"),
        other => panic!("the move must stop: {other:?}"),
    }
    assert_eq!(node.ownership.known("orders/7"), Some(*initial.owner()));
}

#[test]
fn orphan_adoption_is_conditional_and_fences_source_and_target() {
    let mut node = Node::new();
    let receipt = node.change(adoption("orders/orphan", 0, 1)).expect("adopted");
    let owner = receipt.owner.expect("owner");
    assert_eq!(owner.shard_id, 1);
    assert_eq!(owner.generation, 1);
    assert_eq!(node.authority.fence_of(0, "orders/orphan"), Some(1));
    assert_eq!(node.authority.fence_of(1, "orders/orphan"), Some(1));

    let conflict = node.change(adoption("orders/orphan", 0, 0)).expect_err("owned already");
    assert!(matches!(conflict, OwnershipError::Conflict(_)));
}

#[test]
fn placement_change_only_affects_future_streams() {
    let mut node = Node::new();
    let existing = node.for_append("existing").expect("target");
    node.change(OwnershipChange::ApplyPlacement { eligible_shards: vec![1] }).expect("placed");

    let future = node.for_append("future").expect("target");
    assert_eq!(existing.shard_id(), 0);
    assert_eq!(node.ownership.known("existing"), Some(*existing.owner()));
    assert_eq!(future.shard_id(), 1);
}

#[test]
fn fenced_write_refreshes_stale_projection_from_authority() {
    let mut node = Node::new();
    let initial = node.for_append("stale-route").expect("target");
    let prepared = node
        .authority
        .prepare("stale-route", initial.owner().match_token(), 1, 5)
        .applied
        .expect("prepared");
    let generation = match prepared.outcome {
        OwnershipOutcome::MovePrepared { generation, .. } => generation,
        other => panic!("should be prepared: {other:?}"),
    };
    node.authority.fence(1, "stale-route", generation).expect("fence");
    node.authority.fence(0, "stale-route", generation).expect("fence");
    node.authority.complete("stale-route", 5);

    let refreshed =
        node.recover_fenced("stale-route", initial.generation()).expect("new owner");
    assert_eq!(refreshed.shard_id(), 1);
    assert_eq!(refreshed.generation(), generation);
    assert_eq!(node.ownership.known("stale-route").expect("known").shard_id, 1);
}

#[test]
fn a_stale_projection_is_refreshed_when_the_fence_is_ahead() {
    let mut node = Node::new();
    let initial = node.for_append("s").expect("target");
    node.authority.prepare("s", initial.owner().match_token(), 1, 5);
    node.authority.fence(1, "s", 2).expect("fence");
    node.authority.fence(0, "s", 2).expect("fence");
    node.authority.complete("s", 5);
    node.ownership.confirmed_fences.remove("s");
    let target = node.for_append("s").expect("target");
    assert_eq!((target.shard_id(), target.generation()), (1, 2));
    assert!(!target.created_now());
}

#[test]
fn ownership_errors_map_to_stable_grpc_codes() {
    let cases = [
        (OwnershipError::Unavailable("quorum unavailable".into()), Code::Unavailable),
        (OwnershipError::Conflict(None), Code::Aborted),
        (OwnershipError::Invalid("invalid ownership".into()), Code::FailedPrecondition),
        (OwnershipError::UnsafeLegacyEdit("unsafe edit".into()), Code::FailedPrecondition),
        (OwnershipError::Internal("projection failure".into()), Code::Internal),
    ];
    for (error, expected) in cases {
        assert_eq!(error.into_status().code(), expected);
    }
}

#[test]
fn invalid_append_is_rejected_before_consensus() {
    let mut node = Node::new();
    let error = node.for_append("").expect_err("no name");
    assert!(matches!(error, OwnershipError::Invalid(_)));
    assert_eq!(node.authority.table.version, 0);
    assert!(node.authority.eligible.is_empty());
    assert!(node.authority.calls.is_empty());
}

#[test]
fn move_to_current_shard_is_an_idempotent_noop() {
    let mut node = Node::new();
    let initial = node.for_append("orders/noop-move").expect("target");
    let calls_before = node.authority.calls.len();
    let receipt = node
        .change(move_of("orders/noop-move", initial.owner().match_token(), initial.shard_id()))
        .expect("nothing to move");
    assert!(!receipt.changed);
    assert_eq!(receipt.owner, Some(*initial.owner()));
    assert_eq!(node.authority.calls.len(), calls_before);
}

#[test]
fn placement_change_rejects_empty_and_reports_noop() {
    let mut node = Node::new();
    let error = node
        .change(OwnershipChange::ApplyPlacement { eligible_shards: Vec::new() })
        .expect_err("no shard");
    assert!(matches!(error, OwnershipError::Invalid(_)));

    let receipt = node
        .change(OwnershipChange::ApplyPlacement { eligible_shards: vec![0, 1] })
        .expect("the same shards");
    assert!(!receipt.changed);
    assert!(receipt.owner.is_none());
}

#[test]
fn legacy_projection_accepts_same_snapshot_and_restores_tampering() {
    let mut node = Node::new();
    node.for_append("orders/canonical").expect("target");
    let canonical = node.ownership.route_table.snapshot();

    let noop =
        node.change(OwnershipChange::ImportLegacy { table: canonical.copy() }).expect("the same");
    assert!(!noop.changed);

    let mut tampered = canonical.copy();
    tampered.insert("orders/unsafe".to_string(), 1);
    let error = node
        .change(OwnershipChange::ImportLegacy { table: tampered })
        .expect_err("an edited table");
    assert!(matches!(error, OwnershipError::UnsafeLegacyEdit(_)));
    assert_eq!(node.authority.restored, 1);
    assert!(node.ownership.route_table.snapshot().same(&canonical));
}

#[test]
fn append_rejects_when_data_fence_stays_ahead_of_authority() {
    let mut node = Node::new();
    node.authority.fences.insert((0, "orders/ahead-fence".into()), 2);

    let error = node.for_append("orders/ahead-fence").expect_err("a fence ahead");
    assert_eq!(
        error.message(),
        "归属权威暂时不可用: Stream orders/ahead-fence 归属投影持续落后"
    );
    assert!(node.ownership.known("orders/ahead-fence").is_some());
}

#[test]
fn fenced_recovery_handles_missing_cache_and_non_advancing_owner() {
    let mut node = Node::new();
    let initial = node.recover_fenced("orders/recover", 0).expect("owner");
    assert_eq!(initial.generation(), 1);

    let error = node.recover_fenced("orders/recover", 1).expect_err("the same generation");
    assert_eq!(
        error.message(),
        "归属权威暂时不可用: Stream orders/recover 正在切换归属，请重试"
    );
}

#[test]
fn move_surfaces_missing_stream_conflict_and_invalid_target() {
    let mut node = Node::new();
    let expected = OwnerMatch { shard_id: 0, generation: 1 };
    let missing = node.change(move_of("orders/missing", expected, 1)).expect_err("no stream");
    assert_eq!(missing.message(), "归属已变化");

    let current = node.for_append("orders/invalid-target").expect("target");
    let invalid = node
        .change(move_of("orders/invalid-target", current.owner().match_token(), 99))
        .expect_err("no such shard");
    assert_eq!(invalid.message(), "归属请求无效: 目标 Shard 99 不在可分配集合中");
}

#[test]
fn raft_adapter_without_local_shard_or_peer_is_unavailable() {
    let none: IdMap<String> = IdMap::new();
    assert!(candidates(&none, None).is_empty());
    assert_eq!(
        commit_failure(None).message(),
        "归属权威暂时不可用: 找不到控制 Shard leader"
    );
    assert_eq!(fence_failure(1, None).message(), "归属权威暂时不可用: 找不到 Shard 1 leader");
    assert_eq!(
        commit_failure(Some("refused".to_string())).message(),
        "归属权威暂时不可用: refused"
    );
}

#[test]
fn a_known_leader_is_asked_first() {
    let mut addrs: IdMap<String> = IdMap::new();
    addrs.insert(2, "http://b".to_string());
    addrs.insert(3, "http://c".to_string());
    let forward = WriteError::ForwardToLeader { leader_id: Some(3), leader_addr: None };
    let preferred = forward_node_id(&forward);
    assert_eq!(preferred, Some(3));
    assert_eq!(candidates(&addrs, preferred), ["http://c", "http://b", "http://c"]);
    assert_eq!(candidates(&addrs, Some(9)), ["http://b", "http://c"]);
    assert_eq!(forward_node_id(&WriteError::Fatal("x".to_string())), None);
}

#[test]
fn a_fence_below_the_asked_generation_is_an_error() {
    let reply = |installed: Option<u64>| FenceReply { installed, shown: "Noop".to_string() };
    assert_eq!(fence_installed(3, reply(Some(4))).expect("fence"), 4);
    assert!(matches!(fence_installed(3, reply(Some(2))), Err(OwnershipError::Internal(_))));
    assert!(matches!(fence_installed(3, reply(None)), Err(OwnershipError::Internal(_))));
    assert!(matches!(commit_applied(Err("Noop".to_string())), Err(OwnershipError::Internal(_))));
}

#[test]
fn peers_without_internal_address_are_not_asked() {
    let mut config = test_config();
    config.node.peers = vec![
        PeerConfig { id: 2, addr: "h:2".into(), internal_addr: None },
        PeerConfig { id: 3, addr: "h:3".into(), internal_addr: Some("h:13".into()) },
    ];
    let (service, _) =
        EsService::new(&config, ControlRecord::Missing, unread(), unread()).expect("service");
    assert_eq!(candidates(&service.remote.internal_addrs, None), ["http://h:13"]);
}

fn move_request(generation: u64, operation_id: Vec<u8>) -> SetStreamShardRequest {
    SetStreamShardRequest {
        stream_id: "orders/concurrent".into(),
        shard_id: 9,
        expected_shard_id: 4,
        expected_generation: generation,
        operation_id,
    }
}

#[test]
fn move_request_preserves_caller_observation_and_operation_id() {
    let operation_id: u128 = 0x1234_5678_9abc_def0_1122_3344_5566_7788;
    let change = move_change(move_request(7, id_bytes(operation_id))).expect("a move");
    match change {
        OwnershipChange::Move { stream, expected, target_shard, operation_id: parsed } => {
            assert_eq!(stream, "orders/concurrent");
            assert_eq!(expected.shard_id, 4);
            assert_eq!(expected.generation, 7);
            assert_eq!(target_shard, 9);
            assert_eq!(parsed, operation_id);
        }
        other => panic!("should be a move: {other:?}"),
    }
}

#[test]
fn move_request_rejects_missing_cas_token() {
    let status = move_change(SetStreamShardRequest {
        stream_id: "orders/missing-token".into(),
        shard_id: 1,
        expected_shard_id: 0,
        expected_generation: 1,
        operation_id: Vec::new(),
    })
    .expect_err("no operation id");
    assert_eq!(status.code(), Code::InvalidArgument);
}

#[test]
fn generation_zero_preserves_orphan_source_for_adoption() {
    let change = move_change(SetStreamShardRequest {
        stream_id: "orders/orphan".into(),
        shard_id: 8,
        expected_shard_id: 3,
        expected_generation: 0,
        operation_id: id_bytes(42),
    })
    .expect("an adoption");
    let OwnershipChange::AdoptOrphan { stream, source_shard, target_shard } = change else {
        panic!("generation 0 is an adoption");
    };
    assert_eq!(stream, "orders/orphan");
    assert_eq!(source_shard, 3);
    assert_eq!(target_shard, 8);
}

fn stored(version: u64) -> StoredEvent {
    StoredEvent {
        stream_id: "s".to_string(),
        version,
        event_id: version as u128,
        event_type: "T".to_string(),
        data: Vec::new(),
        metadata: Vec::new(),
        hlc: Hlc { wall: version, logical: 0 },
        position: version,
    }
}

#[test]
fn exported_streams_come_in_chunks_that_lose_nothing() {
    let chunks = read_chunks(4, Ok((0..450).map(stored).collect())).expect("chunks");
    let sizes: Vec<usize> = chunks.iter().map(|c| c.events.len()).collect();
    assert_eq!(sizes, [200, 200, 50]);
    let versions: Vec<u64> =
        chunks.iter().flat_map(|c| c.events.iter().map(|e| e.version)).collect();
    assert_eq!(versions, (0..450).collect::<Vec<u64>>());
    assert_eq!(
        read_chunks(4, Err("disk".to_string())).expect_err("failed").code(),
        Code::Internal
    );
}

fn migrated(event: Option<MigratedEvent>) -> AppendMigratedRequest {
    AppendMigratedRequest {
        shard_id: 4,
        stream_id: "s".to_string(),
        expected_version: Some(Some(ExpectedVersion::Exact(2))),
        event,
    }
}

#[test]
fn a_migrated_event_keeps_its_clock() {
    let event = |hlc: Option<Hlc>| MigratedEvent {
        event_id: vec![9; 16],
        event_type: "T".to_string(),
        data: vec![1],
        metadata: vec![2],
        hlc,
    };
    let made = migrated_append(migrated(Some(event(Some(Hlc { wall: 8, logical: 3 })))))
        .expect("append");
    assert_eq!(made.event.event_id, parse_id(&vec![9; 16]).expect("id"));
    assert_eq!((made.hlc.wall, made.hlc.logical), (8, 3));
    assert!(matches!(made.expected, ExpectedVersion::Exact(2)));
    assert!(migrated_append(migrated(None)).is_err());
    let mut bad = event(None);
    bad.event_id = vec![9; 3];
    assert_eq!(
        migrated_append(migrated(Some(bad))).expect_err("no id").code(),
        Code::InvalidArgument
    );
}

#[test]
fn migration_requests_are_answered() {
    assert!(admit_shard(3, true).is_ok());
    assert!(admit_shard(3, false).is_err());
    let ok = migrated_reply(
        4,
        Ok(AppendOutcome::AppendOk {
            next_expected_version: 3,
            first_position: 7,
            last_position: 7,
        }),
        "",
    )
    .expect("reply");
    assert_eq!((ok.shard_id, ok.next_expected_version), (4, 3));
    let conflict = Ok(AppendOutcome::OptimisticConflict { actual_version: "9".to_string() });
    let conflict = migrated_reply(4, conflict, "").expect_err("conflict");
    assert_eq!(conflict.code(), Code::FailedPrecondition);
    assert_eq!(conflict.message, "optimistic conflict: actual_version=9");
    let fenced = Ok(AppendOutcome::OwnershipFenced { current_generation: 5 });
    let unexpected = migrated_reply(4, fenced, "Fenced").expect_err("unexpected");
    assert_eq!(unexpected.code(), Code::Internal);
    assert_eq!(unexpected.message, "迁移写入返回意外结果: Fenced");
    assert!(check_delete("").is_err());
    assert!(check_delete("s").is_ok());
    assert!(stream_meta_from_shard(4, Ok(Some(6))).expect("meta").exists);
    assert!(!stream_meta_from_shard(4, Ok(None)).expect("meta").exists);
    let names = list_streams(Ok(vec![("b".to_string(), 1), ("a".to_string(), 2)])).expect("names");
    assert_eq!(names.len(), 2);
    assert!(check_fence("s", 1).is_ok());
    assert!(check_fence("", 1).is_err());
    assert!(check_fence("s", 0).is_err());
    assert_eq!(fence_reply(Ok(Ok(5))).expect("fence"), 5);
    assert!(fence_reply(Ok(Err("Noop".to_string()))).is_err());
    assert!(commit_reply(Ok(Err("Noop".to_string()))).is_err());
}
