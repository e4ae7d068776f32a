//! Configuration: what is accepted, and what follows from it.

use es_server::bootstrap::{
    BootstrapMode, InitAnswer, InitStep, Probe, ProbeOutcome, ProbeStep, RaftState, ShardPlan,
    after_probe, decide_mode, delay_from, first_look, formation_delay_ms, on_init_answer, same_ids,
    second_look, unchecked_tls,
};
use es_server::config::{
    ClientTrust, Compression, Config, FileRead, LimitsSection, MAX_APPEND_BATCH_BYTES,
    MAX_SNAPSHOT_CHUNK_BYTES, NodeConfig, PeerConfig, PlacementConfig, PlacementNode, Probes,
    SnapshotSection, StorageConfig, TlsConfig, TlsFiles, default_memtable_arena_bytes,
};
use es_server::endpoint::{host_of, normalize_endpoint};
use es_server::factory::{RaftSettings, check_raft, shard_setup, snapshot_dir};
use es_server::server::{ConfigFormat, Server, config_format};

fn bytes(b: &[u8]) -> FileRead {
    FileRead::Bytes(b.to_vec())
}

fn unread() -> FileRead {
    FileRead::Failed("No such file or directory (os error 2)".to_string())
}

fn files(cert: FileRead, key: FileRead, ca: FileRead) -> TlsFiles {
    TlsFiles { cert, key, ca }
}

fn probes() -> Probes {
    Probes { internal_listen: None, tls_files: files(unread(), unread(), unread()) }
}

fn check(config: &Config) -> Result<(), String> {
    config.validate(&probes())
}

fn path(s: &str) -> Option<String> {
    Some(s.to_string())
}

fn peer(id: u64, addr: &str) -> PeerConfig {
    PeerConfig { id, addr: addr.to_string(), internal_addr: None }
}

/// Three nodes in a ring, six shards, two nodes for each.
fn valid_config() -> Config {
    Config {
        node: NodeConfig {
            id: 1,
            listen_addr: "127.0.0.1:50051".to_string(),
            internal_listen_addr: None,
            peers: vec![
                peer(1, "127.0.0.1:50051"),
                peer(2, "127.0.0.1:50052"),
                peer(3, "127.0.0.1:50053"),
            ],
        },
        storage: StorageConfig {
            data_dir: "./data".to_string(),
            memtable_arena_bytes: default_memtable_arena_bytes(),
        },
        placement: PlacementConfig {
            replication_factor: 2,
            nodes: vec![
                PlacementNode { id: 1, primary: vec![0, 1], replica: vec![2, 3] },
                PlacementNode { id: 2, primary: vec![2, 3], replica: vec![4, 5] },
                PlacementNode { id: 3, primary: vec![4, 5], replica: vec![0, 1] },
            ],
        },
        snapshot: Default::default(),
        tls: None,
        limits: Default::default(),
    }
}

#[test]
fn tls_cert_key_must_be_paired() {
    let tls = TlsConfig { cert_file: None, key_file: None, ca_file: None };
    let err = tls.validate(&files(unread(), unread(), unread())).expect_err("no cert and key");
    assert!(err.contains("cert_file"), "names the missing field: {err}");
    assert_eq!(
        err,
        "[tls] cert_file/key_file 必须成对配置，缺少: [\"cert_file\", \"key_file\"]"
    );
    let half = TlsConfig { cert_file: path("/c"), key_file: None, ca_file: None };
    let err = half.validate(&files(bytes(b"c"), unread(), unread())).expect_err("no key");
    assert_eq!(err, "[tls] cert_file/key_file 必须成对配置，缺少: [\"key_file\"]");
}

#[test]
fn tls_missing_files_errors() {
    let tls = TlsConfig {
        cert_file: path("/nonexistent/cert.pem"),
        key_file: path("/nonexistent/key.pem"),
        ca_file: None,
    };
    let err = tls.validate(&files(unread(), unread(), unread())).expect_err("missing files");
    assert_eq!(
        err,
        "[tls] cert_file 读取失败（\"/nonexistent/cert.pem\"）: No such file or directory (os error 2)"
    );
}

#[test]
fn tls_client_trust_two_branches() {
    let tls = TlsConfig { cert_file: None, key_file: None, ca_file: None };
    assert!(matches!(tls.client_trust(unread()), Ok(ClientTrust::SkipVerify)));
    let tls = TlsConfig { cert_file: None, key_file: None, ca_file: path("/ca.pem") };
    match tls.client_trust(bytes(b"ca-pem")).expect("trust") {
        ClientTrust::Ca(pem) => assert_eq!(pem, b"ca-pem"),
        ClientTrust::SkipVerify => panic!("a configured CA must be checked against"),
    }
}

#[test]
fn tls_ca_read_fail_no_downgrade() {
    let tls = TlsConfig { cert_file: None, key_file: None, ca_file: path("/nonexistent/ca.pem") };
    let err = tls.client_trust(unread()).expect_err("unreadable CA");
    assert!(err.contains("ca_file"), "names ca_file: {err}");
}

#[test]
fn tls_empty_cert_or_key_errors() {
    let tls = TlsConfig { cert_file: path("/cert.pem"), key_file: path("/key.pem"), ca_file: None };
    let err = tls
        .validate(&files(bytes(b""), bytes(b"non-empty-key"), unread()))
        .expect_err("empty cert");
    assert!(err.contains("cert_file"), "names cert_file: {err}");
    let err = tls.validate(&files(bytes(b"c"), bytes(b""), unread())).expect_err("empty key");
    assert_eq!(err, "[tls] key_file 为空文件（\"/key.pem\"）");
}

#[test]
fn tls_empty_ca_errors() {
    let tls = TlsConfig {
        cert_file: path("/cert.pem"),
        key_file: path("/key.pem"),
        ca_file: path("/ca.pem"),
    };
    let err = tls.validate(&files(bytes(b"c"), bytes(b"k"), bytes(b""))).expect_err("empty ca");
    assert!(err.contains("ca_file"), "names ca_file: {err}");
}

#[test]
fn tls_valid_files_pass() {
    let skip_verify =
        TlsConfig { cert_file: path("/cert.pem"), key_file: path("/key.pem"), ca_file: None };
    assert!(skip_verify.validate(&files(bytes(b"c"), bytes(b"k"), unread())).is_ok());
    let strict = TlsConfig {
        cert_file: path("/cert.pem"),
        key_file: path("/key.pem"),
        ca_file: path("/ca.pem"),
    };
    assert!(strict.validate(&files(bytes(b"c"), bytes(b"k"), bytes(b"ca"))).is_ok());
}

#[test]
fn placement_nodes_empty_rejected() {
    let mut config = valid_config();
    config.placement.nodes = Vec::new();
    let err = check(&config).expect_err("empty placement");
    assert!(err.contains("nodes"), "names nodes: {err}");
}

#[test]
fn placement_rf_zero_rejected() {
    let mut config = valid_config();
    config.placement.replication_factor = 0;
    let err = check(&config).expect_err("no replicas");
    assert!(err.contains("replication_factor"), "names rf: {err}");
}

#[test]
fn placement_holder_count_mismatch_rejected() {
    let mut config = valid_config();
    config.placement.nodes[0].replica.push(6);
    config.placement.nodes[1].replica.push(6);
    config.placement.nodes[2].replica.push(6);
    let err = check(&config).expect_err("three carriers for two replicas");
    assert!(err.contains("shard 6"), "names shard 6: {err}");
}

#[test]
fn placement_carrier_count_is_stated() {
    let mut config = valid_config();
    config.placement.nodes[2].replica.pop();
    assert_eq!(
        check(&config),
        Err("[placement] shard 1 承载节点数 1 != replication_factor 2".to_string())
    );
}

#[test]
fn placement_without_primary_rejected() {
    let mut config = valid_config();
    config.placement.nodes[0].replica.push(6);
    config.placement.nodes[1].replica.push(6);
    let err = check(&config).expect_err("a shard that is primary nowhere");
    assert!(err.contains("shard 6"), "names shard 6: {err}");
}

#[test]
fn placement_primary_overlap_rejected() {
    let mut config = valid_config();
    config.placement.nodes[1].primary.push(0);
    let err = check(&config).expect_err("primary twice");
    assert!(err.contains("primary"), "names primary: {err}");
}

#[test]
fn placement_primary_replica_overlap_rejected() {
    let mut config = valid_config();
    config.placement.nodes[0].replica.push(1);
    let err = check(&config).expect_err("primary and replica on one node");
    assert!(err.contains("primary"), "names primary: {err}");
}

#[test]
fn placement_unknown_node_rejected() {
    let mut config = valid_config();
    config.placement.nodes.push(PlacementNode { id: 99, primary: vec![8], replica: Vec::new() });
    let err = check(&config).expect_err("unknown node");
    assert!(err.contains("peers"), "names peers: {err}");
}

#[test]
fn placement_duplicate_node_id_rejected() {
    let mut config = valid_config();
    config.placement.nodes.push(PlacementNode { id: 1, primary: Vec::new(), replica: Vec::new() });
    let err = check(&config).expect_err("node twice");
    assert!(err.contains("重复"), "says twice: {err}");
}

#[test]
fn memtable_arena_out_of_range_rejected() {
    for bad in [0, 1024 * 1024 - 1, 16 * 1024 * 1024 + 1] {
        let mut config = valid_config();
        config.storage.memtable_arena_bytes = bad;
        let err = check(&config).expect_err("arena out of range");
        assert!(err.contains("memtable_arena_bytes"), "names the field: {err}");
    }
}

#[test]
fn valid_placement_passes() {
    assert!(check(&valid_config()).is_ok());
}

#[test]
fn local_shards_primary_union_replica() {
    let config = valid_config();
    assert_eq!(config.local_shards(), vec![0, 1, 2, 3]);
    let mut node2 = config.clone();
    node2.node.id = 2;
    assert_eq!(node2.local_shards(), vec![2, 3, 4, 5]);
    let mut node3 = config.clone();
    node3.node.id = 3;
    assert_eq!(node3.local_shards(), vec![0, 1, 4, 5]);
}

#[test]
fn shard_members_consistent_across_nodes() {
    let config = valid_config();
    assert_eq!(config.shard_members(0), vec![1, 3]);
    assert_eq!(config.shard_members(5), vec![2, 3]);
    assert!(config.shard_members(9).is_empty());
}

#[test]
fn shard_count_from_placement() {
    let config = valid_config();
    assert_eq!(config.shard_count(), 6);
}

#[test]
fn local_shards_unknown_node_empty() {
    let config = valid_config();
    let mut cfg = config.clone();
    cfg.node.id = 42;
    assert!(cfg.local_shards().is_empty());
}

#[test]
fn snapshot_keep_zero_rejected() {
    let config = Config {
        snapshot: SnapshotSection { keep: 0, ..Default::default() },
        ..Default::default()
    };
    let err = check(&config).expect_err("keep=0");
    assert!(err.contains("keep"), "names keep: {err}");
}

#[test]
fn limits_event_zero_rejected() {
    let config = Config {
        limits: LimitsSection { max_event_bytes: 0, ..Default::default() },
        ..Default::default()
    };
    let err = check(&config).expect_err("max_event_bytes=0");
    assert!(err.contains("max_event_bytes"), "names max_event_bytes: {err}");
}

#[test]
fn limits_batch_over_cap_rejected() {
    let config = Config {
        limits: LimitsSection {
            max_append_batch_bytes: MAX_APPEND_BATCH_BYTES + 1,
            ..Default::default()
        },
        ..Default::default()
    };
    let err = check(&config).expect_err("over the cap");
    assert!(err.contains("max_append_batch_bytes"), "names max_append_batch_bytes: {err}");
}

#[test]
fn limits_batch_zero_rejected() {
    let config = Config {
        limits: LimitsSection { max_append_batch_bytes: 0, ..Default::default() },
        ..Default::default()
    };
    let err = check(&config).expect_err("batch=0");
    assert!(err.contains("max_append_batch_bytes"), "names max_append_batch_bytes: {err}");
}

#[test]
fn limits_event_greater_than_batch_rejected() {
    let config = Config {
        limits: LimitsSection { max_event_bytes: 4096, max_append_batch_bytes: 2048 },
        ..Default::default()
    };
    let err = check(&config).expect_err("event beyond batch");
    assert!(err.contains("max_event_bytes"), "names max_event_bytes: {err}");
}

#[test]
fn limits_valid_passes() {
    let config = Config {
        limits: LimitsSection { max_event_bytes: 1024, max_append_batch_bytes: 4096 },
        ..Default::default()
    };
    assert!(check(&config).is_ok());
}

#[test]
fn snapshot_chunk_over_cap_rejected() {
    let config = Config {
        snapshot: SnapshotSection {
            max_chunk_size: MAX_SNAPSHOT_CHUNK_BYTES + 1,
            ..Default::default()
        },
        ..Default::default()
    };
    let err = check(&config).expect_err("chunk over the cap");
    assert!(err.contains("max_chunk_size"), "names max_chunk_size: {err}");
}

#[test]
fn snapshot_chunk_zero_rejected() {
    let config = Config {
        snapshot: SnapshotSection { max_chunk_size: 0, ..Default::default() },
        ..Default::default()
    };
    let err = check(&config).expect_err("chunk=0");
    assert!(err.contains("max_chunk_size"), "names max_chunk_size: {err}");
}

#[test]
fn snapshot_chunk_default_passes() {
    let config = Config {
        snapshot: SnapshotSection { max_chunk_size: 3 * 1024 * 1024, ..Default::default() },
        ..Default::default()
    };
    assert!(check(&config).is_ok());
}

#[test]
fn internal_listen_addr_must_be_distinct_and_valid() {
    let mut config = valid_config();
    config.node.internal_listen_addr = Some(config.node.listen_addr.clone());
    let err = check(&config).expect_err("the public address again");
    assert!(err.contains("internal_listen_addr"), "names the field: {err}");

    config.node.internal_listen_addr = Some("not-an-address".into());
    let told = Probes {
        internal_listen: Some("invalid socket address syntax".to_string()),
        tls_files: files(unread(), unread(), unread()),
    };
    let err = config.validate(&told).expect_err("no address");
    assert!(err.contains("internal_listen_addr"), "names the field: {err}");
}

#[test]
fn internal_addr_of_a_peer_must_be_an_address() {
    let mut config = valid_config();
    config.node.peers[1].internal_addr = Some("127.0.0.1:51052".to_string());
    assert!(check(&config).is_ok());
    config.node.peers[1].internal_addr = Some("http://[::1".to_string());
    let err = check(&config).expect_err("no address");
    assert!(err.contains("节点 2"), "names the peer: {err}");
}

#[test]
fn config_validation_rejects_invalid_runtime_configuration() {
    let base = Config {
        node: NodeConfig {
            id: 1,
            listen_addr: "127.0.0.1:0".to_string(),
            internal_listen_addr: None,
            peers: vec![],
        },
        storage: StorageConfig {
            data_dir: "/tmp/es-data".to_string(),
            memtable_arena_bytes: 4 * 1024 * 1024,
        },
        placement: PlacementConfig {
            replication_factor: 1,
            nodes: vec![PlacementNode { id: 1, primary: vec![0], replica: vec![] }],
        },
        snapshot: Default::default(),
        tls: None,
        limits: Default::default(),
    };
    assert!(check(&base).is_ok());

    let mut empty_placement = base.clone();
    empty_placement.placement.nodes.clear();
    assert!(check(&empty_placement).is_err());

    let mut zero_replication = base.clone();
    zero_replication.placement.replication_factor = 0;
    assert!(check(&zero_replication).is_err());

    let mut zero_snapshot_retention = base;
    zero_snapshot_retention.snapshot.keep = 0;
    assert!(check(&zero_snapshot_retention).is_err());
}

#[test]
fn apply_overrides_some_and_none() {
    let base = Config::default();
    let over = base.clone().apply_overrides(Some(9), Some("127.0.0.1:8888".into()));
    assert_eq!(over.node.id, 9);
    assert_eq!(over.node.listen_addr, "127.0.0.1:8888");
    let kept = base.clone().apply_overrides(None, None);
    assert_eq!(kept.node.id, base.node.id);
    assert_eq!(kept.node.listen_addr, base.node.listen_addr);
    let partial = base.clone().apply_overrides(Some(7), None);
    assert_eq!(partial.node.id, 7);
    assert_eq!(partial.node.listen_addr, base.node.listen_addr);
}

#[test]
fn defaults_are_those_of_a_single_node() {
    let config = Config::default();
    assert_eq!(config.node.listen_addr, "127.0.0.1:50051");
    assert_eq!(config.placement.replication_factor, 1);
    assert_eq!(config.snapshot.compression, Compression::Zstd);
    assert_eq!(config.snapshot.keep, 3);
    assert_eq!(config.limits.max_event_bytes, 1024 * 1024);
    assert_eq!(config.limits.max_append_batch_bytes, 7 * 1024 * 1024);
    assert!(check(&config).is_ok());
    assert_eq!(PlacementConfig::default().replication_factor, 1);
    assert!(PlacementConfig::default().nodes.is_empty());
}

fn config_with_peers(peers: Vec<(u64, &str)>) -> Config {
    let mut config = Config::default();
    config.node.peers = peers.into_iter().map(|(id, addr)| peer(id, addr)).collect();
    config
}

#[test]
fn peers_empty_disabled() {
    let cfg = config_with_peers(vec![]);
    assert!(matches!(decide_mode(&cfg), Ok(BootstrapMode::Disabled)));
}

#[test]
fn duplicate_peer_id_rejected() {
    let cfg = config_with_peers(vec![(1, "127.0.0.1:50051"), (1, "127.0.0.1:50052")]);
    let err = decide_mode(&cfg).expect_err("id twice");
    assert!(err.contains("重复"), "says twice: {err}");
}

#[test]
fn invalid_addr_rejected() {
    let cfg = config_with_peers(vec![(1, "")]);
    assert!(decide_mode(&cfg).is_err(), "an empty address");
}

#[test]
fn self_not_in_peers_wait_only() {
    let cfg = config_with_peers(vec![(2, "127.0.0.1:50052")]);
    assert!(matches!(decide_mode(&cfg), Ok(BootstrapMode::WaitOnly)));
}

#[test]
fn self_in_peers_bootstrap_with_normalized_addr() {
    let cfg = config_with_peers(vec![(1, "127.0.0.1:50051"), (2, "http://127.0.0.1:50052")]);
    match decide_mode(&cfg) {
        Ok(BootstrapMode::Bootstrap(members)) => {
            assert_eq!(members.entries.len(), 2);
            assert_eq!(members.get(1).unwrap(), "http://127.0.0.1:50051");
            assert_eq!(members.get(2).unwrap(), "http://127.0.0.1:50052");
            assert!(!unchecked_tls(&members, false));
        }
        other => panic!("should form the cluster: {other:?}"),
    }
}

#[test]
fn normalizing_twice_changes_nothing() {
    for addr in ["127.0.0.1:1", "http://h:1", "https://h:1"] {
        let once = normalize_endpoint(addr);
        assert_eq!(normalize_endpoint(&once), once);
    }
    assert_eq!(normalize_endpoint("h:1"), "http://h:1");
}

#[test]
fn the_host_of_an_address_has_no_scheme() {
    assert_eq!(host_of("10.0.0.1:50051"), "10.0.0.1:50051");
    assert_eq!(host_of("http://10.0.0.1:50051"), "10.0.0.1:50051");
    assert_eq!(host_of("https://10.0.0.1:50051"), "10.0.0.1:50051");
}

#[test]
fn unchecked_tls_needs_https_and_no_policy() {
    let cfg = config_with_peers(vec![(1, "https://127.0.0.1:1")]);
    match decide_mode(&cfg) {
        Ok(BootstrapMode::Bootstrap(members)) => {
            assert!(unchecked_tls(&members, false));
            assert!(!unchecked_tls(&members, true));
        }
        other => panic!("should form the cluster: {other:?}"),
    }
}

fn state(has_log: bool, index: u64, voters: &[u64]) -> Option<RaftState> {
    Some(RaftState {
        has_last_log_index: has_log,
        last_log_index: index,
        voter_ids: voters.to_vec(),
    })
}

fn ask(step: ProbeStep, peer_asked: u64) -> Probe {
    match step {
        ProbeStep::Ask { probe, peer } => {
            assert_eq!(peer, peer_asked);
            probe
        }
        other => panic!("should ask {peer_asked}: {other:?}"),
    }
}

#[test]
fn probe_finds_a_cluster_at_the_first_peer_that_has_one() {
    let p = ask(Probe::begin(&vec![1, 2, 3], 1), 2);
    let p = ask(p.on_answer(state(false, 0, &[])), 3);
    match p.on_answer(state(true, 5, &[1, 2, 3])) {
        ProbeStep::Done(ProbeOutcome::ClusterExists { at, voters }) => {
            assert_eq!(at, 3);
            assert_eq!(voters, vec![1, 2, 3]);
        }
        other => panic!("should find the cluster: {other:?}"),
    }
}

#[test]
fn probe_without_a_cluster_lets_the_node_begin() {
    let p = ask(Probe::begin(&vec![1, 2], 1), 2);
    let outcome = match p.on_answer(state(false, 0, &[])) {
        ProbeStep::Done(outcome) => outcome,
        other => panic!("should be done: {other:?}"),
    };
    assert!(matches!(outcome, ProbeOutcome::NoCluster));
    assert!(matches!(after_probe(&outcome, &vec![1, 2]), ShardPlan::Initialize));
}

#[test]
fn shards_are_looked_at_twice() {
    assert!(matches!(first_look(None), ShardPlan::Leave));
    assert!(matches!(first_look(Some(true)), ShardPlan::Leave));
    assert!(matches!(first_look(Some(false)), ShardPlan::Delay));
    assert!(matches!(second_look(Some(true)), ShardPlan::Leave));
    assert!(matches!(second_look(Some(false)), ShardPlan::Probe));
    assert!(same_ids(&vec![2, 1], &vec![1, 2]));
    assert!(!same_ids(&vec![1, 2, 3], &vec![1, 2]));
}

#[test]
fn initialization_ends_with_an_answer() {
    assert!(matches!(
        on_init_answer(0, InitAnswer::Done),
        InitStep::Formed { by_this_node: true }
    ));
    assert!(matches!(
        on_init_answer(0, InitAnswer::NotAllowed),
        InitStep::Formed { by_this_node: false }
    ));
    assert!(matches!(on_init_answer(0, InitAnswer::NotInMembers), InitStep::Excluded));
    assert!(matches!(on_init_answer(0, InitAnswer::Failed), InitStep::Retry { failed: 1 }));
}

#[test]
fn formation_delays_are_bounded() {
    assert_eq!(delay_from(0), 0);
    assert_eq!(delay_from(2000), 2000);
    assert_eq!(delay_from(2001), 0);
    assert_eq!(delay_from(4005), 3);
    let drawn: Vec<u64> = (0..32).map(|_| formation_delay_ms()).collect();
    assert!(drawn.iter().all(|ms| *ms <= 2000));
    assert!(drawn.iter().any(|ms| *ms != drawn[0]), "thirty-two equal draws: {drawn:?}");
}

#[test]
fn a_shard_has_a_directory_of_its_own() {
    let mut config = Config::default();
    config.storage.data_dir = "/var/es".to_string();
    let setup = shard_setup(&config, 7, unread()).expect("setup");
    assert_eq!(setup.shard_dir, "/var/es/shard-7");
    assert_eq!(setup.snapshot_dir, "/var/es/snapshots");
    assert_eq!(setup.cluster_name, "eventstore-shard-7");
    assert_eq!(setup.raft.heartbeat_interval, 300);
    assert_eq!(setup.raft.snapshot_max_chunk_size, 3 * 1024 * 1024);
    assert!(setup.client_tls.is_none());
    config.snapshot.dir = Some("/snap".to_string());
    assert_eq!(snapshot_dir(&config), "/snap");
    config.tls = Some(TlsConfig { cert_file: None, key_file: None, ca_file: path("/ca.pem") });
    let err = shard_setup(&config, 7, unread()).expect_err("unreadable CA");
    assert!(err.contains("ca_file"), "{err}");
}

#[test]
fn a_leader_must_be_electable() {
    let settings = |heartbeat_interval: u64, min: u64, max: u64| RaftSettings {
        heartbeat_interval,
        election_timeout_min: min,
        election_timeout_max: max,
        snapshot_after_logs: 10,
        logs_to_keep: 5,
        snapshot_max_chunk_size: 1,
    };
    assert!(check_raft("c", &settings(300, 600, 900)).is_ok());
    assert_eq!(
        check_raft("c", &settings(300, 900, 900)),
        Err("election timeout: min(900) must be < max(900)".to_string())
    );
    assert_eq!(
        check_raft("c", &settings(600, 600, 900)),
        Err("election_timeout_min(600) must be > heartbeat_interval(600)".to_string())
    );
}

#[test]
fn a_server_needs_a_valid_configuration() {
    let server = Server::new(Config::default(), &probes(), unread()).expect("server");
    assert_eq!(server.config().node.id, 1);
    assert_eq!(server.aggregate_store_service().topology.current.all_shards, vec![0]);
    assert_eq!(server.aggregate_store_service().max_event_bytes, 1024 * 1024);
    let mut bad = Config::default();
    bad.placement.nodes.clear();
    assert!(Server::new(bad, &probes(), unread()).is_err());
}

#[test]
fn the_name_of_a_file_tells_its_format() {
    assert_eq!(config_format("a/config.json"), ConfigFormat::Json);
    assert_eq!(config_format("config.toml"), ConfigFormat::Toml);
    assert_eq!(config_format("json"), ConfigFormat::Toml);
}
