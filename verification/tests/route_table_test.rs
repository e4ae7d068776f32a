//! The route table: who holds a stream, and which table wins.

use es_server::config::{
    Config, FileRead, NodeConfig, PeerConfig, PlacementConfig, PlacementNode, StorageConfig,
};
use es_server::maps::IdMap;
use es_server::route_table::{
    RouteTable, RouteTableManager, TableFile, load_local, path_below, proto_to_table, routes_path,
    table_to_proto,
};

fn test_config() -> Config {
    Config {
        node: NodeConfig {
            id: 1,
            listen_addr: "127.0.0.1:0".into(),
            internal_listen_addr: None,
            peers: Vec::new(),
        },
        storage: StorageConfig {
            data_dir: "/data".to_string(),
            memtable_arena_bytes: 4 * 1024 * 1024,
        },
        placement: PlacementConfig {
            replication_factor: 1,
            nodes: vec![PlacementNode { id: 1, primary: vec![0, 1, 2], replica: vec![] }],
        },
        snapshot: Default::default(),
        tls: None,
        limits: Default::default(),
    }
}

fn manager_of(config: &Config) -> RouteTableManager {
    let path = routes_path(&config.storage.data_dir);
    RouteTableManager::new(config, path, FileRead::Failed("missing".to_string())).expect("manager")
}

fn manager() -> RouteTableManager {
    manager_of(&test_config())
}

fn counts(t: &RouteTable) -> Vec<(u64, u64)> {
    let m: &IdMap<u64> = &t.shard_stream_counts;
    m.entries.clone()
}

#[test]
fn allocate_persists_and_roundtrips() {
    let mut mgr = manager();
    let (shard, inserted) = mgr.allocate("s1").expect("allocate");
    assert!(inserted);
    assert_eq!(shard, 0, "an empty table gives the least shard");

    let mut mgr2 = manager();
    mgr2.load(Ok(Some(mgr.snapshot())), Vec::new()).expect("load");
    assert_eq!(mgr2.lookup("s1"), Some(0));

    let (_, inserted2) = mgr.allocate("s2").expect("allocate");
    assert!(inserted2);
    let t = mgr.snapshot();
    assert_eq!(t.version, 2);
    assert_eq!(counts(&t), [(0, 1), (1, 1)]);
}

#[test]
fn allocate_existing_returns_without_bump() {
    let mut mgr = manager();
    mgr.allocate("s1").expect("allocate");
    let v1 = mgr.snapshot().version;
    let (shard, inserted) = mgr.allocate("s1").expect("again");
    assert!(!inserted, "a known stream is not inserted");
    assert_eq!(shard, 0);
    assert_eq!(mgr.snapshot().version, v1);
}

#[test]
fn allocate_least_loaded() {
    let mut mgr = manager();
    for name in ["a", "b", "c", "d", "e", "f", "g"] {
        mgr.allocate(name).expect("allocate");
    }
    let (shard, _) = mgr.allocate("h").expect("h");
    assert_eq!(shard, 1);
}

#[test]
fn set_stream_shard_switches_atomically() {
    let mut mgr = manager();
    mgr.allocate("s").expect("allocate");
    mgr.set_stream_shard("s", 2);
    let t = mgr.snapshot();
    assert_eq!(t.lookup("s"), Some(2));
    assert_eq!(t.shard_stream_counts.get(0), Some(&0));
    assert_eq!(t.shard_stream_counts.get(2), Some(&1));
    let v = t.version;
    mgr.set_stream_shard("s", 2);
    assert_eq!(mgr.snapshot().version, v);
}

#[test]
fn set_stream_shard_repairs_unassigned_stream_and_persists() {
    let mut mgr = manager();
    let table = mgr.set_stream_shard("orphan-stream", 2);
    assert_eq!(table.lookup("orphan-stream"), Some(2));
    assert_eq!(table.shard_stream_counts.get(2), Some(&1));

    let mut recovered = manager();
    recovered.load(Ok(Some(table)), Vec::new()).expect("load");
    assert_eq!(recovered.lookup("orphan-stream"), Some(2));
}

#[test]
fn apply_remote_version_arbitration() {
    let mut mgr = manager();
    let mut remote = RouteTable::new();
    remote.insert("x".to_string(), 1);
    remote.version = 5;
    assert!(mgr.wants(&remote));
    mgr.apply_remote(remote, Ok(())).expect("apply");
    assert_eq!(mgr.lookup("x"), Some(1));

    let mut stale = RouteTable::new();
    stale.insert("y".to_string(), 0);
    stale.version = 3;
    assert!(!mgr.wants(&stale));
    mgr.apply_remote(stale, Ok(())).expect("an older table is no error");
    assert_eq!(mgr.lookup("y"), None, "an older table does not win");
}

#[test]
fn reload_picks_up_external_file_change() {
    let mut mgr = manager();
    let mut t = RouteTable::new();
    t.insert("manual".to_string(), 1);
    assert!(mgr.reload(load_local(TableFile::Table(t))));
    assert_eq!(mgr.lookup("manual"), Some(1));
    let mut stale = RouteTable::new();
    stale.insert("other".to_string(), 2);
    assert!(!mgr.reload(load_local(TableFile::Table(stale))));
    assert_eq!(mgr.lookup("other"), None);
}

#[test]
fn reload_missing_file_keeps_memory_state() {
    let mut mgr = manager();
    mgr.allocate("stable-stream").expect("allocate");
    mgr.reload(load_local(TableFile::Missing));
    assert_eq!(mgr.lookup("stable-stream"), Some(0));
}

#[test]
fn reload_io_failure_keeps_memory_state() {
    let mut mgr = manager();
    mgr.allocate("stable-stream").expect("allocate");
    mgr.reload(load_local(TableFile::Unreadable("is a directory".to_string())));
    assert_eq!(mgr.lookup("stable-stream"), Some(0));
}

#[test]
fn corrupted_file_keeps_memory_state() {
    let mut mgr = manager();
    mgr.allocate("s").expect("allocate");
    let file = load_local(TableFile::Corrupt("expected ident".to_string()));
    assert!(file.is_err());
    mgr.reload(file);
    assert_eq!(mgr.lookup("s"), Some(0));
}

#[test]
fn recount_rebuilds_counts() {
    let mut mgr = manager();
    mgr.allocate("a").expect("a");
    mgr.allocate("b").expect("b");
    mgr.allocate("c").expect("c");
    mgr.mem.shard_stream_counts.insert(0, 9);
    let v = mgr.snapshot().version;
    mgr.recount();
    assert_eq!(counts(&mgr.snapshot()), [(0, 1), (1, 1), (2, 1)]);
    assert_eq!(mgr.snapshot().version, v, "the version stays");
}

#[test]
fn ensure_file_creates_empty_table_idempotently() {
    let mut mgr = manager();
    let first = mgr.ensure_file(false).expect("an empty table is written");
    assert_eq!(first.version, 0);
    assert!(first.streams.entries.is_empty());
    mgr.allocate("s").expect("allocate");
    assert!(mgr.ensure_file(true).is_none(), "a file that is there stays");
    let mut mgr2 = manager();
    mgr2.load(Ok(Some(mgr.snapshot())), Vec::new()).expect("load");
    assert_eq!(mgr2.lookup("s"), Some(0));
}

#[test]
fn allocation_survives_invalid_peer_endpoint() {
    let mut config = test_config();
    config.node.peers.push(PeerConfig { id: 2, addr: "http://[::1".into(), internal_addr: None });
    let mut mgr = manager_of(&config);
    let (shard, inserted) = mgr.allocate("local-durable").expect("allocate");
    assert!(inserted);
    assert_eq!(shard, 0);
    let mut recovered = manager();
    recovered.load(Ok(Some(mgr.snapshot())), Vec::new()).expect("load");
    assert_eq!(recovered.lookup("local-durable"), Some(0));
}

#[test]
fn the_newer_of_two_tables_is_loaded() {
    let table = |stream: &str, version: u64| {
        let mut t = RouteTable::new();
        t.insert(stream.to_string(), 1);
        t.version = version;
        t
    };
    let mut mgr = manager();
    let remotes = || vec![table("old", 2), table("remote", 6), table("late", 5), table("tie", 6)];
    mgr.load(Ok(Some(table("local", 4))), remotes()).expect("load");
    assert_eq!(mgr.lookup("remote"), Some(1));
    assert_eq!(mgr.lookup("local"), None);
    let mut mgr = manager();
    mgr.load(Ok(Some(table("local", 6))), remotes()).expect("load");
    assert_eq!(mgr.lookup("local"), Some(1));
    let mut mgr = manager();
    mgr.load(Ok(None), remotes()).expect("load");
    assert_eq!(mgr.lookup("remote"), Some(1));
    let broken = load_local(TableFile::Corrupt("eof".to_string()));
    assert_eq!(mgr.load(broken, vec![table("newer", 9)]).expect_err("broken"), "路由表损坏: eof");
    assert_eq!(mgr.lookup("remote"), Some(1));
    let mut mgr = manager();
    mgr.load(Ok(None), Vec::new()).expect("load");
    assert_eq!(mgr.snapshot().version, 0);
}

#[test]
fn a_table_that_cannot_be_written_is_not_taken_over() {
    let mut mgr = manager();
    mgr.allocate("kept").expect("allocate");
    let mut remote = RouteTable::new();
    remote.insert("x".to_string(), 1);
    remote.version = 5;
    let full = || Err("disk full".to_string());
    assert_eq!(mgr.apply_remote(remote, full()).expect_err("not written"), "disk full");
    assert_eq!(mgr.lookup("x"), None);
    assert_eq!(mgr.lookup("kept"), Some(0));
    mgr.apply_remote(RouteTable::new(), full()).expect("an old table is not written");
}

#[test]
fn nodes_that_exchange_tables_agree() {
    let mut a = manager();
    let mut b = manager();
    a.allocate("x").expect("x");
    a.allocate("y").expect("y");
    b.allocate("z").expect("z");
    let (ta, tb) = (a.snapshot(), b.snapshot());
    a.apply_remote(tb, Ok(())).expect("apply");
    b.apply_remote(ta, Ok(())).expect("apply");
    assert!(a.snapshot().same(&b.snapshot()));
    assert_eq!(b.lookup("y"), Some(1));
}

#[test]
fn a_table_survives_the_wire() {
    let mut mgr = manager();
    mgr.allocate("x").expect("x");
    mgr.allocate("y").expect("y");
    let back = proto_to_table(Some(table_to_proto(&mgr.snapshot())));
    assert_eq!(back.version, 2);
    assert_eq!(back.lookup("x"), Some(0));
    assert_eq!(back.lookup("y"), Some(1));
    assert_eq!(counts(&back), [(0, 1), (1, 1)]);
    assert_eq!(proto_to_table(None).version, 0);
}

#[test]
fn the_table_lies_below_the_data_directory() {
    assert_eq!(routes_path("/data"), "/data/routes.json");
    assert_eq!(routes_path("/data/"), "/data/routes.json");
    assert_eq!(path_below("", "x"), "x");
}

#[test]
fn a_node_does_not_tell_itself() {
    let mut config = test_config();
    for id in [1, 2, 3] {
        config.node.peers.push(PeerConfig { id, addr: format!("h:{id}"), internal_addr: None });
    }
    let others: Vec<u64> = manager_of(&config).other_peers().into_iter().map(|p| p.0).collect();
    assert_eq!(others, [2, 3]);
}

#[test]
fn shards_in_use_can_change() {
    let mut mgr = manager();
    mgr.set_shard_set(vec![7]);
    assert_eq!(mgr.allocate("s").expect("allocate").0, 7);
    mgr.set_shard_set(Vec::new());
    assert!(mgr.allocate("t").is_err());
}
