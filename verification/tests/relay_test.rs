//! Asking one node after the other, and answers between nodes.

use es_server::attempts::{Asked, Attempt, AttemptStep, LocalAnswer};
use es_server::config::{Config, FileRead, PeerConfig};
use es_server::maps::IdMap;
use es_server::migration_service::{
    admit_push, commit_command, commit_payload, commit_published, push_reply, recount_reply,
    set_stream_shard_reply,
};
use es_server::ownership::{
    AppendStage, AppendTarget, ChangeReceipt, Committed, OwnershipApply, OwnershipError,
    OwnershipOutcome, Purpose, StreamOwnership,
};
use es_server::route_table::{RouteTable, RouteTableManager, table_to_proto};
use es_server::rpc_support::{RemoteShards, SearchStep, WriteError};
use es_server::status::Code;

fn unread() -> FileRead {
    FileRead::Failed("missing".to_string())
}

fn peers() -> IdMap<String> {
    let mut map: IdMap<String> = IdMap::new();
    for id in [3, 1, 2] {
        map.insert(id, format!("http://n{id}"));
    }
    map
}

fn down(text: &str) -> OwnershipError {
    OwnershipError::Unavailable(text.to_string())
}

/// Runs an attempt in which only the named address succeeds, and tells whom it asked.
fn run(
    asked: Asked,
    local: LocalAnswer<u64>,
    good: &str,
) -> (Vec<String>, Result<u64, OwnershipError>) {
    let mut asked_at: Vec<String> = Vec::new();
    let mut step = Attempt::begin(asked, local, &peers());
    loop {
        step = match step {
            AttemptStep::Done(r) => return (asked_at, r),
            AttemptStep::Try(a) => {
                let addr = a.address().to_string();
                let answer = if addr == good { Ok(7) } else { Err(down(&addr)) };
                asked_at.push(addr);
                a.on_answer(answer)
            }
        };
    }
}

#[test]
fn the_local_shard_is_asked_first_and_ends_the_call() {
    let (asked, r) = run(Asked::Commit, LocalAnswer::Answered(Ok(4)), "http://n1");
    assert!(asked.is_empty());
    assert_eq!(r.expect("local"), 4);
    let odd = LocalAnswer::Answered(Err(OwnershipError::Internal("odd".to_string())));
    let (asked, r) = run(Asked::Commit, odd, "http://n1");
    assert!(asked.is_empty());
    assert!(matches!(r, Err(OwnershipError::Internal(_))));
}

#[test]
fn the_leader_is_asked_before_all_peers_in_turn() {
    let forward = |leader: Option<u64>| LocalAnswer::Refused {
        error: WriteError::ForwardToLeader { leader_id: leader, leader_addr: None },
        shown: "forward".to_string(),
    };
    let (asked, r) = run(Asked::Commit, forward(Some(3)), "http://n2");
    assert_eq!(asked, ["http://n3", "http://n1", "http://n2"]);
    assert_eq!(r.expect("second peer"), 7);
    let (asked, _) = run(Asked::Commit, forward(Some(9)), "http://n1");
    assert_eq!(asked, ["http://n1"]);
    let (asked, r) = run(Asked::Commit, LocalAnswer::NotHere, "nobody");
    assert_eq!(asked, ["http://n1", "http://n2", "http://n3"]);
    match r {
        Err(OwnershipError::Unavailable(m)) => {
            assert_eq!(m, "归属权威暂时不可用: http://n3", "the last error is kept")
        }
        other => panic!("should fail: {other:?}"),
    }
}

#[test]
fn an_attempt_without_anyone_to_ask_says_so() {
    let alone: IdMap<String> = IdMap::new();
    let begin = |asked: Asked, local: LocalAnswer<u64>| match Attempt::begin(asked, local, &alone) {
        AttemptStep::Done(Err(OwnershipError::Unavailable(m))) => m,
        other => panic!("should fail: {other:?}"),
    };
    assert_eq!(begin(Asked::Commit, LocalAnswer::NotHere), "找不到控制 Shard leader");
    let fence = Asked::Fence { shard_id: 6 };
    assert_eq!(begin(fence, LocalAnswer::NotHere), "找不到 Shard 6 leader");
    let refused = LocalAnswer::Refused {
        error: WriteError::Fatal("stopped".to_string()),
        shown: "raft stopped".to_string(),
    };
    assert_eq!(begin(fence, refused), "raft stopped");
}

#[test]
fn the_first_node_that_leads_is_the_leader() {
    let mut config = Config::default();
    for id in [4, 2, 3] {
        config.node.peers.push(PeerConfig {
            id,
            addr: format!("h{id}:1"),
            internal_addr: None,
        });
    }
    let remote = RemoteShards::new(&config, unread()).expect("remote shards");
    let search = |leading: &[u64]| {
        let mut asked: Vec<u64> = Vec::new();
        let mut step = remote.find_leader();
        loop {
            step = match step {
                SearchStep::Done(found) => return (asked, found),
                SearchStep::Ask(s) => {
                    let id = s.node();
                    asked.push(id);
                    let leads = if id == 2 { None } else { Some(leading.contains(&id)) };
                    remote.on_node_answer(s, leads)
                }
            };
        }
    };
    let (asked, found) = search(&[3, 4]);
    assert_eq!(asked, [2, 3]);
    assert_eq!(found.expect("leader"), (3, "http://h3:1".to_string()));
    let (asked, found) = search(&[]);
    assert_eq!(asked, [2, 3, 4]);
    assert!(found.is_none());
}

#[test]
fn replies_between_nodes_say_what_failed() {
    let mut table = RouteTable::new();
    table.insert("s".to_string(), 2);
    let missing = admit_push(None).expect_err("no table");
    assert_eq!((missing.code(), missing.message()), (Code::InvalidArgument, "table 不能为空"));
    assert_eq!(admit_push(Some(table_to_proto(&table))).expect("table").version, 1);
    let receipt = || ChangeReceipt { revision: 1, owner: None, changed: true };
    assert!(push_reply(Ok(receipt())).is_ok());
    assert_eq!(push_reply(Err(down("x"))).expect_err("down").code(), Code::Unavailable);
    let moved = set_stream_shard_reply(Ok(receipt()), &table).expect("moved");
    assert_eq!(moved.streams, [("s".to_string(), 2)]);
    let lost = set_stream_shard_reply(Err(OwnershipError::Conflict(None)), &table);
    assert_eq!(lost.expect_err("conflict").code(), Code::Aborted);

    let failed = || Err("disk".to_string());
    assert_eq!(recount_reply(&table, Ok(())).expect("table").shard_stream_counts, [(2, 1)]);
    let recount = recount_reply(&table, failed()).expect_err("disk");
    assert_eq!((recount.code(), recount.message()), (Code::Internal, "recount 失败: disk"));
    assert_eq!(commit_command(Ok(5)).expect("command"), 5);
    let bad = commit_command::<u8>(Err("eof".to_string())).expect_err("eof");
    assert_eq!((bad.code(), bad.message()), (Code::InvalidArgument, "归属命令解码失败: eof"));
    let applied = || OwnershipApply {
        outcome: OwnershipOutcome::Snapshot,
        shown: String::new(),
        table: RouteTable::new(),
    };
    assert!(commit_published(applied(), Ok(())).is_ok());
    let unpublished = commit_published(applied(), failed()).expect_err("disk");
    assert_eq!(unpublished.message(), "发布归属投影失败: disk");
    assert_eq!(commit_payload(Ok(vec![1])).expect("bytes"), [1]);
    let unwritten = commit_payload(Err("limit".to_string())).expect_err("limit");
    assert_eq!((unwritten.code(), unwritten.message()), (Code::Internal, "归属结果编码失败: limit"));
}

#[test]
fn calls_that_take_turns_create_and_fence_once() {
    let table = RouteTableManager::new(&Config::default(), "routes.json".to_string(), unread())
        .expect("table");
    let mut node = StreamOwnership::new(table, vec![0, 1], 0);
    let mut control = RouteTable::new();
    let mut installs: Vec<(u64, u64)> = Vec::new();
    let stream = "orders/42";
    // All calls begin before any goes on, and they go on in turn.
    let mut calls: Vec<AppendStage> = (0..32).map(|_| node.for_append(stream)).collect();
    loop {
        let mut moved = false;
        let mut next: Vec<AppendStage> = Vec::new();
        for stage in calls {
            let committed = |outcome: OwnershipOutcome, table: RouteTable| Committed {
                applied: Ok(OwnershipApply { outcome, shown: String::new(), table }),
                persisted: Ok(()),
            };
            moved = moved || !matches!(stage, AppendStage::Done(_));
            next.push(match stage {
                AppendStage::Bootstrap => {
                    let answer = committed(OwnershipOutcome::Snapshot, control.copy());
                    node.on_bootstrapped(stream, answer)
                }
                AppendStage::Ensure { last } => {
                    let created = control.lookup(stream).is_none();
                    if created {
                        control.insert(stream.to_string(), 1);
                    }
                    let owner = control.lookup_owner(stream).expect("owner");
                    let answer = committed(OwnershipOutcome::Owner { owner, created }, control.copy());
                    node.on_ensured(stream, Purpose::Append, last, answer)
                }
                AppendStage::Fence { owner, created, last } => {
                    match node.confirm(stream, owner, created, last) {
                        AppendStage::Fence { .. } => {
                            installs.push((owner.shard_id, owner.generation));
                            let target = AppendTarget { owner, created_now: created };
                            let seen = Ok(owner.generation);
                            node.on_fenced(stream, Purpose::Append, target, last, seen)
                        }
                        confirmed => confirmed,
                    }
                }
                done => done,
            });
        }
        calls = next;
        if !moved {
            break;
        }
    }
    let targets: Vec<AppendTarget> = calls
        .into_iter()
        .map(|stage| match stage {
            AppendStage::Done(Ok(target)) => target,
            other => panic!("should be done: {other:?}"),
        })
        .collect();
    assert_eq!(targets.len(), 32);
    assert!(targets.iter().all(|t| t.owner() == targets[0].owner()));
    assert_eq!(targets.iter().filter(|t| t.created_now()).count(), 1);
    assert_eq!(installs.len(), 1);
}
