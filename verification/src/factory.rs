//! What a shard is made of.

use vstd::prelude::*;

use crate::config::{ClientTrust, Compression, Config, FileRead};
use crate::route_table::{below_dir, path_below};
use crate::rpc_support::trust_of;
use crate::text::{decimal, decimal_text, join2};

verus! {

/// How a shard's group of nodes works together; times in milliseconds.
#[derive(Clone, Copy, Debug, PartialEq, Eq, Structural)]
pub struct RaftSettings {
    pub heartbeat_interval: u64,
    pub election_timeout_min: u64,
    pub election_timeout_max: u64,
    /// A snapshot is taken after so many entries of the log.
    pub snapshot_after_logs: u64,
    /// So many entries are kept behind a snapshot.
    pub logs_to_keep: u64,
    pub snapshot_max_chunk_size: u64,
}

/// The settings let a leader be elected: a node stands for election after more than a
/// heartbeat, and the times at which nodes do differ.
pub open spec fn electable(s: RaftSettings) -> bool {
    s.heartbeat_interval < s.election_timeout_min < s.election_timeout_max
}

/// What is said of settings that do not.
pub open spec fn election_fault(s: RaftSettings) -> Seq<char> {
    let min = decimal_text(s.election_timeout_min as nat);
    if s.election_timeout_min >= s.election_timeout_max {
        "election timeout: min("@ + min + ") must be < max("@ + decimal_text(
            s.election_timeout_max as nat,
        ) + ")"@
    } else {
        "election_timeout_min("@ + min + ") must be > heartbeat_interval("@ + decimal_text(
            s.heartbeat_interval as nat,
        ) + ")"@
    }
}

/// `openraft::Config::validate` on a configuration with the given name and settings,
/// all else being openraft's default.
///
/// It compares the election timeouts with each other, then the smaller one with the
/// heartbeat interval, and nothing else that is set here; its default number of
/// entries in a message is valid.
#[verifier::external_body]
fn validate_raft(cluster_name: &str, s: &RaftSettings) -> (r: Result<(), String>)
    ensures
        match r {
            Ok(_) => electable(*s),
            Err(text) => !electable(*s) && text@ == election_fault(*s),
        },
{
    let config = openraft::Config {
        cluster_name: cluster_name.to_string(),
        heartbeat_interval: s.heartbeat_interval,
        election_timeout_min: s.election_timeout_min,
        election_timeout_max: s.election_timeout_max,
        snapshot_policy: openraft::SnapshotPolicy::LogsSinceLast(s.snapshot_after_logs),
        max_in_snapshot_log_to_keep: s.logs_to_keep,
        snapshot_max_chunk_size: s.snapshot_max_chunk_size,
        ..Default::default()
    };
    config.validate().map(|_| ()).map_err(|e| e.to_string())
}

/// Checks the settings of a shard's group.
pub fn check_raft(cluster_name: &str, settings: &RaftSettings) -> (r: Result<(), String>)
    ensures
        r is Ok <==> electable(*settings),
        r matches Err(text) ==> text@ == election_fault(*settings),
{
    validate_raft(cluster_name, settings)
}

/// What a shard is made of.
#[derive(Debug)]
pub struct ShardSetup {
    pub shard_id: u64,
    pub node_id: u64,
    /// The shard's own directory.
    pub shard_dir: String,
    pub memtable_arena_bytes: usize,
    /// The directory of the snapshots of all shards.
    pub snapshot_dir: String,
    pub compression: Compression,
    pub keep: usize,
    pub cluster_name: String,
    pub raft: RaftSettings,
    /// Whom to trust when nodes talk; `None` where TLS is not set up.
    pub client_tls: Option<ClientTrust>,
}

/// The directory of the snapshots.
pub open spec fn snapshot_dir_of(c: Config) -> Seq<char> {
    match c.snapshot.dir {
        Some(dir) => dir@,
        None => below_dir(c.storage.data_dir@, "snapshots"@),
    }
}

/// The directory of the snapshots: the one that is configured, else one below the data.
pub fn snapshot_dir(config: &Config) -> (dir: String)
    ensures
        dir@ == snapshot_dir_of(*config),
{
    match &config.snapshot.dir {
        Some(dir) => dir.clone(),
        None => path_below(config.storage.data_dir.as_str(), "snapshots"),
    }
}

/// Sets out what a shard is made of.  `ca` is the certificate file as it was read.
pub fn shard_setup(config: &Config, shard_id: u64, ca: FileRead) -> (r: Result<ShardSetup, String>)
    ensures
        match trust_of(*config, ca) {
            Err(text) => r matches Err(e) && e@ == text,
            Ok(trust) => {
                &&& r matches Ok(s)
                &&& s.shard_id == shard_id
                &&& s.node_id == config.node.id
                &&& s.shard_dir@ == below_dir(
                    config.storage.data_dir@,
                    "shard-"@ + decimal_text(shard_id as nat),
                )
                &&& s.memtable_arena_bytes == config.storage.memtable_arena_bytes
                &&& s.snapshot_dir@ == snapshot_dir_of(*config)
                &&& s.compression == config.snapshot.compression
                &&& s.keep == config.snapshot.keep
                &&& s.cluster_name@ == "eventstore-shard-"@ + decimal_text(shard_id as nat)
                &&& s.raft == (RaftSettings {
                    heartbeat_interval: 300,
                    election_timeout_min: 600,
                    election_timeout_max: 900,
                    snapshot_after_logs: 5000,
                    logs_to_keep: 1000,
                    snapshot_max_chunk_size: config.snapshot.max_chunk_size,
                })
                &&& s.client_tls == trust
            },
        },
{
    let n = decimal(shard_id);
    let name = join2("shard-", n.as_str());
    let cluster_name = join2("eventstore-shard-", n.as_str());
    let raft = RaftSettings {
        heartbeat_interval: 300,
        election_timeout_min: 600,
        election_timeout_max: 900,
        snapshot_after_logs: 5000,
        logs_to_keep: 1000,
        snapshot_max_chunk_size: config.snapshot.max_chunk_size,
    };
    match check_raft(cluster_name.as_str(), &raft) {
        Ok(_) => {},
        Err(e) => return Err(e),
    }
    let client_tls = match &config.tls {
        None => None,
        Some(tls) => match tls.client_trust(ca) {
            Ok(trust) => Some(trust),
            Err(e) => return Err(e),
        },
    };
    Ok(
        ShardSetup {
            shard_id,
            node_id: config.node.id,
            shard_dir: path_below(config.storage.data_dir.as_str(), name.as_str()),
            memtable_arena_bytes: config.storage.memtable_arena_bytes,
            snapshot_dir: snapshot_dir(config),
            compression: config.snapshot.compression,
            keep: config.snapshot.keep,
            cluster_name,
            raft,
            client_tls,
        },
    )
}


/// The timing of elections is accepted exactly where heartbeats come faster than the
/// shortest time-out, and that is shorter than the longest.
pub proof fn law_elections_wait_longer_than_heartbeats(
    cluster_name: &str,
    settings: RaftSettings,
    r: Result<(), String>,
)
    requires
        call_ensures(check_raft, (cluster_name, &settings), r),
    ensures
        r is Ok <==> settings.heartbeat_interval < settings.election_timeout_min
            && settings.election_timeout_min < settings.election_timeout_max,
{
}

/// Snapshots lie where the configuration says, or else below the data; each shard has a
/// directory and a cluster of its own.
pub proof fn law_shard_is_set_up_as_configured(
    config: Config,
    shard_id: u64,
    ca: FileRead,
    r: Result<ShardSetup, String>,
    dir: String,
)
    requires
        call_ensures(shard_setup, (&config, shard_id, ca), r),
        call_ensures(snapshot_dir, (&config,), dir),
    ensures
        config.snapshot.dir matches Some(d) ==> dir@ == d@,
        config.snapshot.dir is None && config.storage.data_dir@.len() > 0
            && config.storage.data_dir@.last() != '/' ==> dir@ == config.storage.data_dir@ + "/"@
            + "snapshots"@,
        r matches Ok(s) ==> {
            &&& s.shard_id == shard_id && s.node_id == config.node.id
            &&& s.snapshot_dir@ == dir@
            &&& s.keep == config.snapshot.keep && s.compression == config.snapshot.compression
            &&& s.memtable_arena_bytes == config.storage.memtable_arena_bytes
            &&& s.cluster_name@ == "eventstore-shard-"@ + decimal_text(shard_id as nat)
            &&& s.raft.heartbeat_interval == 300 && s.raft.election_timeout_min == 600
                && s.raft.election_timeout_max == 900
            &&& s.raft.snapshot_max_chunk_size == config.snapshot.max_chunk_size
        },
        config.tls is None ==> (r matches Ok(s) && s.client_tls is None),
{
    reveal_strlit("/");
    let d = config.storage.data_dir@;
    if d.len() > 0 && d.last() != '/' {
        assert(d.subrange(d.len() - 1, d.len() as int)[0] == d.last());
    }
}

} // verus!
