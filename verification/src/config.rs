//! Server configuration: its parts, their defaults, and what makes it valid.

use vstd::prelude::*;

use crate::endpoint::{endpoint_fault, endpoint_from_shared, normalize_endpoint, normalized, opt_text};
use crate::order::{distinct, holds, is_sort_of, lemma_sort_unique, lists, sort};
use crate::text::{decimal, decimal_text, decimal_wide, join2, join3, join4, join5};

verus! {

/// Largest data and metadata of one event by default (1 MiB).
pub const MAX_EVENT_PAYLOAD_BYTES: u64 = 1048576;

/// Largest append request (7 MiB): what the transport carries, less a reserve for
/// headers.
pub const MAX_APPEND_BATCH_BYTES: u64 = 7340032;

/// Largest snapshot chunk (6 MiB).
pub const MAX_SNAPSHOT_CHUNK_BYTES: u64 = 6291456;

/// Snapshot chunk by default (3 MiB).
pub const DEFAULT_SNAPSHOT_CHUNK_BYTES: u64 = 3145728;

/// Smallest memtable arena (1 MiB).
pub const MIN_MEMTABLE_ARENA_BYTES: usize = 1048576;

/// Largest memtable arena (16 MiB).
pub const MAX_MEMTABLE_ARENA_BYTES: usize = 16777216;

/// The configuration of a server.
#[derive(Clone, Debug)]
pub struct Config {
    pub node: NodeConfig,
    pub storage: StorageConfig,
    /// Which node carries which shards.
    pub placement: PlacementConfig,
    pub snapshot: SnapshotSection,
    /// Present where the server listens with TLS.
    pub tls: Option<TlsConfig>,
    pub limits: LimitsSection,
}

/// Limits on the size of requests.
#[derive(Clone, Copy, Debug, PartialEq, Eq, Structural)]
pub struct LimitsSection {
    /// Most bytes of data and metadata of one event.
    pub max_event_bytes: u64,
    /// Most bytes of one append request as encoded.
    pub max_append_batch_bytes: u64,
}

/// How snapshots are compressed.
#[derive(Clone, Copy, Debug, PartialEq, Eq, Structural)]
pub enum Compression {
    Zstd,
    Lz4,
    Uncompressed,
}

/// How snapshots are kept.
#[derive(Clone, Debug)]
pub struct SnapshotSection {
    pub compression: Compression,
    /// How many snapshots are kept, the latest among them.
    pub keep: usize,
    /// Directory of the snapshots; by default below the data directory.
    pub dir: Option<String>,
    /// Most bytes of one chunk.
    pub max_chunk_size: u64,
}

/// Files of the TLS set-up.
#[derive(Clone, Debug)]
pub struct TlsConfig {
    /// Certificate of the server.
    pub cert_file: Option<String>,
    /// Private key of the server.
    pub key_file: Option<String>,
    /// Certificates that peers are checked against; without it they are not checked.
    pub ca_file: Option<String>,
}

/// This node and its peers.
#[derive(Clone, Debug)]
pub struct NodeConfig {
    pub id: u64,
    pub listen_addr: String,
    /// Where other nodes of the cluster connect.
    pub internal_listen_addr: Option<String>,
    /// Members of the cluster; empty where it is formed by hand.
    pub peers: Vec<PeerConfig>,
}

/// A member of the cluster.
#[derive(Clone, Debug)]
pub struct PeerConfig {
    pub id: u64,
    pub addr: String,
    pub internal_addr: Option<String>,
}

/// Where and how data is stored.
#[derive(Clone, Debug)]
pub struct StorageConfig {
    pub data_dir: String,
    /// Memtable arena of one shard, in bytes.
    pub memtable_arena_bytes: usize,
}

/// Which node carries which shards.
#[derive(Clone, Debug)]
pub struct PlacementConfig {
    /// How many nodes carry each shard.
    pub replication_factor: u64,
    pub nodes: Vec<PlacementNode>,
}

/// The shards of one node.
#[derive(Clone, Debug)]
pub struct PlacementNode {
    pub id: u64,
    /// Shards that this node carries first and foremost.
    pub primary: Vec<u64>,
    /// Shards that this node carries a copy of.
    pub replica: Vec<u64>,
}

/// The memtable arena where none is configured: 4 MiB.
pub fn default_memtable_arena_bytes() -> (n: usize)
    ensures
        n == 4 * 1024 * 1024,
{
    4194304
}

impl Default for LimitsSection {
    fn default() -> (s: Self)
        ensures
            s.max_event_bytes == 1024 * 1024,
            s.max_append_batch_bytes == 7 * 1024 * 1024,
    {
        LimitsSection {
            max_event_bytes: MAX_EVENT_PAYLOAD_BYTES,
            max_append_batch_bytes: MAX_APPEND_BATCH_BYTES,
        }
    }
}

impl Default for SnapshotSection {
    fn default() -> (s: Self)
        ensures
            s.compression == Compression::Zstd,
            s.keep == 3,
            s.dir is None,
            s.max_chunk_size == 3 * 1024 * 1024,
    {
        SnapshotSection {
            compression: Compression::Zstd,
            keep: 3,
            dir: None,
            max_chunk_size: DEFAULT_SNAPSHOT_CHUNK_BYTES,
        }
    }
}

impl Default for TlsConfig {
    fn default() -> (t: Self)
        ensures
            t.cert_file is None,
            t.key_file is None,
            t.ca_file is None,
    {
        TlsConfig { cert_file: None, key_file: None, ca_file: None }
    }
}

impl Default for PlacementConfig {
    fn default() -> (p: Self)
        ensures
            p.replication_factor == 1,
            p.nodes@.len() == 0,
    {
        PlacementConfig { replication_factor: 1, nodes: Vec::new() }
    }
}

impl Default for Config {
    /// One node that carries one shard.
    fn default() -> (c: Self)
        ensures
            c.node.id == 1,
            c.node.listen_addr@ == "127.0.0.1:50051"@,
            c.node.internal_listen_addr is None,
            c.node.peers@.len() == 0,
            c.storage.data_dir@ == "./data"@,
            c.storage.memtable_arena_bytes == 4 * 1024 * 1024,
            c.placement.replication_factor == 1,
            c.placement.nodes@.len() == 1,
            c.placement.nodes@[0].id == 1,
            c.placement.nodes@[0].primary@ == seq![0u64],
            c.placement.nodes@[0].replica@.len() == 0,
            c.snapshot.compression == Compression::Zstd,
            c.snapshot.keep == 3,
            c.snapshot.dir is None,
            c.snapshot.max_chunk_size == 3 * 1024 * 1024,
            c.tls is None,
            c.limits.max_event_bytes == 1024 * 1024,
            c.limits.max_append_batch_bytes == 7 * 1024 * 1024,
    {
        let mut primary: Vec<u64> = Vec::new();
        primary.push(0);
        let mut nodes: Vec<PlacementNode> = Vec::new();
        nodes.push(PlacementNode { id: 1, primary, replica: Vec::new() });
        Config {
            node: NodeConfig {
                id: 1,
                listen_addr: String::from_str("127.0.0.1:50051"),
                internal_listen_addr: None,
                peers: Vec::new(),
            },
            storage: StorageConfig {
                data_dir: String::from_str("./data"),
                memtable_arena_bytes: default_memtable_arena_bytes(),
            },
            placement: PlacementConfig { replication_factor: 1, nodes },
            snapshot: SnapshotSection::default(),
            tls: None,
            limits: LimitsSection::default(),
        }
    }
}

/// What reading a file gave: its bytes, or why it could not be read.
#[derive(Debug)]
pub enum FileRead {
    Bytes(Vec<u8>),
    Failed(String),
}

/// Whom the server trusts when it connects to a peer.
#[derive(Debug)]
pub enum ClientTrust {
    /// Peers are checked against these certificates.
    Ca(Vec<u8>),
    /// Peers are not checked.
    SkipVerify,
}

/// A path as the `Debug` format of `std::path::Path` shows it: quoted, special
/// characters escaped.
pub uninterp spec fn path_debug(path: Seq<char>) -> Seq<char>;

/// The `Debug` format of `std::path::Path`: what it writes depends on the path alone.
#[verifier::external_body]
pub(crate) fn path_debug_of(path: &str) -> (text: String)
    ensures
        text@ == path_debug(path@),
{
    format!("{:?}", std::path::Path::new(path))
}

/// What is wrong with a file of the TLS set-up, if anything.
pub open spec fn file_fault(name: Seq<char>, path: Seq<char>, read: FileRead) -> Option<
    Seq<char>,
> {
    match read {
        FileRead::Failed(e) => Some(
            "[tls] "@ + name + " 读取失败（"@ + path_debug(path) + "）: "@ + e@,
        ),
        FileRead::Bytes(b) => if b@.len() == 0 {
            Some("[tls] "@ + name + " 为空文件（"@ + path_debug(path) + "）"@)
        } else {
            None
        },
    }
}

fn check_file(name: &str, path: &str, read: &FileRead) -> (fault: Option<String>)
    ensures
        opt_text(fault) == file_fault(name@, path@, *read),
{
    let shown = path_debug_of(path);
    match read {
        FileRead::Failed(e) => {
            let mut text = join5("[tls] ", name, " 读取失败（", shown.as_str(), "）: ");
            text.append(e.as_str());
            Some(text)
        },
        FileRead::Bytes(b) => if b.len() == 0 {
            Some(join5("[tls] ", name, " 为空文件（", shown.as_str(), "）"))
        } else {
            None
        },
    }
}

/// The three files of the TLS set-up as they were read.  What stands for a file that
/// is not configured is not looked at.
#[derive(Debug)]
pub struct TlsFiles {
    pub cert: FileRead,
    pub key: FileRead,
    pub ca: FileRead,
}

/// What is wrong with the TLS set-up, if anything: certificate and key come in a
/// pair, and every file named is there and not empty.
pub open spec fn tls_fault(tls: TlsConfig, files: TlsFiles) -> Option<Seq<char>> {
    match (tls.cert_file, tls.key_file) {
        (None, None) => Some(
            "[tls] cert_file/key_file 必须成对配置，缺少: [\"cert_file\", \"key_file\"]"@,
        ),
        (None, Some(_)) => Some("[tls] cert_file/key_file 必须成对配置，缺少: [\"cert_file\"]"@),
        (Some(_), None) => Some("[tls] cert_file/key_file 必须成对配置，缺少: [\"key_file\"]"@),
        (Some(cert), Some(key)) => if file_fault("cert_file"@, cert@, files.cert) is Some {
            file_fault("cert_file"@, cert@, files.cert)
        } else if file_fault("key_file"@, key@, files.key) is Some {
            file_fault("key_file"@, key@, files.key)
        } else {
            match tls.ca_file {
                Some(ca) => file_fault("ca_file"@, ca@, files.ca),
                None => None,
            }
        },
    }
}

/// An outcome that is good unless there is a fault, whose text it then is.
pub open spec fn reports(r: Result<(), String>, fault: Option<Seq<char>>) -> bool {
    match fault {
        Some(text) => r matches Err(e) && e@ == text,
        None => r is Ok,
    }
}

impl TlsConfig {
    /// Checks the TLS set-up against its files as they were read.
    pub fn validate(&self, files: &TlsFiles) -> (r: Result<(), String>)
        ensures
            reports(r, tls_fault(*self, *files)),
    {
        match (&self.cert_file, &self.key_file) {
            (None, None) => Err(
                String::from_str(
                    "[tls] cert_file/key_file 必须成对配置，缺少: [\"cert_file\", \"key_file\"]",
                ),
            ),
            (None, Some(_)) => Err(
                String::from_str("[tls] cert_file/key_file 必须成对配置，缺少: [\"cert_file\"]"),
            ),
            (Some(_), None) => Err(
                String::from_str("[tls] cert_file/key_file 必须成对配置，缺少: [\"key_file\"]"),
            ),
            (Some(cert), Some(key)) => {
                if let Some(e) = check_file("cert_file", cert.as_str(), &files.cert) {
                    return Err(e);
                }
                if let Some(e) = check_file("key_file", key.as_str(), &files.key) {
                    return Err(e);
                }
                match &self.ca_file {
                    Some(ca) => match check_file("ca_file", ca.as_str(), &files.ca) {
                        Some(e) => Err(e),
                        None => Ok(()),
                    },
                    None => Ok(()),
                }
            },
        }
    }

    /// Whom to trust, given the certificate file as it was read.  A file that could
    /// not be read is an error: it never means that peers go unchecked.
    pub fn client_trust(&self, ca: FileRead) -> (r: Result<ClientTrust, String>)
        ensures
            match (self.ca_file, ca) {
                (None, _) => r == Ok::<ClientTrust, String>(ClientTrust::SkipVerify),
                (Some(_), FileRead::Bytes(pem)) => r == Ok::<ClientTrust, String>(
                    ClientTrust::Ca(pem),
                ),
                (Some(path), FileRead::Failed(e)) => r matches Err(text) && text@
                    == "[tls] ca_file 读取失败（"@ + path_debug(path@) + "）: "@ + e@,
            },
    {
        match &self.ca_file {
            None => Ok(ClientTrust::SkipVerify),
            Some(path) => match ca {
                FileRead::Bytes(pem) => Ok(ClientTrust::Ca(pem)),
                FileRead::Failed(e) => {
                    let shown = path_debug_of(path.as_str());
                    Err(join4("[tls] ca_file 读取失败（", shown.as_str(), "）: ", e.as_str()))
                },
            },
        }
    }
}

/// What is wrong with one node of the placement.
#[derive(Clone, Copy, Debug, PartialEq, Eq, Structural)]
pub enum NodeFault {
    DuplicateNode(u64),
    UnknownNode(u64),
    SharedPrimary(u64),
    PrimaryAndReplica { node: u64, shard: u64 },
}

/// The first number of `list` that stands in `taken` or earlier in `list`.
pub open spec fn first_repeated(taken: Seq<u64>, list: Seq<u64>) -> Option<u64>
    decreases list.len(),
{
    if list.len() == 0 {
        None
    } else if taken.contains(list[0]) {
        Some(list[0])
    } else {
        first_repeated(taken.push(list[0]), list.skip(1))
    }
}

/// The first number of `list` that stands in `other`.
pub open spec fn first_common(list: Seq<u64>, other: Seq<u64>) -> Option<u64>
    decreases list.len(),
{
    if list.len() == 0 {
        None
    } else if other.contains(list[0]) {
        Some(list[0])
    } else {
        first_common(list.skip(1), other)
    }
}

/// What is wrong with a node, given the ids and the primary shards of the nodes
/// before it and the ids that may stand in a placement.
pub open spec fn node_fault(
    ids: Seq<u64>,
    primaries: Seq<u64>,
    known: Seq<u64>,
    n: PlacementNode,
) -> Option<NodeFault> {
    if ids.contains(n.id) {
        Some(NodeFault::DuplicateNode(n.id))
    } else if !known.contains(n.id) {
        Some(NodeFault::UnknownNode(n.id))
    } else {
        match first_repeated(primaries, n.primary@) {
            Some(s) => Some(NodeFault::SharedPrimary(s)),
            None => match first_common(n.replica@, n.primary@) {
                Some(s) => Some(NodeFault::PrimaryAndReplica { node: n.id, shard: s }),
                None => None,
            },
        }
    }
}

/// What is wrong with the first node that something is wrong with.
pub open spec fn nodes_fault(
    ids: Seq<u64>,
    primaries: Seq<u64>,
    known: Seq<u64>,
    nodes: Seq<PlacementNode>,
) -> Option<NodeFault>
    decreases nodes.len(),
{
    if nodes.len() == 0 {
        None
    } else {
        match node_fault(ids, primaries, known, nodes[0]) {
            Some(f) => Some(f),
            None => nodes_fault(
                ids.push(nodes[0].id),
                primaries + nodes[0].primary@,
                known,
                nodes.skip(1),
            ),
        }
    }
}

/// The ids that may stand in the placement: this node's and its peers'.
pub open spec fn known_ids(node: NodeConfig) -> Seq<u64> {
    node.peers@.map_values(|p: PeerConfig| p.id).push(node.id)
}

/// The text of a fault.
pub open spec fn node_fault_text(f: NodeFault) -> Seq<char> {
    match f {
        NodeFault::DuplicateNode(id) => "[placement] 节点 id "@ + decimal_text(id as nat)
            + " 重复"@,
        NodeFault::UnknownNode(id) => "[placement] 节点 "@ + decimal_text(id as nat)
            + " 不在 node.peers 中（放置表节点须 ∈ peers ∪ 本节点）"@,
        NodeFault::SharedPrimary(s) => "[placement] shard "@ + decimal_text(s as nat)
            + " 出现在多个节点的 primary 中"@,
        NodeFault::PrimaryAndReplica { node, shard } => "[placement] 节点 "@ + decimal_text(
            node as nat,
        ) + " 的 shard "@ + decimal_text(shard as nat) + " 同时出现在 primary 与 replica"@,
    }
}

/// All shards that the nodes carry, node by node.
pub open spec fn held(nodes: Seq<PlacementNode>) -> Seq<u64>
    decreases nodes.len(),
{
    if nodes.len() == 0 {
        Seq::empty()
    } else {
        held(nodes.drop_last()) + nodes.last().primary@ + nodes.last().replica@
    }
}

/// The node carries the shard.
pub open spec fn carries(n: PlacementNode, shard: u64) -> bool {
    n.primary@.contains(shard) || n.replica@.contains(shard)
}

/// The ids of the nodes that carry the shard, in the order of the placement.
pub open spec fn carriers(nodes: Seq<PlacementNode>, shard: u64) -> Seq<u64>
    decreases nodes.len(),
{
    if nodes.len() == 0 {
        Seq::empty()
    } else {
        let rest = carriers(nodes.drop_last(), shard);
        if carries(nodes.last(), shard) {
            rest.push(nodes.last().id)
        } else {
            rest
        }
    }
}

/// Some node has the shard among its primary ones.
pub open spec fn has_primary(nodes: Seq<PlacementNode>, shard: u64) -> bool {
    exists|i: int| 0 <= i < nodes.len() && (#[trigger] nodes[i]).primary@.contains(shard)
}

/// The text on a shard that no node has among its primary ones.
pub open spec fn no_primary_text(shard: u64) -> Seq<char> {
    "[placement] shard "@ + decimal_text(shard as nat) + " 不在任何节点的 primary 中"@
}

/// The text on a shard that the wrong number of nodes carries.
pub open spec fn carrier_count_text(shard: u64, count: nat, factor: u64) -> Seq<char> {
    "[placement] shard "@ + decimal_text(shard as nat) + " 承载节点数 "@ + decimal_text(count)
        + " != replication_factor "@ + decimal_text(factor as nat)
}

/// The shard has a primary node, and as many carriers as it should.
pub open spec fn shard_is_placed(p: PlacementConfig, shard: u64) -> bool {
    has_primary(p.nodes@, shard) && carriers(p.nodes@, shard).len() == p.replication_factor
}

/// The text says what is wrong with one of the shards.
pub open spec fn blames_a_shard(p: PlacementConfig, text: Seq<char>) -> bool {
    exists|s: u64|
        {
            &&& #[trigger] held(p.nodes@).contains(s)
            &&& !shard_is_placed(p, s)
            &&& text == if has_primary(p.nodes@, s) {
                carrier_count_text(s, carriers(p.nodes@, s).len(), p.replication_factor)
            } else {
                no_primary_text(s)
            }
        }
}

/// What only the environment can tell of a configuration.
#[derive(Debug)]
pub struct Probes {
    /// Why the internal listen address is not a socket address, if it is not.
    pub internal_listen: Option<String>,
    /// The files of the TLS set-up as they were read.
    pub tls_files: TlsFiles,
}

/// What is wrong with the internal address of a peer, if it has one.
pub open spec fn peer_fault_text(p: PeerConfig, fault: Option<Seq<char>>) -> Option<Seq<char>> {
    match (p.internal_addr, fault) {
        (Some(addr), Some(e)) => Some(
            "node.peers 中节点 "@ + decimal_text(p.id as nat) + " 内部地址 "@ + normalized(addr@)
                + " 非法："@ + e,
        ),
        _ => None,
    }
}

/// What is wrong with the first peer whose internal address is wrong; `faults` says
/// for each peer what the URI parser has against that address.
pub open spec fn peers_fault(peers: Seq<PeerConfig>, faults: Seq<Option<Seq<char>>>) -> Option<
    Seq<char>,
>
    decreases peers.len(),
{
    if peers.len() == 0 {
        None
    } else {
        match peer_fault_text(peers[0], faults[0]) {
            Some(text) => Some(text),
            None => peers_fault(peers.skip(1), faults.skip(1)),
        }
    }
}

/// What the URI parser has against the internal addresses of the peers.
pub open spec fn internal_addr_faults(peers: Seq<PeerConfig>) -> Seq<Option<Seq<char>>> {
    peers.map_values(
        |p: PeerConfig|
            match p.internal_addr {
                Some(addr) => endpoint_fault(normalized(addr@)),
                None => None,
            },
    )
}

/// Contents of optional texts.
pub open spec fn opt_texts(v: Seq<Option<String>>) -> Seq<Option<Seq<char>>> {
    v.map_values(|t: Option<String>| opt_text(t))
}

/// What is wrong with the settings other than the placement, the first thing first.
pub open spec fn settings_fault(
    c: Config,
    probes: Probes,
    peer_faults: Seq<Option<Seq<char>>>,
) -> Option<Seq<char>> {
    if !(MIN_MEMTABLE_ARENA_BYTES <= c.storage.memtable_arena_bytes <= MAX_MEMTABLE_ARENA_BYTES) {
        Some(
            "[storage] memtable_arena_bytes 必须 ∈ [1048576, 16777216]，当前 "@ + decimal_text(
                c.storage.memtable_arena_bytes as nat,
            ),
        )
    } else if c.snapshot.keep == 0 {
        Some("[snapshot] keep 必须 ≥ 1（keep=0 会删光全部快照）"@)
    } else if c.limits.max_event_bytes == 0 {
        Some("[limits] max_event_bytes 必须 ≥ 1"@)
    } else if !(1 <= c.limits.max_append_batch_bytes <= MAX_APPEND_BATCH_BYTES) {
        Some("[limits] max_append_batch_bytes 必须 ∈ [1, 7340032]（8MB 传输上限减去余量）"@)
    } else if c.limits.max_event_bytes > c.limits.max_append_batch_bytes {
        Some("[limits] max_event_bytes 不能大于 max_append_batch_bytes"@)
    } else if !(1 <= c.snapshot.max_chunk_size <= MAX_SNAPSHOT_CHUNK_BYTES) {
        Some("[snapshot] max_chunk_size 必须 ∈ [1, 6291456]（超限快照块 openraft 直接放弃传输）"@)
    } else if c.node.internal_listen_addr is Some && probes.internal_listen is Some {
        Some(
            "[node] internal_listen_addr 非法（"@ + c.node.internal_listen_addr->Some_0@ + "）："@
                + probes.internal_listen->Some_0@,
        )
    } else if c.node.internal_listen_addr is Some && c.node.internal_listen_addr->Some_0@
        == c.node.listen_addr@ {
        Some("[node] internal_listen_addr 不能与 listen_addr 相同"@)
    } else if peers_fault(c.node.peers@, peer_faults) is Some {
        peers_fault(c.node.peers@, peer_faults)
    } else {
        match c.tls {
            Some(tls) => tls_fault(tls, probes.tls_files),
            None => None,
        }
    }
}

/// The placement is valid: there are nodes and copies, no node is wrong, and every
/// shard is placed.
pub open spec fn placement_is_valid(c: Config) -> bool {
    &&& c.placement.nodes@.len() > 0
    &&& c.placement.replication_factor > 0
    &&& nodes_fault(Seq::empty(), Seq::empty(), known_ids(c.node), c.placement.nodes@) is None
    &&& forall|s: u64| #[trigger]
        held(c.placement.nodes@).contains(s) ==> shard_is_placed(c.placement, s)
}

/// `r` is the outcome of checking the configuration.
pub open spec fn is_checked(
    c: Config,
    probes: Probes,
    peer_faults: Seq<Option<Seq<char>>>,
    r: Result<(), String>,
) -> bool {
    let bad_node = nodes_fault(
        Seq::empty(),
        Seq::empty(),
        known_ids(c.node),
        c.placement.nodes@,
    );
    &&& r is Ok <==> placement_is_valid(c) && settings_fault(c, probes, peer_faults) is None
    &&& r matches Err(e) ==> if c.placement.nodes@.len() == 0 {
        e@ == "[placement] nodes 不能为空：必须显式列出每个节点承载的 shards"@
    } else if c.placement.replication_factor == 0 {
        e@ == "[placement] replication_factor 必须 ≥ 1"@
    } else if bad_node is Some {
        e@ == node_fault_text(bad_node->Some_0)
    } else if !placement_is_valid(c) {
        blames_a_shard(c.placement, e@)
    } else {
        settings_fault(c, probes, peer_faults) == Some(e@)
    }
}

fn node_fault_message(f: NodeFault) -> (text: String)
    ensures
        text@ == node_fault_text(f),
{
    match f {
        NodeFault::DuplicateNode(id) => {
            let n = decimal(id);
            join3("[placement] 节点 id ", n.as_str(), " 重复")
        },
        NodeFault::UnknownNode(id) => {
            let n = decimal(id);
            join3(
                "[placement] 节点 ",
                n.as_str(),
                " 不在 node.peers 中（放置表节点须 ∈ peers ∪ 本节点）",
            )
        },
        NodeFault::SharedPrimary(s) => {
            let n = decimal(s);
            join3("[placement] shard ", n.as_str(), " 出现在多个节点的 primary 中")
        },
        NodeFault::PrimaryAndReplica { node, shard } => {
            let n = decimal(node);
            let s = decimal(shard);
            join5(
                "[placement] 节点 ",
                n.as_str(),
                " 的 shard ",
                s.as_str(),
                " 同时出现在 primary 与 replica",
            )
        },
    }
}

fn find_repeated(taken: &mut Vec<u64>, list: &Vec<u64>) -> (r: Option<u64>)
    ensures
        r == first_repeated(old(taken)@, list@),
        r is None ==> final(taken)@ == old(taken)@ + list@,
{
    let mut i: usize = 0;
    proof {
        assert(list@.skip(0) =~= list@);
        assert(old(taken)@ + list@.take(0) =~= old(taken)@);
    }
    while i < list.len()
        invariant
            i <= list@.len(),
            taken@ == old(taken)@ + list@.take(i as int),
            first_repeated(old(taken)@, list@) == first_repeated(taken@, list@.skip(i as int)),
        decreases list@.len() - i,
    {
        let s = list[i];
        proof {
            assert(list@.skip(i as int)[0] == s);
            assert(list@.skip(i as int).skip(1) =~= list@.skip(i + 1));
            assert(old(taken)@ + list@.take(i + 1) =~= (old(taken)@ + list@.take(i as int)).push(
                s,
            ));
        }
        if holds(&*taken, s) {
            return Some(s);
        }
        taken.push(s);
        i += 1;
    }
    proof {
        assert(list@.take(list@.len() as int) =~= list@);
    }
    None
}

fn find_common(list: &Vec<u64>, other: &Vec<u64>) -> (r: Option<u64>)
    ensures
        r == first_common(list@, other@),
{
    let mut i: usize = 0;
    proof {
        assert(list@.skip(0) =~= list@);
    }
    while i < list.len()
        invariant
            i <= list@.len(),
            first_common(list@, other@) == first_common(list@.skip(i as int), other@),
        decreases list@.len() - i,
    {
        let s = list[i];
        proof {
            assert(list@.skip(i as int)[0] == s);
            assert(list@.skip(i as int).skip(1) =~= list@.skip(i + 1));
        }
        if holds(other, s) {
            return Some(s);
        }
        i += 1;
    }
    None
}

impl PlacementConfig {
    /// All shards that nodes carry, node by node.
    fn held_shards(&self) -> (out: Vec<u64>)
        ensures
            out@ == held(self.nodes@),
    {
        let mut out: Vec<u64> = Vec::new();
        let mut i: usize = 0;
        while i < self.nodes.len()
            invariant
                i <= self.nodes@.len(),
                out@ == held(self.nodes@.take(i as int)),
            decreases self.nodes@.len() - i,
        {
            let n = &self.nodes[i];
            let ghost before = out@;
            let mut k: usize = 0;
            while k < n.primary.len()
                invariant
                    k <= n.primary@.len(),
                    out@ == before + n.primary@.take(k as int),
                decreases n.primary@.len() - k,
            {
                out.push(n.primary[k]);
                proof {
                    assert(n.primary@.take(k + 1) =~= n.primary@.take(k as int).push(
                        n.primary@[k as int],
                    ));
                }
                k += 1;
            }
            proof {
                assert(n.primary@.take(n.primary@.len() as int) =~= n.primary@);
            }
            let ghost middle = out@;
            let mut k: usize = 0;
            while k < n.replica.len()
                invariant
                    k <= n.replica@.len(),
                    out@ == middle + n.replica@.take(k as int),
                decreases n.replica@.len() - k,
            {
                out.push(n.replica[k]);
                proof {
                    assert(n.replica@.take(k + 1) =~= n.replica@.take(k as int).push(
                        n.replica@[k as int],
                    ));
                }
                k += 1;
            }
            proof {
                assert(n.replica@.take(n.replica@.len() as int) =~= n.replica@);
                assert(self.nodes@.take(i + 1).drop_last() =~= self.nodes@.take(i as int));
                assert(middle + n.replica@ =~= before + n.primary@ + n.replica@);
            }
            i += 1;
        }
        proof {
            assert(self.nodes@.take(self.nodes@.len() as int) =~= self.nodes@);
        }
        out
    }

    /// The shards that the nodes carry, each once, in ascending order.
    pub fn all_shards(&self) -> (out: Vec<u64>)
        ensures
            lists(out@, held(self.nodes@).to_set()),
    {
        let all = self.held_shards();
        distinct(&all)
    }

    /// The ids of the nodes that carry the shard, in the order of the placement.
    fn carriers_of(&self, shard: u64) -> (out: Vec<u64>)
        ensures
            out@ == carriers(self.nodes@, shard),
    {
        let mut out: Vec<u64> = Vec::new();
        let mut i: usize = 0;
        while i < self.nodes.len()
            invariant
                i <= self.nodes@.len(),
                out@ == carriers(self.nodes@.take(i as int), shard),
            decreases self.nodes@.len() - i,
        {
            let n = &self.nodes[i];
            proof {
                assert(self.nodes@.take(i + 1).drop_last() =~= self.nodes@.take(i as int));
            }
            if holds(&n.primary, shard) || holds(&n.replica, shard) {
                out.push(n.id);
            }
            i += 1;
        }
        proof {
            assert(self.nodes@.take(self.nodes@.len() as int) =~= self.nodes@);
        }
        out
    }

    /// True if some node has the shard among its primary ones.
    fn is_primary_somewhere(&self, shard: u64) -> (r: bool)
        ensures
            r == has_primary(self.nodes@, shard),
    {
        let mut i: usize = 0;
        while i < self.nodes.len()
            invariant
                i <= self.nodes@.len(),
                forall|k: int|
                    0 <= k < i ==> !(#[trigger] self.nodes@[k]).primary@.contains(shard),
            decreases self.nodes@.len() - i,
        {
            if holds(&self.nodes[i].primary, shard) {
                assert(self.nodes@[i as int].primary@.contains(shard));
                return true;
            }
            i += 1;
        }
        false
    }

    /// What is wrong with the first node that something is wrong with.
    fn find_node_fault(&self, known: &Vec<u64>) -> (r: Option<NodeFault>)
        ensures
            r == nodes_fault(Seq::empty(), Seq::empty(), known@, self.nodes@),
    {
        let mut ids: Vec<u64> = Vec::new();
        let mut primaries: Vec<u64> = Vec::new();
        let mut i: usize = 0;
        proof {
            assert(self.nodes@.skip(0) =~= self.nodes@);
            assert(ids@ =~= Seq::<u64>::empty());
            assert(primaries@ =~= Seq::<u64>::empty());
        }
        while i < self.nodes.len()
            invariant
                i <= self.nodes@.len(),
                nodes_fault(Seq::empty(), Seq::empty(), known@, self.nodes@) == nodes_fault(
                    ids@,
                    primaries@,
                    known@,
                    self.nodes@.skip(i as int),
                ),
            decreases self.nodes@.len() - i,
        {
            let n = &self.nodes[i];
            proof {
                assert(self.nodes@.skip(i as int)[0] == *n);
                assert(self.nodes@.skip(i as int).skip(1) =~= self.nodes@.skip(i + 1));
            }
            if holds(&ids, n.id) {
                return Some(NodeFault::DuplicateNode(n.id));
            }
            if !holds(known, n.id) {
                return Some(NodeFault::UnknownNode(n.id));
            }
            if let Some(s) = find_repeated(&mut primaries, &n.primary) {
                return Some(NodeFault::SharedPrimary(s));
            }
            if let Some(s) = find_common(&n.replica, &n.primary) {
                return Some(NodeFault::PrimaryAndReplica { node: n.id, shard: s });
            }
            ids.push(n.id);
            i += 1;
        }
        None
    }

    /// What is wrong with one of the shards, if anything is wrong with any.
    fn find_shard_fault(&self) -> (r: Option<String>)
        ensures
            r is None <==> forall|s: u64| #[trigger]
                held(self.nodes@).contains(s) ==> shard_is_placed(*self, s),
            r matches Some(text) ==> blames_a_shard(*self, text@),
    {
        let shards = self.all_shards();
        let mut i: usize = 0;
        while i < shards.len()
            invariant
                i <= shards@.len(),
                lists(shards@, held(self.nodes@).to_set()),
                forall|k: int| 0 <= k < i ==> shard_is_placed(*self, #[trigger] shards@[k]),
            decreases shards@.len() - i,
        {
            let s = shards[i];
            assert(shards@.contains(s));
            assert(held(self.nodes@).to_set().contains(s));
            assert(held(self.nodes@).contains(s));
            if !self.is_primary_somewhere(s) {
                let n = decimal(s);
                let text = join3("[placement] shard ", n.as_str(), " 不在任何节点的 primary 中");
                assert(blames_a_shard(*self, text@));
                return Some(text);
            }
            let count = self.carriers_of(s).len();
            if count as u64 != self.replication_factor {
                let n = decimal(s);
                let c = decimal_wide(count as u128);
                let f = decimal(self.replication_factor);
                let mut text = join5(
                    "[placement] shard ",
                    n.as_str(),
                    " 承载节点数 ",
                    c.as_str(),
                    " != replication_factor ",
                );
                text.append(f.as_str());
                assert(blames_a_shard(*self, text@));
                return Some(text);
            }
            i += 1;
        }
        proof {
            assert forall|s: u64| #[trigger] held(self.nodes@).contains(s) implies shard_is_placed(
                *self,
                s,
            ) by {
                assert(held(self.nodes@).to_set().contains(s));
                assert(shards@.contains(s));
                let k = choose|k: int| 0 <= k < shards@.len() && shards@[k] == s;
                assert(shard_is_placed(*self, shards@[k]));
            }
        }
        None
    }
}

fn find_peer_fault(peers: &Vec<PeerConfig>, faults: &Vec<Option<String>>) -> (r: Option<String>)
    requires
        faults@.len() == peers@.len(),
    ensures
        opt_text(r) == peers_fault(peers@, opt_texts(faults@)),
{
    let mut i: usize = 0;
    let ghost views = opt_texts(faults@);
    proof {
        assert(peers@.skip(0) =~= peers@);
        assert(views.skip(0) =~= views);
    }
    while i < peers.len()
        invariant
            i <= peers@.len(),
            faults@.len() == peers@.len(),
            views == opt_texts(faults@),
            peers_fault(peers@, views) == peers_fault(
                peers@.skip(i as int),
                views.skip(i as int),
            ),
        decreases peers@.len() - i,
    {
        let p = &peers[i];
        proof {
            assert(peers@.skip(i as int)[0] == *p);
            assert(views.skip(i as int)[0] == opt_text(faults@[i as int]));
            assert(peers@.skip(i as int).skip(1) =~= peers@.skip(i + 1));
            assert(views.skip(i as int).skip(1) =~= views.skip(i + 1));
        }
        if let Some(addr) = &p.internal_addr {
            if let Some(e) = &faults[i] {
                let n = decimal(p.id);
                let uri = normalize_endpoint(addr.as_str());
                let mut text = join5(
                    "node.peers 中节点 ",
                    n.as_str(),
                    " 内部地址 ",
                    uri.as_str(),
                    " 非法：",
                );
                text.append(e.as_str());
                return Some(text);
            }
        }
        i += 1;
    }
    None
}

impl Config {
    /// Checks the configuration; the server does not start on one that fails.
    ///
    /// A placement lists each node once and only known nodes; no shard is primary
    /// twice, nor primary and replica on one node; every shard has a primary node and
    /// is carried by exactly as many nodes as the replication factor says.
    pub fn validate(&self, probes: &Probes) -> (r: Result<(), String>)
        ensures
            is_checked(*self, *probes, internal_addr_faults(self.node.peers@), r),
    {
        let mut faults: Vec<Option<String>> = Vec::new();
        let mut i: usize = 0;
        while i < self.node.peers.len()
            invariant
                i <= self.node.peers@.len(),
                faults@.len() == i,
                forall|k: int|
                    0 <= k < i ==> opt_text(#[trigger] faults@[k]) == internal_addr_faults(
                        self.node.peers@,
                    )[k],
            decreases self.node.peers@.len() - i,
        {
            let fault = match &self.node.peers[i].internal_addr {
                Some(addr) => {
                    let uri = normalize_endpoint(addr.as_str());
                    endpoint_from_shared(uri.as_str())
                },
                None => None,
            };
            faults.push(fault);
            i += 1;
        }
        assert(opt_texts(faults@) =~= internal_addr_faults(self.node.peers@));
        self.validate_with(probes, &faults)
    }

    /// Checks the configuration, given for each peer what the URI parser has against
    /// its internal address.
    pub fn validate_with(&self, probes: &Probes, peer_faults: &Vec<Option<String>>) -> (r: Result<
        (),
        String,
    >)
        requires
            peer_faults@.len() == self.node.peers@.len(),
        ensures
            is_checked(*self, *probes, opt_texts(peer_faults@), r),
    {
        if self.placement.nodes.is_empty() {
            return Err(
                String::from_str("[placement] nodes 不能为空：必须显式列出每个节点承载的 shards"),
            );
        }
        if self.placement.replication_factor == 0 {
            return Err(String::from_str("[placement] replication_factor 必须 ≥ 1"));
        }
        let mut known: Vec<u64> = Vec::new();
        let mut i: usize = 0;
        while i < self.node.peers.len()
            invariant
                i <= self.node.peers@.len(),
                known@.len() == i,
                forall|k: int| 0 <= k < i ==> #[trigger] known@[k] == self.node.peers@[k].id,
            decreases self.node.peers@.len() - i,
        {
            known.push(self.node.peers[i].id);
            i += 1;
        }
        known.push(self.node.id);
        assert(known@ =~= known_ids(self.node));
        if let Some(f) = self.placement.find_node_fault(&known) {
            return Err(node_fault_message(f));
        }
        if let Some(e) = self.placement.find_shard_fault() {
            return Err(e);
        }
        assert(placement_is_valid(*self));
        let arena = self.storage.memtable_arena_bytes;
        if arena < MIN_MEMTABLE_ARENA_BYTES || arena > MAX_MEMTABLE_ARENA_BYTES {
            let n = decimal_wide(arena as u128);
            return Err(
                join2(
                    "[storage] memtable_arena_bytes 必须 ∈ [1048576, 16777216]，当前 ",
                    n.as_str(),
                ),
            );
        }
        if self.snapshot.keep == 0 {
            return Err(String::from_str("[snapshot] keep 必须 ≥ 1（keep=0 会删光全部快照）"));
        }
        if self.limits.max_event_bytes == 0 {
            return Err(String::from_str("[limits] max_event_bytes 必须 ≥ 1"));
        }
        if self.limits.max_append_batch_bytes == 0 || self.limits.max_append_batch_bytes
            > MAX_APPEND_BATCH_BYTES {
            return Err(
                String::from_str(
                    "[limits] max_append_batch_bytes 必须 ∈ [1, 7340032]（8MB 传输上限减去余量）",
                ),
            );
        }
        if self.limits.max_event_bytes > self.limits.max_append_batch_bytes {
            return Err(
                String::from_str("[limits] max_event_bytes 不能大于 max_append_batch_bytes"),
            );
        }
        if self.snapshot.max_chunk_size == 0 || self.snapshot.max_chunk_size
            > MAX_SNAPSHOT_CHUNK_BYTES {
            return Err(
                String::from_str(
                    "[snapshot] max_chunk_size 必须 ∈ [1, 6291456]（超限快照块 openraft 直接放弃传输）",
                ),
            );
        }
        if let Some(addr) = &self.node.internal_listen_addr {
            if let Some(e) = &probes.internal_listen {
                return Err(
                    join4("[node] internal_listen_addr 非法（", addr.as_str(), "）：", e.as_str()),
                );
            }
            if *addr == self.node.listen_addr {
                return Err(String::from_str("[node] internal_listen_addr 不能与 listen_addr 相同"));
            }
        }
        if let Some(e) = find_peer_fault(&self.node.peers, peer_faults) {
            return Err(e);
        }
        match &self.tls {
            Some(tls) => tls.validate(&probes.tls_files),
            None => Ok(()),
        }
    }

    /// The shards that this node carries, each once, in ascending order.
    pub fn local_shards(&self) -> (out: Vec<u64>)
        ensures
            lists(out@, shards_of_node(self.placement.nodes@, self.node.id)),
    {
        let mut i: usize = 0;
        proof {
            assert(self.placement.nodes@.skip(0) =~= self.placement.nodes@);
        }
        while i < self.placement.nodes.len()
            invariant
                i <= self.placement.nodes@.len(),
                shards_of_node(self.placement.nodes@, self.node.id) == shards_of_node(
                    self.placement.nodes@.skip(i as int),
                    self.node.id,
                ),
            decreases self.placement.nodes@.len() - i,
        {
            let n = &self.placement.nodes[i];
            proof {
                let rest = self.placement.nodes@.skip(i as int);
                assert(rest[0] == *n);
                assert(rest.skip(1) =~= self.placement.nodes@.skip(i + 1));
            }
            if n.id == self.node.id {
                let mut all: Vec<u64> = Vec::new();
                let mut k: usize = 0;
                while k < n.primary.len()
                    invariant
                        k <= n.primary@.len(),
                        all@ == n.primary@.take(k as int),
                    decreases n.primary@.len() - k,
                {
                    all.push(n.primary[k]);
                    proof {
                        assert(n.primary@.take(k + 1) =~= n.primary@.take(k as int).push(
                            n.primary@[k as int],
                        ));
                    }
                    k += 1;
                }
                proof {
                    assert(n.primary@.take(n.primary@.len() as int) =~= n.primary@);
                }
                let mut k: usize = 0;
                while k < n.replica.len()
                    invariant
                        k <= n.replica@.len(),
                        all@ == n.primary@ + n.replica@.take(k as int),
                    decreases n.replica@.len() - k,
                {
                    all.push(n.replica[k]);
                    proof {
                        assert(n.replica@.take(k + 1) =~= n.replica@.take(k as int).push(
                            n.replica@[k as int],
                        ));
                    }
                    k += 1;
                }
                proof {
                    assert(n.replica@.take(n.replica@.len() as int) =~= n.replica@);
                    assert(all@ =~= n.primary@ + n.replica@);
                }
                return distinct(&all);
            }
            i += 1;
        }
        Vec::new()
    }

    /// The nodes that carry the shard, in ascending order.  Every node computes the
    /// same members: this node's own id plays no part.
    pub fn shard_members(&self, shard_id: u64) -> (out: Vec<u64>)
        ensures
            is_sort_of(out@, carriers(self.placement.nodes@, shard_id)),
    {
        let members = self.placement.carriers_of(shard_id);
        sort(&members)
    }

    /// One more than the largest shard; 0 if there is none.
    pub fn shard_count(&self) -> (n: u64)
        requires
            !held(self.placement.nodes@).contains(u64::MAX),
        ensures
            held(self.placement.nodes@).len() == 0 ==> n == 0,
            held(self.placement.nodes@).len() > 0 ==> n > 0 && held(
                self.placement.nodes@,
            ).contains((n - 1) as u64),
            forall|s: u64| #[trigger] held(self.placement.nodes@).contains(s) ==> s < n,
    {
        let all = self.placement.held_shards();
        let mut n: u64 = 0;
        let mut i: usize = 0;
        while i < all.len()
            invariant
                i <= all@.len(),
                all@ == held(self.placement.nodes@),
                !all@.contains(u64::MAX),
                i == 0 ==> n == 0,
                i > 0 ==> n > 0 && all@.contains((n - 1) as u64),
                forall|k: int| 0 <= k < i ==> #[trigger] all@[k] < n,
            decreases all@.len() - i,
        {
            let s = all[i];
            assert(all@.contains(s));
            if s >= n {
                n = s + 1;
            }
            i += 1;
        }
        proof {
            assert forall|s: u64| #[trigger] all@.contains(s) implies s < n by {
                let k = choose|k: int| 0 <= k < all@.len() && all@[k] == s;
                assert(all@[k] < n);
            }
        }
        n
    }

    /// Command line values take precedence over the configuration.
    pub fn apply_overrides(self, node_id: Option<u64>, listen: Option<String>) -> (c: Config)
        ensures
            c == (Config {
                node: NodeConfig {
                    id: match node_id {
                        Some(id) => id,
                        None => self.node.id,
                    },
                    listen_addr: match listen {
                        Some(addr) => addr,
                        None => self.node.listen_addr,
                    },
                    ..self.node
                },
                ..self
            }),
    {
        let mut config = self;
        if let Some(id) = node_id {
            config.node.id = id;
        }
        if let Some(addr) = listen {
            config.node.listen_addr = addr;
        }
        config
    }
}

/// The shards of the first node with this id.
pub open spec fn shards_of_node(nodes: Seq<PlacementNode>, id: u64) -> Set<u64>
    decreases nodes.len(),
{
    if nodes.len() == 0 {
        Set::empty()
    } else if nodes[0].id == id {
        (nodes[0].primary@ + nodes[0].replica@).to_set()
    } else {
        shards_of_node(nodes.skip(1), id)
    }
}

/// A node's view of who carries a shard does not depend on which node it is: two
/// configurations with the same placement give the same members.
pub proof fn law_members_agree_across_nodes(
    a: Config,
    b: Config,
    shard: u64,
    at_a: Seq<u64>,
    at_b: Seq<u64>,
)
    requires
        a.placement.nodes@ == b.placement.nodes@,
        is_sort_of(at_a, carriers(a.placement.nodes@, shard)),
        is_sort_of(at_b, carriers(b.placement.nodes@, shard)),
    ensures
        at_a == at_b,
{
    lemma_sort_unique(at_a, at_b);
}

/// In a valid placement every shard that is carried has exactly as many members as
/// the replication factor says, all of them different nodes.
pub proof fn law_valid_placement_has_all_members(c: Config, shard: u64, members: Seq<u64>)
    requires
        placement_is_valid(c),
        held(c.placement.nodes@).contains(shard),
        is_sort_of(members, carriers(c.placement.nodes@, shard)),
    ensures
        members.len() == c.placement.replication_factor,
        members.no_duplicates(),
{
    let nodes = c.placement.nodes@;
    let raw = carriers(nodes, shard);
    raw.to_multiset_ensures();
    members.to_multiset_ensures();
    assert(shard_is_placed(c.placement, shard));
    lemma_ids_distinct(Seq::empty(), Seq::empty(), known_ids(c.node), nodes);
    lemma_carriers_distinct(nodes, shard);
    raw.lemma_multiset_has_no_duplicates();
    members.lemma_multiset_has_no_duplicates_conv();
}

/// In a valid placement no shard is primary on two nodes, and every shard that is
/// carried is primary on one.
pub proof fn law_valid_placement_has_one_primary(c: Config, shard: u64)
    requires
        placement_is_valid(c),
        held(c.placement.nodes@).contains(shard),
    ensures
        exists|i: int|
            0 <= i < c.placement.nodes@.len()
                && (#[trigger] c.placement.nodes@[i]).primary@.contains(shard),
        forall|i: int, j: int|
            0 <= i < j < c.placement.nodes@.len() ==> !((
            #[trigger] c.placement.nodes@[i]).primary@.contains(shard) && (
            #[trigger] c.placement.nodes@[j]).primary@.contains(shard)),
{
    let nodes = c.placement.nodes@;
    assert(shard_is_placed(c.placement, shard));
    assert forall|i: int, j: int| 0 <= i < j < nodes.len() implies !((
    #[trigger] nodes[i]).primary@.contains(shard) && (
    #[trigger] nodes[j]).primary@.contains(shard)) by {
        lemma_primaries_disjoint(Seq::empty(), Seq::empty(), known_ids(c.node), nodes, i, j, shard);
    }
}

proof fn lemma_first_repeated(taken: Seq<u64>, list: Seq<u64>, s: u64)
    requires
        first_repeated(taken, list) is None,
        list.contains(s),
    ensures
        !taken.contains(s),
    decreases list.len(),
{
    if list[0] != s {
        let k = choose|k: int| 0 <= k < list.len() && list[k] == s;
        assert(list.skip(1)[k - 1] == s);
        lemma_first_repeated(taken.push(list[0]), list.skip(1), s);
        if taken.contains(s) {
            let m = choose|m: int| 0 <= m < taken.len() && taken[m] == s;
            assert(taken.push(list[0])[m] == s);
        }
    }
}

proof fn lemma_primary_not_taken(
    ids: Seq<u64>,
    primaries: Seq<u64>,
    known: Seq<u64>,
    nodes: Seq<PlacementNode>,
    j: int,
    shard: u64,
)
    requires
        nodes_fault(ids, primaries, known, nodes) is None,
        0 <= j < nodes.len(),
        nodes[j].primary@.contains(shard),
    ensures
        !primaries.contains(shard),
    decreases nodes.len(),
{
    if j == 0 {
        lemma_first_repeated(primaries, nodes[0].primary@, shard);
    } else {
        let next = primaries + nodes[0].primary@;
        assert(nodes.skip(1)[j - 1] == nodes[j]);
        lemma_primary_not_taken(
            ids.push(nodes[0].id),
            next,
            known,
            nodes.skip(1),
            j - 1,
            shard,
        );
        if primaries.contains(shard) {
            let m = choose|m: int| 0 <= m < primaries.len() && primaries[m] == shard;
            assert(next[m] == shard);
        }
    }
}

proof fn lemma_primaries_disjoint(
    ids: Seq<u64>,
    primaries: Seq<u64>,
    known: Seq<u64>,
    nodes: Seq<PlacementNode>,
    i: int,
    j: int,
    shard: u64,
)
    requires
        nodes_fault(ids, primaries, known, nodes) is None,
        0 <= i < j < nodes.len(),
    ensures
        !(nodes[i].primary@.contains(shard) && nodes[j].primary@.contains(shard)),
    decreases nodes.len(),
{
    let next = primaries + nodes[0].primary@;
    let rest = nodes.skip(1);
    assert(rest[j - 1] == nodes[j]);
    if i == 0 {
        if nodes[j].primary@.contains(shard) {
            lemma_primary_not_taken(ids.push(nodes[0].id), next, known, rest, j - 1, shard);
            if nodes[0].primary@.contains(shard) {
                let k = choose|k: int|
                    0 <= k < nodes[0].primary@.len() && nodes[0].primary@[k] == shard;
                assert(next[primaries.len() + k] == shard);
            }
        }
    } else {
        assert(rest[i - 1] == nodes[i]);
        lemma_primaries_disjoint(
            ids.push(nodes[0].id),
            next,
            known,
            rest,
            i - 1,
            j - 1,
            shard,
        );
    }
}

proof fn lemma_ids_distinct(
    ids: Seq<u64>,
    primaries: Seq<u64>,
    known: Seq<u64>,
    nodes: Seq<PlacementNode>,
)
    requires
        nodes_fault(ids, primaries, known, nodes) is None,
    ensures
        forall|i: int, j: int|
            0 <= i < j < nodes.len() ==> (#[trigger] nodes[i]).id != (#[trigger] nodes[j]).id,
        forall|i: int| 0 <= i < nodes.len() ==> !ids.contains((#[trigger] nodes[i]).id),
    decreases nodes.len(),
{
    if nodes.len() > 0 {
        let rest = nodes.skip(1);
        let more = ids.push(nodes[0].id);
        lemma_ids_distinct(more, primaries + nodes[0].primary@, known, rest);
        assert(more[ids.len() as int] == nodes[0].id);
        assert(more.contains(nodes[0].id));
        assert forall|i: int, j: int| 0 <= i < j < nodes.len() implies (#[trigger] nodes[i]).id
            != (#[trigger] nodes[j]).id by {
            assert(rest[j - 1] == nodes[j]);
            if i > 0 {
                assert(rest[i - 1] == nodes[i]);
            }
        }
        assert forall|i: int| 0 <= i < nodes.len() implies !ids.contains(
            (#[trigger] nodes[i]).id,
        ) by {
            if i > 0 {
                assert(rest[i - 1] == nodes[i]);
                if ids.contains(nodes[i].id) {
                    let m = choose|m: int| 0 <= m < ids.len() && ids[m] == nodes[i].id;
                    assert(more[m] == nodes[i].id);
                }
            }
        }
    }
}

proof fn lemma_carriers_distinct(nodes: Seq<PlacementNode>, shard: u64)
    requires
        forall|i: int, j: int|
            0 <= i < j < nodes.len() ==> (#[trigger] nodes[i]).id != (#[trigger] nodes[j]).id,
    ensures
        carriers(nodes, shard).no_duplicates(),
        forall|x: u64| #[trigger]
            carriers(nodes, shard).contains(x) ==> exists|i: int|
                0 <= i < nodes.len() && (#[trigger] nodes[i]).id == x,
    decreases nodes.len(),
{
    if nodes.len() > 0 {
        let rest = nodes.drop_last();
        assert forall|i: int, j: int| 0 <= i < j < rest.len() implies (#[trigger] rest[i]).id != (
        #[trigger] rest[j]).id by {
            assert(nodes[i].id != nodes[j].id);
        }
        lemma_carriers_distinct(rest, shard);
        let a = carriers(rest, shard);
        let b = carriers(nodes, shard);
        assert forall|x: u64| #[trigger] b.contains(x) implies exists|i: int|
            0 <= i < nodes.len() && (#[trigger] nodes[i]).id == x by {
            let k = choose|k: int| 0 <= k < b.len() && b[k] == x;
            if k < a.len() {
                assert(a[k] == x);
                assert(a.contains(x));
                let i = choose|i: int| 0 <= i < rest.len() && (#[trigger] rest[i]).id == x;
                assert(nodes[i].id == x);
            } else {
                assert(nodes[nodes.len() - 1].id == x);
            }
        }
        assert forall|i: int, j: int| 0 <= i < b.len() && 0 <= j < b.len() && i != j implies b[i]
            != b[j] by {
            if carries(nodes.last(), shard) {
                if i == a.len() || j == a.len() {
                    let k = if i == a.len() {
                        j
                    } else {
                        i
                    };
                    assert(a.contains(a[k]));
                    let m = choose|m: int| 0 <= m < rest.len() && (#[trigger] rest[m]).id == a[k];
                    assert(nodes[m].id != nodes[nodes.len() - 1].id);
                }
            }
        }
    }
}


/// The node carries the shard, as primary or as replica.
pub open spec fn node_carries(n: PlacementNode, shard: u64) -> bool {
    n.primary@.contains(shard) || n.replica@.contains(shard)
}

/// Some node carries the shard.
pub open spec fn some_node_carries(nodes: Seq<PlacementNode>, shard: u64) -> bool {
    exists|i: int| 0 <= i < nodes.len() && node_carries(#[trigger] nodes[i], shard)
}

/// Some node has the shard as primary.
pub open spec fn some_node_leads(nodes: Seq<PlacementNode>, shard: u64) -> bool {
    exists|i: int| 0 <= i < nodes.len() && (#[trigger] nodes[i]).primary@.contains(shard)
}

/// How many nodes carry the shard.
pub open spec fn carrier_count(nodes: Seq<PlacementNode>, shard: u64) -> nat {
    nodes.filter(|n: PlacementNode| node_carries(n, shard)).len()
}

/// The nodes of a placement are as they have to be: different from each other, all of them
/// this node or a peer of it; no shard is primary twice, and none is primary and replica
/// on one node.
pub open spec fn nodes_are_sound(c: Config) -> bool {
    let nodes = c.placement.nodes@;
    &&& nodes.len() > 0
    &&& forall|i: int, j: int|
        0 <= i < j < nodes.len() ==> (#[trigger] nodes[i]).id != (#[trigger] nodes[j]).id
    &&& forall|i: int|
        0 <= i < nodes.len() ==> (#[trigger] nodes[i]).id == c.node.id || is_peer(
            c.node.peers@,
            nodes[i].id,
        )
    &&& forall|i: int, j: int, s: u64|
        0 <= i < j < nodes.len() ==> !(#[trigger] nodes[i].primary@.contains(s)
            && #[trigger] nodes[j].primary@.contains(s))
    &&& forall|i: int| 0 <= i < nodes.len() ==> (#[trigger] nodes[i]).primary@.no_duplicates()
    &&& forall|i: int, s: u64|
        0 <= i < nodes.len() ==> !(#[trigger] nodes[i].primary@.contains(s)
            && nodes[i].replica@.contains(s))
}

/// A peer has this number.
pub open spec fn is_peer(peers: Seq<PeerConfig>, id: u64) -> bool {
    exists|i: int| 0 <= i < peers.len() && (#[trigger] peers[i]).id == id
}

proof fn lemma_known(node: NodeConfig, id: u64)
    ensures
        known_ids(node).contains(id) <==> id == node.id || is_peer(node.peers@, id),
{
    let known = known_ids(node);
    let n = node.peers@.len() as int;
    if known.contains(id) {
        let k = choose|k: int| 0 <= k < known.len() && known[k] == id;
        if k < n {
            assert(node.peers@[k].id == id);
        }
    }
    if id == node.id {
        assert(known[n] == id);
    }
    if is_peer(node.peers@, id) {
        let k = choose|k: int| 0 <= k < node.peers@.len() && (#[trigger] node.peers@[k]).id == id;
        assert(known[k] == id);
    }
}

proof fn lemma_held(nodes: Seq<PlacementNode>, shard: u64)
    ensures
        held(nodes).contains(shard) <==> some_node_carries(nodes, shard),
    decreases nodes.len(),
{
    let now = held(nodes);
    if nodes.len() > 0 {
        let rest = nodes.drop_last();
        let n = nodes.len() - 1;
        let was = held(rest);
        let p = nodes.last().primary@;
        let r = nodes.last().replica@;
        lemma_held(rest, shard);
        assert(nodes.last() == nodes[n]);
        assert(now == was + p + r);
        if now.contains(shard) {
            let k = choose|k: int| 0 <= k < now.len() && now[k] == shard;
            if k < was.len() {
                assert(was[k] == shard);
                assert(was.contains(shard));
                let i = choose|i: int|
                    0 <= i < rest.len() && node_carries(#[trigger] rest[i], shard);
                assert(nodes[i] == rest[i]);
            } else if k < was.len() + p.len() {
                assert(p[k - was.len()] == shard);
                assert(node_carries(nodes[n], shard));
            } else {
                assert(r[k - was.len() - p.len()] == shard);
                assert(node_carries(nodes[n], shard));
            }
        }
        if some_node_carries(nodes, shard) {
            let i = choose|i: int| 0 <= i < nodes.len() && node_carries(#[trigger] nodes[i], shard);
            if i < n {
                assert(rest[i] == nodes[i]);
                let k = choose|k: int| 0 <= k < was.len() && was[k] == shard;
                assert(now[k] == shard);
            } else if p.contains(shard) {
                let k = choose|k: int| 0 <= k < p.len() && p[k] == shard;
                assert(now[was.len() + k] == shard);
            } else {
                let k = choose|k: int| 0 <= k < r.len() && r[k] == shard;
                assert(now[was.len() + p.len() + k] == shard);
            }
        }
    } else {
        assert(now =~= Seq::<u64>::empty());
    }
}

proof fn lemma_carriers(nodes: Seq<PlacementNode>, shard: u64)
    ensures
        carriers(nodes, shard).len() == carrier_count(nodes, shard),
        forall|x: u64| #[trigger]
            carriers(nodes, shard).contains(x) <==> exists|i: int|
                0 <= i < nodes.len() && (#[trigger] nodes[i]).id == x && node_carries(
                    nodes[i],
                    shard,
                ),
    decreases nodes.len(),
{
    reveal(Seq::filter);
    let now = carriers(nodes, shard);
    if nodes.len() > 0 {
        let rest = nodes.drop_last();
        let n = nodes.len() - 1;
        let was = carriers(rest, shard);
        lemma_carriers(rest, shard);
        assert(nodes.last() == nodes[n]);
        assert(carries(nodes.last(), shard) == node_carries(nodes.last(), shard));
        assert forall|x: u64| #[trigger] now.contains(x) <==> exists|i: int|
            0 <= i < nodes.len() && (#[trigger] nodes[i]).id == x && node_carries(
                nodes[i],
                shard,
            ) by {
            if now.contains(x) {
                let k = choose|k: int| 0 <= k < now.len() && now[k] == x;
                if k < was.len() {
                    assert(was[k] == x);
                    assert(was.contains(x));
                    let i = choose|i: int|
                        0 <= i < rest.len() && (#[trigger] rest[i]).id == x && node_carries(
                            rest[i],
                            shard,
                        );
                    assert(nodes[i] == rest[i]);
                } else {
                    assert(nodes[n].id == x);
                }
            }
            if exists|i: int|
                0 <= i < nodes.len() && (#[trigger] nodes[i]).id == x && node_carries(
                    nodes[i],
                    shard,
                ) {
                let i = choose|i: int|
                    0 <= i < nodes.len() && (#[trigger] nodes[i]).id == x && node_carries(
                        nodes[i],
                        shard,
                    );
                if i < n {
                    assert(rest[i] == nodes[i]);
                    assert(was.contains(x));
                    let k = choose|k: int| 0 <= k < was.len() && was[k] == x;
                    assert(now[k] == x);
                } else {
                    assert(now[was.len() as int] == x);
                }
            }
        }
    } else {
        assert(now =~= Seq::<u64>::empty());
    }
}

proof fn lemma_repeated(taken: Seq<u64>, list: Seq<u64>)
    ensures
        first_repeated(taken, list) is None <==> list.no_duplicates() && forall|s: u64|
            !(#[trigger] taken.contains(s) && list.contains(s)),
    decreases list.len(),
{
    if list.len() > 0 {
        let rest = list.skip(1);
        let more = taken.push(list[0]);
        lemma_repeated(more, rest);
        assert forall|s: u64| #[trigger] more.contains(s) <==> taken.contains(s) || s
            == list[0] by {
            if more.contains(s) {
                let k = choose|k: int| 0 <= k < more.len() && more[k] == s;
                if k < taken.len() {
                    assert(taken[k] == s);
                }
            }
            if taken.contains(s) {
                let k = choose|k: int| 0 <= k < taken.len() && taken[k] == s;
                assert(more[k] == s);
            }
            if s == list[0] {
                assert(more[taken.len() as int] == s);
            }
        }
        assert forall|s: u64| #[trigger] list.contains(s) <==> s == list[0] || rest.contains(s) by {
            if list.contains(s) {
                let k = choose|k: int| 0 <= k < list.len() && list[k] == s;
                if k > 0 {
                    assert(rest[k - 1] == s);
                }
            }
            if rest.contains(s) {
                let k = choose|k: int| 0 <= k < rest.len() && rest[k] == s;
                assert(list[k + 1] == s);
            }
            if s == list[0] {
                assert(list[0] == s);
            }
        }
        if first_repeated(taken, list) is None {
            assert forall|s: u64| !(#[trigger] taken.contains(s) && list.contains(s)) by {
                assert(more.contains(s) <==> taken.contains(s) || s == list[0]);
            }
            assert forall|i: int, j: int|
                0 <= i < list.len() && 0 <= j < list.len() && i != j implies list[i] != list[j] by {
                if i > 0 && j > 0 {
                    assert(rest[i - 1] != rest[j - 1]);
                } else {
                    let k = if i == 0 {
                        j
                    } else {
                        i
                    };
                    assert(rest[k - 1] == list[k]);
                    assert(rest.contains(list[k]));
                    assert(more.contains(list[0]));
                    assert(!(more.contains(list[0]) && rest.contains(list[0])));
                }
            }
        }
        if list.no_duplicates() && forall|s: u64|
            !(#[trigger] taken.contains(s) && list.contains(s)) {
            assert(list.contains(list[0]));
            assert(!taken.contains(list[0]));
            assert(rest.no_duplicates()) by {
                assert forall|i: int, j: int|
                    0 <= i < rest.len() && 0 <= j < rest.len() && i != j implies rest[i]
                    != rest[j] by {
                    assert(list[i + 1] != list[j + 1]);
                }
            }
            assert forall|s: u64| !(#[trigger] more.contains(s) && rest.contains(s)) by {
                assert(more.contains(s) <==> taken.contains(s) || s == list[0]);
                if rest.contains(s) {
                    let k = choose|k: int| 0 <= k < rest.len() && rest[k] == s;
                    assert(list[k + 1] == s);
                    assert(list[k + 1] != list[0]);
                }
            }
        }
    }
}

proof fn lemma_common(list: Seq<u64>, other: Seq<u64>)
    ensures
        first_common(list, other) is None <==> forall|s: u64|
            !(#[trigger] list.contains(s) && other.contains(s)),
    decreases list.len(),
{
    if list.len() > 0 {
        let rest = list.skip(1);
        lemma_common(rest, other);
        if first_common(list, other) is None {
            assert forall|s: u64| !(#[trigger] list.contains(s) && other.contains(s)) by {
                if list.contains(s) {
                    let k = choose|k: int| 0 <= k < list.len() && list[k] == s;
                    if k > 0 {
                        assert(rest[k - 1] == s);
                        assert(rest.contains(s));
                    }
                }
            }
        }
        if forall|s: u64| !(#[trigger] list.contains(s) && other.contains(s)) {
            assert(list.contains(list[0]));
            assert forall|s: u64| !(#[trigger] rest.contains(s) && other.contains(s)) by {
                if rest.contains(s) {
                    let k = choose|k: int| 0 <= k < rest.len() && rest[k] == s;
                    assert(list[k + 1] == s);
                    assert(list.contains(s));
                }
            }
        }
    }
}

proof fn lemma_nodes_fault(
    ids: Seq<u64>,
    primaries: Seq<u64>,
    known: Seq<u64>,
    nodes: Seq<PlacementNode>,
)
    requires
        forall|i: int|
            0 <= i < nodes.len() ==> known.contains((#[trigger] nodes[i]).id) && !ids.contains(
                nodes[i].id,
            ),
        forall|i: int, j: int|
            0 <= i < j < nodes.len() ==> (#[trigger] nodes[i]).id != (#[trigger] nodes[j]).id,
        forall|i: int, s: u64|
            0 <= i < nodes.len() ==> !(#[trigger] nodes[i].primary@.contains(s)
                && primaries.contains(s)),
        forall|i: int, j: int, s: u64|
            0 <= i < j < nodes.len() ==> !(#[trigger] nodes[i].primary@.contains(s)
                && #[trigger] nodes[j].primary@.contains(s)),
        forall|i: int| 0 <= i < nodes.len() ==> (#[trigger] nodes[i]).primary@.no_duplicates(),
        forall|i: int, s: u64|
            0 <= i < nodes.len() ==> !(#[trigger] nodes[i].primary@.contains(s)
                && nodes[i].replica@.contains(s)),
    ensures
        nodes_fault(ids, primaries, known, nodes) is None,
    decreases nodes.len(),
{
    if nodes.len() > 0 {
        let n = nodes[0];
        let rest = nodes.skip(1);
        let more = ids.push(n.id);
        let next = primaries + n.primary@;
        assert(known.contains(nodes[0].id) && !ids.contains(nodes[0].id));
        lemma_repeated(primaries, n.primary@);
        assert forall|s: u64| !(#[trigger] primaries.contains(s) && n.primary@.contains(s)) by {
            assert(!(nodes[0].primary@.contains(s) && primaries.contains(s)));
        }
        lemma_common(n.replica@, n.primary@);
        assert forall|s: u64| !(#[trigger] n.replica@.contains(s) && n.primary@.contains(s)) by {
            assert(!(nodes[0].primary@.contains(s) && nodes[0].replica@.contains(s)));
        }
        assert(nodes[0].primary@.no_duplicates());
        assert(node_fault(ids, primaries, known, n) is None);
        assert forall|i: int| 0 <= i < rest.len() implies known.contains((#[trigger] rest[i]).id)
            && !more.contains(rest[i].id) && rest[i].primary@.no_duplicates() by {
            assert(rest[i] == nodes[i + 1]);
            assert(nodes[0].id != nodes[i + 1].id);
            if more.contains(rest[i].id) {
                let k = choose|k: int| 0 <= k < more.len() && more[k] == rest[i].id;
                if k < ids.len() {
                    assert(ids[k] == rest[i].id);
                    assert(ids.contains(nodes[i + 1].id));
                }
            }
        }
        assert forall|i: int, j: int| 0 <= i < j < rest.len() implies (#[trigger] rest[i]).id != (
        #[trigger] rest[j]).id by {
            assert(nodes[i + 1].id != nodes[j + 1].id);
        }
        assert forall|i: int, s: u64|
            0 <= i < rest.len() implies !(#[trigger] rest[i].primary@.contains(s)
            && next.contains(s)) by {
            assert(rest[i] == nodes[i + 1]);
            if nodes[i + 1].primary@.contains(s) && next.contains(s) {
                let k = choose|k: int| 0 <= k < next.len() && next[k] == s;
                if k < primaries.len() {
                    assert(primaries[k] == s);
                    assert(primaries.contains(s));
                } else {
                    assert(n.primary@[k - primaries.len()] == s);
                    assert(nodes[0].primary@.contains(s));
                }
            }
        }
        assert forall|i: int, j: int, s: u64|
            0 <= i < j < rest.len() implies !(#[trigger] rest[i].primary@.contains(s)
            && #[trigger] rest[j].primary@.contains(s)) by {
            assert(!(nodes[i + 1].primary@.contains(s) && nodes[j + 1].primary@.contains(s)));
        }
        assert forall|i: int, s: u64|
            0 <= i < rest.len() implies !(#[trigger] rest[i].primary@.contains(s)
            && rest[i].replica@.contains(s)) by {
            assert(!(nodes[i + 1].primary@.contains(s) && nodes[i + 1].replica@.contains(s)));
        }
        lemma_nodes_fault(more, next, known, rest);
    }
}

proof fn lemma_nodes_sound(
    ids: Seq<u64>,
    primaries: Seq<u64>,
    known: Seq<u64>,
    nodes: Seq<PlacementNode>,
    i: int,
)
    requires
        nodes_fault(ids, primaries, known, nodes) is None,
        0 <= i < nodes.len(),
    ensures
        known.contains(nodes[i].id),
        nodes[i].primary@.no_duplicates(),
        forall|s: u64| !(#[trigger] nodes[i].primary@.contains(s) && nodes[i].replica@.contains(s)),
    decreases nodes.len(),
{
    if i == 0 {
        lemma_repeated(primaries, nodes[0].primary@);
        lemma_common(nodes[0].replica@, nodes[0].primary@);
        assert forall|s: u64| !(#[trigger] nodes[i].primary@.contains(s)
            && nodes[i].replica@.contains(s)) by {
            assert(!(nodes[0].replica@.contains(s) && nodes[0].primary@.contains(s)));
        }
    } else {
        assert(nodes.skip(1)[i - 1] == nodes[i]);
        lemma_nodes_sound(
            ids.push(nodes[0].id),
            primaries + nodes[0].primary@,
            known,
            nodes.skip(1),
            i - 1,
        );
    }
}

/// A placement is accepted exactly where its nodes are sound, and every shard that is
/// carried is primary somewhere and carried by as many nodes as the replication factor
/// says.
pub proof fn law_placement_is_accepted_exactly_where_sound(c: Config)
    ensures
        placement_is_valid(c) <==> nodes_are_sound(c) && c.placement.replication_factor > 0 && (
        forall|s: u64| #[trigger]
            some_node_carries(c.placement.nodes@, s) ==> some_node_leads(c.placement.nodes@, s)
                && carrier_count(c.placement.nodes@, s) == c.placement.replication_factor),
{
    let nodes = c.placement.nodes@;
    let known = known_ids(c.node);
    assert forall|s: u64|
        (#[trigger] held(nodes).contains(s) <==> some_node_carries(nodes, s)) && (shard_is_placed(
            c.placement,
            s,
        ) <==> some_node_leads(nodes, s) && carrier_count(nodes, s)
            == c.placement.replication_factor) by {
        lemma_held(nodes, s);
        lemma_carriers(nodes, s);
    }
    if placement_is_valid(c) {
        lemma_ids_distinct(Seq::empty(), Seq::empty(), known, nodes);
        assert forall|i: int| 0 <= i < nodes.len() implies ((#[trigger] nodes[i]).id == c.node.id
            || is_peer(c.node.peers@, nodes[i].id)) && nodes[i].primary@.no_duplicates() by {
            lemma_nodes_sound(Seq::empty(), Seq::empty(), known, nodes, i);
            lemma_known(c.node, nodes[i].id);
        }
        assert forall|i: int, j: int, s: u64|
            0 <= i < j < nodes.len() implies !(#[trigger] nodes[i].primary@.contains(s)
            && #[trigger] nodes[j].primary@.contains(s)) by {
            lemma_primaries_disjoint(Seq::empty(), Seq::empty(), known, nodes, i, j, s);
        }
        assert forall|i: int, s: u64|
            0 <= i < nodes.len() implies !(#[trigger] nodes[i].primary@.contains(s)
            && nodes[i].replica@.contains(s)) by {
            lemma_nodes_sound(Seq::empty(), Seq::empty(), known, nodes, i);
        }
        assert forall|s: u64| #[trigger] some_node_carries(nodes, s) implies some_node_leads(
            nodes,
            s,
        ) && carrier_count(nodes, s) == c.placement.replication_factor by {
            assert(held(nodes).contains(s));
            assert(shard_is_placed(c.placement, s));
        }
    }
    if nodes_are_sound(c) && c.placement.replication_factor > 0 && (forall|s: u64| #[trigger]
        some_node_carries(nodes, s) ==> some_node_leads(nodes, s) && carrier_count(nodes, s)
            == c.placement.replication_factor) {
        assert forall|i: int| 0 <= i < nodes.len() implies known.contains(
            (#[trigger] nodes[i]).id,
        ) && !Seq::<u64>::empty().contains(nodes[i].id) by {
            lemma_known(c.node, nodes[i].id);
        }
        lemma_nodes_fault(Seq::empty(), Seq::empty(), known, nodes);
        assert forall|s: u64| #[trigger] held(nodes).contains(s) implies shard_is_placed(
            c.placement,
            s,
        ) by {
            assert(some_node_carries(nodes, s));
        }
    }
}


/// The settings are as they have to be: sizes within their bounds, snapshots kept, an
/// internal address that can be listened on and is not the public one.
pub open spec fn sizes_are_sound(c: Config, probes: Probes) -> bool {
    &&& 1048576 <= c.storage.memtable_arena_bytes <= 16777216
    &&& c.snapshot.keep >= 1
    &&& 1 <= c.limits.max_event_bytes <= c.limits.max_append_batch_bytes <= 7340032
    &&& 1 <= c.snapshot.max_chunk_size <= 6291456
    &&& c.node.internal_listen_addr matches Some(addr) ==> probes.internal_listen is None && addr@
        != c.node.listen_addr@
}

/// The files for encryption are there and hold something.
pub open spec fn tls_is_sound(tls: TlsConfig, files: TlsFiles) -> bool {
    &&& tls.cert_file is Some && tls.key_file is Some
    &&& files.cert matches FileRead::Bytes(b) && b@.len() > 0
    &&& files.key matches FileRead::Bytes(b) && b@.len() > 0
    &&& tls.ca_file is Some ==> (files.ca matches FileRead::Bytes(b) && b@.len() > 0)
}

proof fn lemma_peers_fault(peers: Seq<PeerConfig>, faults: Seq<Option<Seq<char>>>)
    requires
        faults.len() == peers.len(),
    ensures
        peers_fault(peers, faults) is None <==> forall|i: int|
            0 <= i < peers.len() ==> !((#[trigger] peers[i]).internal_addr is Some
                && faults[i] is Some),
    decreases peers.len(),
{
    if peers.len() > 0 {
        let rest = peers.skip(1);
        let more = faults.skip(1);
        lemma_peers_fault(rest, more);
        if peers_fault(peers, faults) is None {
            assert forall|i: int| 0 <= i < peers.len() implies !((
            #[trigger] peers[i]).internal_addr is Some && faults[i] is Some) by {
                if i > 0 {
                    assert(rest[i - 1] == peers[i] && more[i - 1] == faults[i]);
                }
            }
        }
        if forall|i: int|
            0 <= i < peers.len() ==> !((#[trigger] peers[i]).internal_addr is Some
                && faults[i] is Some) {
            assert(!(peers[0].internal_addr is Some && faults[0] is Some));
            assert forall|i: int| 0 <= i < rest.len() implies !((
            #[trigger] rest[i]).internal_addr is Some && more[i] is Some) by {
                assert(rest[i] == peers[i + 1] && more[i] == faults[i + 1]);
            }
        }
    }
}

/// A configuration is accepted exactly where its placement is valid, its sizes and
/// addresses are sound, no peer has an internal address that cannot be reached, and its
/// files for encryption are there.
pub proof fn law_configuration_is_accepted_exactly_where_sound(
    c: Config,
    probes: Probes,
    peer_faults: Vec<Option<String>>,
    r: Result<(), String>,
)
    requires
        peer_faults@.len() == c.node.peers@.len(),
        call_ensures(Config::validate_with, (&c, &probes, &peer_faults), r),
    ensures
        r is Ok <==> placement_is_valid(c) && sizes_are_sound(c, probes) && (forall|i: int|
            0 <= i < c.node.peers@.len() ==> !((
            #[trigger] c.node.peers@[i]).internal_addr is Some && peer_faults@[i] is Some)) && (
        c.tls matches Some(tls) ==> tls_is_sound(tls, probes.tls_files)),
{
    let faults = opt_texts(peer_faults@);
    lemma_peers_fault(c.node.peers@, faults);
    assert forall|i: int| 0 <= i < c.node.peers@.len() implies (faults[i] is Some
        <==> #[trigger] peer_faults@[i] is Some) by {}
    if peers_fault(c.node.peers@, faults) is None {
        assert forall|i: int| 0 <= i < c.node.peers@.len() implies !((
        #[trigger] c.node.peers@[i]).internal_addr is Some && peer_faults@[i] is Some) by {
            assert(faults[i] is Some <==> peer_faults@[i] is Some);
        }
    }
    if forall|i: int|
        0 <= i < c.node.peers@.len() ==> !((#[trigger] c.node.peers@[i]).internal_addr is Some
            && peer_faults@[i] is Some) {
        assert forall|i: int| 0 <= i < c.node.peers@.len() implies !((
        #[trigger] c.node.peers@[i]).internal_addr is Some && faults[i] is Some) by {
            assert(faults[i] is Some <==> peer_faults@[i] is Some);
        }
    }
}

/// The files for encryption are accepted exactly where they are there and hold something.
pub proof fn law_tls_files_are_accepted_exactly_where_there(
    tls: TlsConfig,
    files: TlsFiles,
    r: Result<(), String>,
)
    requires
        call_ensures(TlsConfig::validate, (&tls, &files), r),
    ensures
        r is Ok <==> tls_is_sound(tls, files),
{
}

/// All shards are those that a node carries, each once and in rising order.
pub proof fn law_all_shards_are_those_carried(p: PlacementConfig, out: Vec<u64>, s: u64)
    requires
        call_ensures(PlacementConfig::all_shards, (&p,), out),
    ensures
        out@.contains(s) <==> some_node_carries(p.nodes@, s),
        forall|i: int, j: int| 0 <= i < j < out@.len() ==> out@[i] < out@[j],
{
    lemma_held(p.nodes@, s);
    let all = held(p.nodes@);
    assert(all.to_set().contains(s) <==> all.contains(s));
    assert(out@.contains(s) <==> all.to_set().contains(s));
}

proof fn lemma_shards_of_node(nodes: Seq<PlacementNode>, id: u64, s: u64)
    requires
        forall|i: int, j: int|
            0 <= i < j < nodes.len() ==> (#[trigger] nodes[i]).id != (#[trigger] nodes[j]).id,
    ensures
        shards_of_node(nodes, id).contains(s) <==> exists|i: int|
            0 <= i < nodes.len() && (#[trigger] nodes[i]).id == id && node_carries(nodes[i], s),
    decreases nodes.len(),
{
    if nodes.len() > 0 {
        let rest = nodes.skip(1);
        assert forall|i: int, j: int| 0 <= i < j < rest.len() implies (#[trigger] rest[i]).id != (
        #[trigger] rest[j]).id by {
            assert(nodes[i + 1].id != nodes[j + 1].id);
        }
        lemma_shards_of_node(rest, id, s);
        let p = nodes[0].primary@;
        let r = nodes[0].replica@;
        assert((p + r).contains(s) <==> p.contains(s) || r.contains(s)) by {
            if (p + r).contains(s) {
                let k = choose|k: int| 0 <= k < (p + r).len() && (p + r)[k] == s;
                if k < p.len() {
                    assert(p[k] == s);
                } else {
                    assert(r[k - p.len()] == s);
                }
            }
            if p.contains(s) {
                let k = choose|k: int| 0 <= k < p.len() && p[k] == s;
                assert((p + r)[k] == s);
            }
            if r.contains(s) {
                let k = choose|k: int| 0 <= k < r.len() && r[k] == s;
                assert((p + r)[p.len() + k] == s);
            }
        }
        if exists|i: int|
            0 <= i < nodes.len() && (#[trigger] nodes[i]).id == id && node_carries(nodes[i], s) {
            let i = choose|i: int|
                0 <= i < nodes.len() && (#[trigger] nodes[i]).id == id && node_carries(nodes[i], s);
            if i > 0 {
                assert(rest[i - 1] == nodes[i]);
                assert(nodes[0].id != nodes[i].id);
            }
        }
        if nodes[0].id != id && shards_of_node(rest, id).contains(s) {
            let i = choose|i: int|
                0 <= i < rest.len() && (#[trigger] rest[i]).id == id && node_carries(rest[i], s);
            assert(nodes[i + 1] == rest[i]);
        }
    }
}

/// The shards of this node are those that its own entry of the placement carries.
pub proof fn law_local_shards_are_the_nodes_own(c: Config, out: Vec<u64>, s: u64)
    requires
        call_ensures(Config::local_shards, (&c,), out),
        forall|i: int, j: int|
            0 <= i < j < c.placement.nodes@.len() ==> (#[trigger] c.placement.nodes@[i]).id != (
            #[trigger] c.placement.nodes@[j]).id,
    ensures
        out@.contains(s) <==> exists|i: int|
            0 <= i < c.placement.nodes@.len() && (#[trigger] c.placement.nodes@[i]).id
                == c.node.id && node_carries(c.placement.nodes@[i], s),
        forall|i: int, j: int| 0 <= i < j < out@.len() ==> out@[i] < out@[j],
{
    lemma_shards_of_node(c.placement.nodes@, c.node.id, s);
}

/// The members of a shard are the nodes that carry it, in rising order.
pub proof fn law_members_are_the_nodes_that_carry(
    c: Config,
    shard_id: u64,
    out: Vec<u64>,
    id: u64,
)
    requires
        call_ensures(Config::shard_members, (&c, shard_id), out),
    ensures
        out@.contains(id) <==> exists|i: int|
            0 <= i < c.placement.nodes@.len() && (#[trigger] c.placement.nodes@[i]).id == id
                && node_carries(c.placement.nodes@[i], shard_id),
        out@.len() == carrier_count(c.placement.nodes@, shard_id),
        forall|i: int, j: int| 0 <= i < j < out@.len() ==> out@[i] <= out@[j],
{
    lemma_carriers(c.placement.nodes@, shard_id);
    let raw = carriers(c.placement.nodes@, shard_id);
    assert(is_sort_of(out@, raw));
    raw.to_multiset_ensures();
    out@.to_multiset_ensures();
    assert(out@.contains(id) <==> out@.to_multiset().count(id) > 0);
    assert(raw.contains(id) <==> raw.to_multiset().count(id) > 0);
}

/// The number of shards is one more than the largest that is carried, and 0 where none is.
pub proof fn law_shard_count_covers_every_shard(c: Config, n: u64, s: u64)
    requires
        call_ensures(Config::shard_count, (&c,), n),
    ensures
        some_node_carries(c.placement.nodes@, s) ==> s < n,
        n > 0 ==> some_node_carries(c.placement.nodes@, (n - 1) as u64),
{
    lemma_held(c.placement.nodes@, s);
    let all = held(c.placement.nodes@);
    if n > 0 {
        if all.len() == 0 {
            assert(n == 0);
        }
        lemma_held(c.placement.nodes@, (n - 1) as u64);
        assert(all.contains((n - 1) as u64));
    }
    if some_node_carries(c.placement.nodes@, s) {
        assert(all.contains(s));
    }
}


/// What the command line says goes before what the file says, of the node's number and its
/// address alone.
pub proof fn law_command_line_goes_first(
    config: Config,
    node_id: Option<u64>,
    listen: Option<String>,
    c: Config,
)
    requires
        call_ensures(Config::apply_overrides, (config, node_id, listen), c),
    ensures
        node_id matches Some(id) ==> c.node.id == id,
        node_id is None ==> c.node.id == config.node.id,
        listen matches Some(addr) ==> c.node.listen_addr == addr,
        listen is None ==> c.node.listen_addr == config.node.listen_addr,
        c.node.peers == config.node.peers && c.node.internal_listen_addr
            == config.node.internal_listen_addr,
        c.storage == config.storage && c.placement == config.placement && c.snapshot
            == config.snapshot && c.tls == config.tls && c.limits == config.limits,
{
}

/// Peers are held to the authority that is configured; only without one is anybody
/// trusted.
pub proof fn law_configured_authority_is_held_to(
    tls: TlsConfig,
    ca: FileRead,
    r: Result<ClientTrust, String>,
)
    requires
        call_ensures(TlsConfig::client_trust, (&tls, ca), r),
    ensures
        r matches Ok(t) ==> (t is SkipVerify <==> tls.ca_file is None),
        tls.ca_file is Some ==> (r is Ok <==> ca is Bytes),
        tls.ca_file is Some ==> (r matches Ok(t) ==> (ca matches FileRead::Bytes(pem) && t
            == ClientTrust::Ca(pem))),
        tls.ca_file is None ==> r is Ok,
{
}

} // verus!
