//! Which shard each stream lives on.
//!
//! A stream gets its shard once, when it is created.  Nodes exchange whole tables
//! and adopt only one of a higher version, so that they converge.

use vstd::prelude::*;

use crate::config::{ClientTrust, Config, FileRead, held};
use crate::endpoint::{normalize_endpoint, normalized};
use crate::maps::{IdMap, TextMap};
use crate::order::{increasing, lemma_filter_has, lists};
use crate::rpc_support::trust_of;
use crate::text::{ends_with, has_suffix, join2, join3, lemma_text_order_total, text_before};

verus! {

/// A stream's shard, and how often it changed hands.
#[derive(Clone, Copy, Debug, PartialEq, Eq, Structural)]
pub struct Owner {
    pub shard_id: u64,
    pub generation: u64,
}

/// The table of routes.
#[derive(Debug)]
pub struct RouteTable {
    pub version: u64,
    /// Shard of each stream.
    pub streams: TextMap<u64>,
    /// How many streams each shard has.
    pub shard_stream_counts: IdMap<u64>,
    /// Generation of each stream's owner, where it is known.
    pub stream_generations: TextMap<u64>,
}

/// Contents of a [`RouteTable`].
#[verifier::ext_equal]
pub struct RouteTableView {
    pub version: u64,
    pub streams: Map<Seq<char>, u64>,
    pub counts: Map<u64, u64>,
    pub generations: Map<Seq<char>, u64>,
}

impl View for RouteTable {
    type V = RouteTableView;

    open spec fn view(&self) -> RouteTableView {
        RouteTableView {
            version: self.version,
            streams: self.streams@,
            counts: self.shard_stream_counts@,
            generations: self.stream_generations@,
        }
    }
}

/// How many streams the shard is said to have.
pub open spec fn load_of(counts: Map<u64, u64>, shard: u64) -> u64 {
    if counts.dom().contains(shard) {
        counts[shard]
    } else {
        0
    }
}

/// `shard` has the fewest streams of these shards, and is the smallest that has.
pub open spec fn is_least_loaded(counts: Map<u64, u64>, shards: Seq<u64>, shard: u64) -> bool {
    &&& shards.contains(shard)
    &&& forall|s: u64| #[trigger]
        shards.contains(s) ==> load_of(counts, shard) < load_of(counts, s) || (load_of(
            counts,
            shard,
        ) == load_of(counts, s) && shard <= s)
}

/// The table with one stream more.
pub open spec fn with_stream(t: RouteTableView, stream: Seq<char>, shard: u64) -> RouteTableView {
    RouteTableView {
        version: (t.version + 1) as u64,
        streams: t.streams.insert(stream, shard),
        counts: t.counts.insert(shard, (load_of(t.counts, shard) + 1) as u64),
        generations: t.generations,
    }
}

/// The table with one stream less; the version is that of the table.
pub open spec fn without_stream(t: RouteTableView, stream: Seq<char>) -> RouteTableView {
    if t.streams.dom().contains(stream) {
        let shard = t.streams[stream];
        RouteTableView {
            streams: t.streams.remove(stream),
            counts: t.counts.insert(
                shard,
                if load_of(t.counts, shard) == 0 {
                    0
                } else {
                    (load_of(t.counts, shard) - 1) as u64
                },
            ),
            ..t
        }
    } else {
        t
    }
}

/// How many of the first `n` entries name the shard.
pub open spec fn entries_on(entries: Seq<(String, u64)>, shard: u64) -> nat
    decreases entries.len(),
{
    if entries.len() == 0 {
        0
    } else {
        entries_on(entries.drop_last(), shard) + if entries.last().1 == shard {
            1nat
        } else {
            0nat
        }
    }
}

/// The counts are those of the streams, one entry for each shard that has any.
pub open spec fn counts_match(counts: Map<u64, u64>, entries: Seq<(String, u64)>) -> bool {
    forall|s: u64|
        #![trigger counts.dom().contains(s)]
        (counts.dom().contains(s) <==> entries_on(entries, s) > 0) && (counts.dom().contains(s)
            ==> counts[s] == entries_on(entries, s))
}

impl RouteTable {
    pub open spec fn wf(&self) -> bool {
        self.streams.wf() && self.shard_stream_counts.wf() && self.stream_generations.wf()
    }

    /// The empty table.
    pub fn new() -> (t: RouteTable)
        ensures
            t.wf(),
            t@ == (RouteTableView {
                version: 0,
                streams: Map::empty(),
                counts: Map::empty(),
                generations: Map::empty(),
            }),
    {
        RouteTable {
            version: 0,
            streams: TextMap::new(),
            shard_stream_counts: IdMap::new(),
            stream_generations: TextMap::new(),
        }
    }

    /// The shard of the stream.
    pub fn lookup(&self, stream: &str) -> (r: Option<u64>)
        requires
            self.wf(),
        ensures
            r == (if self@.streams.dom().contains(stream@) {
                Some(self@.streams[stream@])
            } else {
                None
            }),
    {
        match self.streams.get(stream) {
            Some(shard) => Some(*shard),
            None => None,
        }
    }

    /// The owner of the stream; a generation that is not recorded is the first.
    pub fn lookup_owner(&self, stream: &str) -> (r: Option<Owner>)
        requires
            self.wf(),
        ensures
            r == owner_in(self@, stream@),
    {
        match self.streams.get(stream) {
            Some(shard) => {
                let generation: u64 = match self.stream_generations.get(stream) {
                    Some(g) => *g,
                    None => 1,
                };
                Some(Owner { shard_id: *shard, generation })
            },
            None => None,
        }
    }

    /// The shard that a new stream goes to: the one with the fewest streams, the
    /// smallest of equals; `None` if there is no shard.
    pub fn allocate(&self, shards: &Vec<u64>) -> (r: Option<u64>)
        requires
            self.wf(),
        ensures
            match r {
                Some(shard) => is_least_loaded(self@.counts, shards@, shard),
                None => shards@.len() == 0,
            },
    {
        let mut best: Option<(u64, u64)> = None;
        let mut i: usize = 0;
        while i < shards.len()
            invariant
                i <= shards@.len(),
                self.wf(),
                match best {
                    None => i == 0,
                    Some((shard, n)) => {
                        &&& i > 0
                        &&& n == load_of(self@.counts, shard)
                        &&& is_least_loaded(self@.counts, shards@.take(i as int), shard)
                    },
                },
            decreases shards@.len() - i,
        {
            let s = shards[i];
            let m: u64 = match self.shard_stream_counts.get(s) {
                Some(m) => *m,
                None => 0,
            };
            let better = match best {
                None => true,
                Some((shard, n)) => m < n || (m == n && s < shard),
            };
            let ghost past = shards@.take(i as int);
            let ghost now = shards@.take(i + 1);
            proof {
                assert(now =~= past.push(s));
                assert(now[i as int] == s);
                assert(now.contains(s));
                assert forall|x: u64| #[trigger] now.contains(x) implies past.contains(x) || x
                    == s by {
                    let k = choose|k: int| 0 <= k < now.len() && now[k] == x;
                    if k < i {
                        assert(past[k] == x);
                    }
                }
                if best is Some {
                    let shard = best->Some_0.0;
                    let k = choose|k: int| 0 <= k < past.len() && past[k] == shard;
                    assert(now[k] == shard);
                    assert(now.contains(shard));
                }
            }
            if better {
                best = Some((s, m));
            }
            i += 1;
        }
        proof {
            assert(shards@.take(shards@.len() as int) =~= shards@);
        }
        match best {
            Some((shard, _)) => Some(shard),
            None => None,
        }
    }

    /// Adds a stream, as the next version.
    pub fn insert(&mut self, stream: String, shard: u64)
        requires
            old(self).wf(),
            !old(self)@.streams.dom().contains(stream@),
            old(self)@.version < u64::MAX,
            load_of(old(self)@.counts, shard) < u64::MAX,
        ensures
            final(self).wf(),
            final(self)@ == with_stream(old(self)@, stream@, shard),
    {
        let n: u64 = match self.shard_stream_counts.get(shard) {
            Some(n) => *n,
            None => 0,
        };
        self.streams.insert(stream, shard);
        self.shard_stream_counts.insert(shard, n + 1);
        self.version = self.version + 1;
    }

    /// Takes a stream out, within the version.
    fn remove(&mut self, stream: &str)
        requires
            old(self).wf(),
        ensures
            final(self).wf(),
            final(self)@ == without_stream(old(self)@, stream@),
    {
        let shard = match self.streams.get(stream) {
            Some(shard) => *shard,
            None => return,
        };
        let n: u64 = match self.shard_stream_counts.get(shard) {
            Some(n) => *n,
            None => 0,
        };
        self.streams.remove(stream);
        self.shard_stream_counts.insert(shard, n.saturating_sub(1));
    }

    /// Counts the streams of every shard anew, within the version.
    pub fn recount(&mut self)
        requires
            old(self).wf(),
        ensures
            final(self).wf(),
            final(self)@.version == old(self)@.version,
            final(self).streams == old(self).streams,
            final(self).stream_generations == old(self).stream_generations,
            counts_match(final(self)@.counts, old(self).streams.entries@),
    {
        let mut counts: IdMap<u64> = IdMap::new();
        let mut i: usize = 0;
        proof {
            assert(self.streams.entries@.take(0) =~= Seq::<(String, u64)>::empty());
        }
        while i < self.streams.entries.len()
            invariant
                i <= self.streams.entries@.len(),
                counts.wf(),
                counts_match(counts@, self.streams.entries@.take(i as int)),
                i <= u64::MAX,
                forall|s: u64| #[trigger]
                    entries_on(self.streams.entries@.take(i as int), s) <= i,
            decreases self.streams.entries@.len() - i,
        {
            let shard = self.streams.entries[i].1;
            let n: u64 = match counts.get(shard) {
                Some(n) => *n,
                None => 0,
            };
            let ghost past = self.streams.entries@.take(i as int);
            let ghost now = self.streams.entries@.take(i + 1);
            let ghost before = counts@;
            proof {
                assert(now.drop_last() =~= past);
                assert(now.last().1 == shard);
                assert(n == entries_on(past, shard)) by {
                    assert(before.dom().contains(shard) <==> entries_on(past, shard) > 0);
                }
                assert(n <= i);
            }
            counts.insert(shard, n + 1);
            proof {
                assert forall|s: u64|
                    #![trigger counts@.dom().contains(s)]
                    (counts@.dom().contains(s) <==> entries_on(now, s) > 0) && (
                    counts@.dom().contains(s) ==> counts@[s] == entries_on(now, s)) by {
                    assert(before.dom().contains(s) <==> entries_on(past, s) > 0);
                }
                assert forall|s: u64| #[trigger] entries_on(now, s) <= i + 1 by {
                    assert(entries_on(past, s) <= i);
                }
            }
            i += 1;
        }
        proof {
            assert(self.streams.entries@.take(self.streams.entries@.len() as int)
                =~= self.streams.entries@);
        }
        self.shard_stream_counts = counts;
    }

    /// A copy of the table.
    pub fn copy(&self) -> (t: RouteTable)
        requires
            self.wf(),
        ensures
            t.wf(),
            t@ == self@,
    {
        RouteTable {
            version: self.version,
            streams: self.streams.copy(),
            shard_stream_counts: self.shard_stream_counts.copy(),
            stream_generations: self.stream_generations.copy(),
        }
    }

    /// True if both tables say the same.
    pub fn same(&self, other: &RouteTable) -> (r: bool)
        requires
            self.wf(),
            other.wf(),
        ensures
            r == (self@ == other@),
    {
        self.version == other.version && self.streams.same(&other.streams)
            && self.shard_stream_counts.same(&other.shard_stream_counts)
            && self.stream_generations.same(&other.stream_generations)
    }
}

/// The owner that the table gives for a stream.
pub open spec fn owner_in(t: RouteTableView, stream: Seq<char>) -> Option<Owner> {
    if t.streams.dom().contains(stream) {
        Some(
            Owner {
                shard_id: t.streams[stream],
                generation: if t.generations.dom().contains(stream) {
                    t.generations[stream]
                } else {
                    1
                },
            },
        )
    } else {
        None
    }
}

/// A path below a directory.
pub open spec fn below_dir(dir: Seq<char>, name: Seq<char>) -> Seq<char> {
    if dir.len() == 0 || has_suffix(dir, "/"@) {
        dir + name
    } else {
        dir + "/"@ + name
    }
}

/// The path of a file or directory below a directory.
pub fn path_below(dir: &str, name: &str) -> (path: String)
    ensures
        path@ == below_dir(dir@, name@),
{
    if dir.is_empty() || ends_with(dir, "/") {
        join2(dir, name)
    } else {
        join3(dir, "/", name)
    }
}

/// Where the table is kept.
pub fn routes_path(data_dir: &str) -> (path: String)
    ensures
        path@ == below_dir(data_dir@, "routes.json"@),
{
    path_below(data_dir, "routes.json")
}

/// The table as it was found on disk.
#[derive(Debug)]
pub enum TableFile {
    Missing,
    /// It could not be read.
    Unreadable(String),
    /// It could be read but is no table.
    Corrupt(String),
    Table(RouteTable),
}

/// A missing table is no error; one that cannot be read or understood is.
pub fn load_local(file: TableFile) -> (r: Result<Option<RouteTable>, String>)
    ensures
        match file {
            TableFile::Missing => r == Ok::<Option<RouteTable>, String>(None),
            TableFile::Table(t) => r == Ok::<Option<RouteTable>, String>(Some(t)),
            TableFile::Corrupt(e) => r matches Err(text) && text@ == "路由表损坏: "@ + e@,
            TableFile::Unreadable(e) => r matches Err(text) && text@ == "路由表读取失败: "@ + e@,
        },
{
    match file {
        TableFile::Missing => Ok(None),
        TableFile::Table(t) => Ok(Some(t)),
        TableFile::Corrupt(e) => Err(join2("路由表损坏: ", e.as_str())),
        TableFile::Unreadable(e) => Err(join2("路由表读取失败: ", e.as_str())),
    }
}

/// The routes that this node works with.
#[derive(Debug)]
pub struct RouteTableManager {
    pub mem: RouteTable,
    pub path: String,
    /// Shards that new streams may go to, in ascending order.
    pub shard_set: Vec<u64>,
    /// The nodes that the table is sent to, with their addresses.
    pub peers: Vec<(u64, String)>,
    pub tls: Option<ClientTrust>,
    pub self_id: u64,
}

/// The text where there is no shard for a stream.
pub open spec fn no_shard_text() -> Seq<char> {
    "放置表为空，无法分配 shard"@
}

/// The table of a node that knows no stream.
pub open spec fn empty_table() -> RouteTableView {
    RouteTableView {
        version: 0,
        streams: Map::empty(),
        counts: Map::empty(),
        generations: Map::empty(),
    }
}

/// The manager is that of the configuration, with an empty table.
pub open spec fn is_fresh_manager(
    m: RouteTableManager,
    config: Config,
    trust: Option<ClientTrust>,
) -> bool {
    &&& m.wf()
    &&& m.mem@ == empty_table()
    &&& lists(m.shard_set@, held(config.placement.nodes@).to_set())
    &&& m.peers@.len() == config.node.peers@.len()
    &&& forall|i: int|
        0 <= i < m.peers@.len() ==> (#[trigger] m.peers@[i]).0 == config.node.peers@[i].id
            && m.peers@[i].1@ == normalized(config.node.peers@[i].addr@)
    &&& m.tls == trust
    &&& m.self_id == config.node.id
}

/// The first table of the highest version, beginning with `best`.
pub open spec fn newest(best: Option<RouteTable>, tables: Seq<RouteTable>) -> Option<RouteTable>
    decreases tables.len(),
{
    if tables.len() == 0 {
        best
    } else {
        match newest(best, tables.drop_last()) {
            None => Some(tables.last()),
            Some(b) => if tables.last().version > b.version {
                Some(tables.last())
            } else {
                Some(b)
            },
        }
    }
}

/// The table that a node has after it was sent another; `written` tells whether that
/// one could be written.
pub open spec fn table_after(mem: RouteTable, sent: RouteTable, written: bool) -> RouteTable {
    if sent.version > mem.version && written {
        sent
    } else {
        mem
    }
}

impl RouteTableManager {
    pub open spec fn wf(&self) -> bool {
        self.mem.wf() && increasing(self.shard_set@)
    }

    /// Nothing but the table has changed.
    pub open spec fn differs_in_table(&self, other: &RouteTableManager) -> bool {
        &&& self.path == other.path
        &&& self.shard_set == other.shard_set
        &&& self.peers == other.peers
        &&& self.tls == other.tls
        &&& self.self_id == other.self_id
    }

    /// A manager with an empty table for the shards of the placement.
    pub fn new(config: &Config, path: String, ca: FileRead) -> (r: Result<
        RouteTableManager,
        String,
    >)
        ensures
            match trust_of(*config, ca) {
                Err(text) => r matches Err(e) && e@ == text,
                Ok(trust) => r matches Ok(m) && m.path == path && is_fresh_manager(
                    m,
                    *config,
                    trust,
                ),
            },
    {
        let tls = match &config.tls {
            None => None,
            Some(tls) => match tls.client_trust(ca) {
                Ok(trust) => Some(trust),
                Err(e) => return Err(e),
            },
        };
        let mut peers: Vec<(u64, String)> = Vec::new();
        let mut i: usize = 0;
        while i < config.node.peers.len()
            invariant
                i <= config.node.peers@.len(),
                peers@.len() == i,
                forall|k: int|
                    0 <= k < i ==> (#[trigger] peers@[k]).0 == config.node.peers@[k].id
                        && peers@[k].1@ == normalized(config.node.peers@[k].addr@),
            decreases config.node.peers@.len() - i,
        {
            let p = &config.node.peers[i];
            peers.push((p.id, normalize_endpoint(p.addr.as_str())));
            i += 1;
        }
        Ok(
            RouteTableManager {
                mem: RouteTable::new(),
                path,
                shard_set: config.placement.all_shards(),
                peers,
                tls,
                self_id: config.node.id,
            },
        )
    }

    /// The nodes that the table is sent to or asked for: all peers but this node.
    pub fn other_peers(&self) -> (out: Vec<(u64, String)>)
        ensures
            out@.map_values(|p: (u64, String)| p.0) == self.peers@.map_values(
                |p: (u64, String)| p.0,
            ).filter(|id: u64| id != self.self_id),
            forall|i: int|
                0 <= i < out@.len() ==> exists|j: int|
                    0 <= j < self.peers@.len() && #[trigger] self.peers@[j] == #[trigger] out@[i],
    {
        let mut out: Vec<(u64, String)> = Vec::new();
        let ghost ids = self.peers@.map_values(|p: (u64, String)| p.0);
        let ghost keep = |id: u64| id != self.self_id;
        let mut i: usize = 0;
        proof {
            reveal(Seq::filter);
            assert(ids.take(0) =~= Seq::<u64>::empty());
            assert(out@.map_values(|p: (u64, String)| p.0) =~= Seq::<u64>::empty());
        }
        while i < self.peers.len()
            invariant
                i <= self.peers@.len(),
                ids == self.peers@.map_values(|p: (u64, String)| p.0),
                keep == (|id: u64| id != self.self_id),
                out@.map_values(|p: (u64, String)| p.0) == ids.take(i as int).filter(keep),
                forall|k: int|
                    0 <= k < out@.len() ==> exists|j: int|
                        0 <= j < self.peers@.len() && #[trigger] self.peers@[j]
                            == #[trigger] out@[k],
            decreases self.peers@.len() - i,
        {
            proof {
                reveal(Seq::filter);
                assert(ids.take(i + 1).drop_last() =~= ids.take(i as int));
            }
            if self.peers[i].0 != self.self_id {
                let ghost was = out@;
                let pair = (self.peers[i].0, self.peers[i].1.clone());
                out.push(pair);
                proof {
                    assert(out@.map_values(|p: (u64, String)| p.0) =~= was.map_values(
                        |p: (u64, String)| p.0,
                    ).push(pair.0));
                    assert(self.peers@[i as int] == out@[was.len() as int]);
                }
            }
            i += 1;
        }
        proof {
            assert(ids.take(ids.len() as int) =~= ids);
        }
        out
    }

    /// Takes the table to start with: of the one on disk and those of the peers that
    /// answered, one of the highest version; the one on disk if it has it, else the first.
    /// While this node was away streams may have moved, and an old route would send new
    /// events to the wrong shard.  A file that cannot be read is an error.
    pub fn load(
        &mut self,
        local: Result<Option<RouteTable>, String>,
        remotes: Vec<RouteTable>,
    ) -> (r: Result<(), String>)
        requires
            old(self).wf(),
            local matches Ok(Some(t)) ==> t.wf(),
            forall|i: int| 0 <= i < remotes@.len() ==> (#[trigger] remotes@[i]).wf(),
        ensures
            final(self).wf(),
            final(self).differs_in_table(old(self)),
            match local {
                Err(e) => r == Err::<(), String>(e) && final(self).mem == old(self).mem,
                Ok(l) => {
                    &&& r is Ok
                    &&& final(self).mem == (match newest(l, remotes@) {
                        Some(t) => t,
                        None => old(self).mem,
                    })
                    &&& l matches Some(t) ==> t.version <= final(self).mem.version
                    &&& forall|i: int|
                        0 <= i < remotes@.len() ==> (#[trigger] remotes@[i]).version
                            <= final(self).mem.version
                },
            },
    {
        let mut best = match local {
            Ok(l) => l,
            Err(e) => return Err(e),
        };
        let ghost l = best;
        proof {
            assert(remotes@.take(0) =~= Seq::<RouteTable>::empty());
        }
        for t in it: remotes
            invariant
                it.seq() == remotes@,
                forall|i: int| 0 <= i < remotes@.len() ==> (#[trigger] remotes@[i]).wf(),
                best == newest(l, remotes@.take(it.index() as int)),
                best matches Some(b) ==> b.wf(),
                l matches Some(b) ==> best is Some && b.version <= best->0.version,
                forall|i: int|
                    0 <= i < it.index() ==> best is Some && (#[trigger] remotes@[i]).version
                        <= best->0.version,
        {
            proof {
                let n = it.index() as int;
                assert(remotes@[n] == t);
                assert(remotes@.take(n + 1).drop_last() =~= remotes@.take(n));
                assert(remotes@.take(n + 1).last() == t);
            }
            let newer = match &best {
                None => true,
                Some(b) => t.version > b.version,
            };
            if newer {
                best = Some(t);
            }
        }
        proof {
            assert(remotes@.take(remotes@.len() as int) =~= remotes@);
        }
        match best {
            Some(t) => {
                self.mem = t;
            },
            None => {},
        }
        Ok(())
    }

    /// The table to be written where none is on disk; `None` if there is one.
    pub fn ensure_file(&self, on_disk: bool) -> (r: Option<RouteTable>)
        requires
            self.wf(),
        ensures
            on_disk ==> r is None,
            !on_disk ==> (r matches Some(t) && t.wf() && t@ == self.mem@),
    {
        if on_disk {
            None
        } else {
            Some(self.mem.copy())
        }
    }

    /// The shard of the stream.
    pub fn lookup(&self, stream: &str) -> (r: Option<u64>)
        requires
            self.wf(),
        ensures
            r == (if self.mem@.streams.dom().contains(stream@) {
                Some(self.mem@.streams[stream@])
            } else {
                None
            }),
    {
        self.mem.lookup(stream)
    }

    /// Finds the shard of the stream, or gives it one: the shard with the fewest
    /// streams.  True if the stream is new; the table then has its next version and is
    /// to be written and sent.
    pub fn allocate(&mut self, stream: &str) -> (r: Result<(u64, bool), String>)
        requires
            old(self).wf(),
            old(self).mem@.version < u64::MAX,
            forall|s: u64| #[trigger]
                old(self).shard_set@.contains(s) ==> load_of(old(self).mem@.counts, s) < u64::MAX,
        ensures
            final(self).wf(),
            final(self).differs_in_table(old(self)),
            if old(self).mem@.streams.dom().contains(stream@) {
                &&& r == Ok::<(u64, bool), String>((old(self).mem@.streams[stream@], false))
                &&& final(self).mem == old(self).mem
            } else if old(self).shard_set@.len() == 0 {
                &&& r matches Err(e) && e@ == no_shard_text()
                &&& final(self).mem == old(self).mem
            } else {
                &&& r matches Ok((shard, inserted))
                &&& inserted
                &&& is_least_loaded(old(self).mem@.counts, old(self).shard_set@, shard)
                &&& final(self).mem@ == with_stream(old(self).mem@, stream@, shard)
            },
    {
        if let Some(shard) = self.mem.lookup(stream) {
            return Ok((shard, false));
        }
        match self.mem.allocate(&self.shard_set) {
            None => Err(String::from_str("放置表为空，无法分配 shard")),
            Some(shard) => {
                self.mem.insert(String::from_str(stream), shard);
                Ok((shard, true))
            },
        }
    }

    /// Moves the stream to a shard, as the next version; a stream that is there
    /// already stays, and so does the version.  The table is to be written and sent.
    pub fn set_stream_shard(&mut self, stream: &str, shard: u64) -> (table: RouteTable)
        requires
            old(self).wf(),
            old(self).mem@.version < u64::MAX,
            load_of(old(self).mem@.counts, shard) < u64::MAX,
        ensures
            final(self).wf(),
            final(self).differs_in_table(old(self)),
            final(self).mem@ == (if old(self).mem@.streams.dom().contains(stream@) && old(self).mem@.streams[stream@] == shard {
                old(self).mem@
            } else {
                with_stream(without_stream(old(self).mem@, stream@), stream@, shard)
            }),
            table.wf(),
            table@ == final(self).mem@,
    {
        let current = self.mem.lookup(stream);
        match current {
            Some(s) => {
                if s == shard {
                    return self.mem.copy();
                }
            },
            None => {},
        }
        self.mem.remove(stream);
        self.mem.insert(String::from_str(stream), shard);
        self.mem.copy()
    }

    /// True if a table that another node sent is taken over: its version is higher.  It is
    /// then to be written first.
    pub fn wants(&self, table: &RouteTable) -> (r: bool)
        ensures
            r == (table.version > self.mem.version),
    {
        table.version > self.mem.version
    }

    /// Takes over a table that another node sent, if its version is higher and it could
    /// be written; `persisted` tells what came of writing it, which is not looked at
    /// where the table is not wanted.
    pub fn apply_remote(&mut self, table: RouteTable, persisted: Result<(), String>) -> (r: Result<
        (),
        String,
    >)
        requires
            old(self).wf(),
            table.wf(),
        ensures
            final(self).wf(),
            final(self).differs_in_table(old(self)),
            r == (if table.version > old(self).mem.version {
                persisted
            } else {
                Ok::<(), String>(())
            }),
            final(self).mem == table_after(old(self).mem, table, persisted is Ok),
    {
        if !self.wants(&table) {
            return Ok(());
        }
        match persisted {
            Ok(done) => {
                self.mem = table;
                Ok(done)
            },
            Err(e) => Err(e),
        }
    }

    /// Takes over the table on disk after it changed, if its version is higher.  A
    /// file that is missing or broken changes nothing.
    pub fn reload(&mut self, file: Result<Option<RouteTable>, String>) -> (adopted: bool)
        requires
            old(self).wf(),
            file matches Ok(Some(t)) ==> t.wf(),
        ensures
            final(self).wf(),
            final(self).differs_in_table(old(self)),
            match file {
                Ok(Some(t)) => adopted == (t.version > old(self).mem.version)
                    && final(self).mem == table_after(old(self).mem, t, true),
                _ => !adopted && final(self).mem == old(self).mem,
            },
    {
        match file {
            Ok(Some(t)) => {
                if !self.wants(&t) {
                    return false;
                }
                self.mem = t;
                true
            },
            _ => false,
        }
    }

    /// Counts the streams of every shard anew, within the version.  The table is to be
    /// written and sent.
    pub fn recount(&mut self) -> (table: RouteTable)
        requires
            old(self).wf(),
        ensures
            table.wf(),
            table@ == final(self).mem@,
            final(self).wf(),
            final(self).differs_in_table(old(self)),
            final(self).mem@.version == old(self).mem@.version,
            final(self).mem.streams == old(self).mem.streams,
            final(self).mem.stream_generations == old(self).mem.stream_generations,
            counts_match(final(self).mem@.counts, old(self).mem.streams.entries@),
    {
        self.mem.recount();
        self.mem.copy()
    }

    /// A copy of the table.
    pub fn snapshot(&self) -> (t: RouteTable)
        requires
            self.wf(),
        ensures
            t.wf(),
            t@ == self.mem@,
    {
        self.mem.copy()
    }

    /// Sets the shards that new streams may go to.
    pub fn set_shard_set(&mut self, shards: Vec<u64>)
        requires
            old(self).wf(),
            increasing(shards@),
        ensures
            final(self).wf(),
            final(self).shard_set == shards,
            final(self).mem == old(self).mem,
            final(self).path == old(self).path,
            final(self).peers == old(self).peers,
            final(self).tls == old(self).tls,
            final(self).self_id == old(self).self_id,
    {
        self.shard_set = shards;
    }
}

/// A table as nodes exchange it.
#[derive(Debug)]
pub struct ProtoRouteTable {
    pub version: u64,
    pub streams: Vec<(String, u64)>,
    pub shard_stream_counts: Vec<(u64, u64)>,
}

/// The map that a list of pairs spells; of two pairs with one key the later counts.
pub open spec fn text_pairs(pairs: Seq<(String, u64)>) -> Map<Seq<char>, u64>
    decreases pairs.len(),
{
    if pairs.len() == 0 {
        Map::empty()
    } else {
        text_pairs(pairs.drop_last()).insert(pairs.last().0@, pairs.last().1)
    }
}

/// The map that a list of pairs spells; of two pairs with one key the later counts.
pub open spec fn id_pairs(pairs: Seq<(u64, u64)>) -> Map<u64, u64>
    decreases pairs.len(),
{
    if pairs.len() == 0 {
        Map::empty()
    } else {
        id_pairs(pairs.drop_last()).insert(pairs.last().0, pairs.last().1)
    }
}

/// Reads a table that another node sent; a missing one is empty.
pub fn proto_to_table(t: Option<ProtoRouteTable>) -> (r: RouteTable)
    ensures
        r.wf(),
        r@ == (match t {
            Some(p) => RouteTableView {
                version: p.version,
                streams: text_pairs(p.streams@),
                counts: id_pairs(p.shard_stream_counts@),
                generations: Map::empty(),
            },
            None => RouteTableView {
                version: 0,
                streams: Map::empty(),
                counts: Map::empty(),
                generations: Map::empty(),
            },
        }),
{
    match t {
        None => RouteTable::new(),
        Some(p) => {
            let mut streams: TextMap<u64> = TextMap::new();
            let pairs = p.streams;
            proof {
                assert(pairs@.take(0) =~= Seq::<(String, u64)>::empty());
            }
            for pair in it: pairs
                invariant
                    it.seq() == pairs@,
                    streams.wf(),
                    streams@ == text_pairs(pairs@.take(it.index() as int)),
            {
                proof {
                    let n = it.index() as int;
                    assert(pairs@.take(n + 1).drop_last() =~= pairs@.take(n));
                }
                streams.insert(pair.0, pair.1);
            }
            proof {
                assert(pairs@.take(pairs@.len() as int) =~= pairs@);
            }
            let mut counts: IdMap<u64> = IdMap::new();
            let mut i: usize = 0;
            proof {
                assert(p.shard_stream_counts@.take(0) =~= Seq::<(u64, u64)>::empty());
            }
            while i < p.shard_stream_counts.len()
                invariant
                    i <= p.shard_stream_counts@.len(),
                    counts.wf(),
                    counts@ == id_pairs(p.shard_stream_counts@.take(i as int)),
                decreases p.shard_stream_counts@.len() - i,
            {
                proof {
                    assert(p.shard_stream_counts@.take(i + 1).drop_last()
                        =~= p.shard_stream_counts@.take(i as int));
                }
                counts.insert(p.shard_stream_counts[i].0, p.shard_stream_counts[i].1);
                i += 1;
            }
            proof {
                assert(p.shard_stream_counts@.take(p.shard_stream_counts@.len() as int)
                    =~= p.shard_stream_counts@);
            }
            RouteTable {
                version: p.version,
                streams,
                shard_stream_counts: counts,
                stream_generations: TextMap::new(),
            }
        },
    }
}

/// `p` is the table as nodes exchange it: its entries in key order.
pub open spec fn writes_table(p: ProtoRouteTable, t: RouteTable) -> bool {
    &&& p.version == t.version
    &&& p.streams@.len() == t.streams.entries@.len()
    &&& forall|i: int|
        0 <= i < p.streams@.len() ==> (#[trigger] p.streams@[i]).0@ == t.streams.entries@[i].0@
            && p.streams@[i].1 == t.streams.entries@[i].1
    &&& p.shard_stream_counts@ == t.shard_stream_counts.entries@
}

/// Writes a table for another node.
pub fn table_to_proto(t: &RouteTable) -> (p: ProtoRouteTable)
    requires
        t.wf(),
    ensures
        writes_table(p, *t),
{
    let streams = t.streams.copy_entries();
    let mut counts: Vec<(u64, u64)> = Vec::new();
    let mut i: usize = 0;
    while i < t.shard_stream_counts.entries.len()
        invariant
            i <= t.shard_stream_counts.entries@.len(),
            counts@ == t.shard_stream_counts.entries@.take(i as int),
        decreases t.shard_stream_counts.entries@.len() - i,
    {
        counts.push(t.shard_stream_counts.entries[i]);
        proof {
            assert(t.shard_stream_counts.entries@.take(i + 1)
                =~= t.shard_stream_counts.entries@.take(i as int).push(
                t.shard_stream_counts.entries@[i as int],
            ));
        }
        i += 1;
    }
    assert(counts@ =~= t.shard_stream_counts.entries@);
    ProtoRouteTable { version: t.version, streams, shard_stream_counts: counts }
}

proof fn lemma_text_pairs(m: TextMap<u64>, pairs: Seq<(String, u64)>, n: int)
    requires
        m.wf(),
        0 <= n <= pairs.len(),
        pairs.len() == m.entries@.len(),
        forall|i: int|
            0 <= i < pairs.len() ==> (#[trigger] pairs[i]).0@ == m.key(i) && pairs[i].1
                == m.entries@[i].1,
    ensures
        forall|k: Seq<char>| #[trigger]
            text_pairs(pairs.take(n)).dom().contains(k) <==> exists|i: int|
                0 <= i < n && #[trigger] m.key(i) == k,
        forall|i: int|
            0 <= i < n ==> text_pairs(pairs.take(n))[#[trigger] m.key(i)] == m.entries@[i].1,
    decreases n,
{
    if n > 0 {
        lemma_text_pairs(m, pairs, n - 1);
        assert(pairs.take(n).drop_last() =~= pairs.take(n - 1));
        let rest = text_pairs(pairs.take(n - 1));
        let now = text_pairs(pairs.take(n));
        assert(pairs.take(n).last() == pairs[n - 1]);
        assert(pairs[n - 1].0@ == m.key(n - 1));
        assert forall|k: Seq<char>| #[trigger] now.dom().contains(k) <==> exists|i: int|
            0 <= i < n && #[trigger] m.key(i) == k by {
            if rest.dom().contains(k) {
                let i = choose|i: int| 0 <= i < n - 1 && #[trigger] m.key(i) == k;
                assert(m.key(i) == k);
            }
            if exists|i: int| 0 <= i < n && #[trigger] m.key(i) == k {
                let i = choose|i: int| 0 <= i < n && #[trigger] m.key(i) == k;
                if i < n - 1 {
                    assert(rest.dom().contains(k));
                }
            }
        }
        assert forall|i: int| 0 <= i < n implies now[#[trigger] m.key(i)] == m.entries@[i].1 by {
            if i < n - 1 {
                assert(text_before(m.key(i), m.key(n - 1)));
                lemma_text_order_total(m.key(i), m.key(n - 1));
            }
        }
    }
}

/// A table that is sent and read again says the same of streams and counts.
pub proof fn law_table_survives_exchange(t: RouteTable, p: ProtoRouteTable)
    requires
        t.wf(),
        writes_table(p, t),
    ensures
        text_pairs(p.streams@) == t@.streams,
        id_pairs(p.shard_stream_counts@) == t@.counts,
{
    let n = p.streams@.len() as int;
    assert forall|i: int| 0 <= i < n implies (#[trigger] p.streams@[i]).0@ == t.streams.key(i)
        && p.streams@[i].1 == t.streams.entries@[i].1 by {}
    lemma_text_pairs(t.streams, p.streams@, n);
    assert(p.streams@.take(n) =~= p.streams@);
    let m = text_pairs(p.streams@);
    assert forall|k: Seq<char>|
        #![trigger m.dom().contains(k)]
        m.dom().contains(k) == t@.streams.dom().contains(k) && (m.dom().contains(k) ==> m[k]
            == t@.streams[k]) by {
        if m.dom().contains(k) {
            let i = choose|i: int| 0 <= i < n && #[trigger] t.streams.key(i) == k;
            t.streams.lemma_entry(i);
        }
        if t@.streams.dom().contains(k) {
            let i = t.streams.index(k);
            assert(t.streams.key(i) == k);
        }
    }
    assert(m =~= t@.streams);
    let c = p.shard_stream_counts@;
    lemma_id_pairs(t.shard_stream_counts, c.len() as int);
    assert(c.take(c.len() as int) =~= c);
    let w = id_pairs(c);
    assert forall|k: u64|
        #![trigger w.dom().contains(k)]
        w.dom().contains(k) == t@.counts.dom().contains(k) && (w.dom().contains(k) ==> w[k]
            == t@.counts[k]) by {
        if w.dom().contains(k) {
            let i = choose|i: int|
                0 <= i < c.len() && #[trigger] t.shard_stream_counts.key(i) == k;
            t.shard_stream_counts.lemma_entry(i);
        }
        if t@.counts.dom().contains(k) {
            let i = t.shard_stream_counts.index(k);
            assert(t.shard_stream_counts.key(i) == k);
        }
    }
    assert(w =~= t@.counts);
}

proof fn lemma_id_pairs(m: IdMap<u64>, n: int)
    requires
        m.wf(),
        0 <= n <= m.entries@.len(),
    ensures
        forall|k: u64| #[trigger]
            id_pairs(m.entries@.take(n)).dom().contains(k) <==> exists|i: int|
                0 <= i < n && #[trigger] m.key(i) == k,
        forall|i: int|
            0 <= i < n ==> id_pairs(m.entries@.take(n))[#[trigger] m.key(i)] == m.entries@[i].1,
    decreases n,
{
    if n > 0 {
        let pairs = m.entries@;
        lemma_id_pairs(m, n - 1);
        assert(pairs.take(n).drop_last() =~= pairs.take(n - 1));
        let rest = id_pairs(pairs.take(n - 1));
        let now = id_pairs(pairs.take(n));
        assert(pairs.take(n).last() == pairs[n - 1]);
        assert forall|k: u64| #[trigger] now.dom().contains(k) <==> exists|i: int|
            0 <= i < n && #[trigger] m.key(i) == k by {
            if rest.dom().contains(k) {
                let i = choose|i: int| 0 <= i < n - 1 && #[trigger] m.key(i) == k;
                assert(m.key(i) == k);
            }
            if exists|i: int| 0 <= i < n && #[trigger] m.key(i) == k {
                let i = choose|i: int| 0 <= i < n && #[trigger] m.key(i) == k;
                if i < n - 1 {
                    assert(rest.dom().contains(k));
                }
            }
            assert(m.key(n - 1) == pairs[n - 1].0);
        }
        assert forall|i: int| 0 <= i < n implies now[#[trigger] m.key(i)] == m.entries@[i].1 by {
            if i < n - 1 {
                assert(m.key(i) < m.key(n - 1));
            }
        }
    }
}

/// The table that a node has after these were sent to it, with whether each could be
/// written.
pub open spec fn table_after_all(mem: RouteTable, sent: Seq<(RouteTable, bool)>) -> RouteTable
    decreases sent.len(),
{
    if sent.len() == 0 {
        mem
    } else {
        table_after(table_after_all(mem, sent.drop_last()), sent.last().0, sent.last().1)
    }
}

/// The version of a node's table never goes down, whatever it is sent; the table is the
/// one that it had or one that it was sent and could write, and no other of these has a
/// higher version.
pub proof fn law_versions_converge(mem: RouteTable, sent: Seq<(RouteTable, bool)>)
    ensures
        ({
            let now = table_after_all(mem, sent);
            &&& now.version >= mem.version
            &&& forall|i: int|
                0 <= i < sent.len() && (#[trigger] sent[i]).1 ==> now.version >= sent[i].0.version
            &&& now == mem || exists|i: int|
                0 <= i < sent.len() && (#[trigger] sent[i]).1 && sent[i].0 == now
        }),
    decreases sent.len(),
{
    if sent.len() > 0 {
        let rest = sent.drop_last();
        law_versions_converge(mem, rest);
        let before = table_after_all(mem, rest);
        let now = table_after_all(mem, sent);
        assert forall|i: int| 0 <= i < sent.len() && (#[trigger] sent[i]).1 implies now.version
            >= sent[i].0.version by {
            if i < rest.len() {
                assert(rest[i] == sent[i]);
            }
        }
        if now == before && before != mem {
            let k = choose|k: int|
                0 <= k < rest.len() && (#[trigger] rest[k]).1 && rest[k].0 == before;
            assert(sent[k].1 && sent[k].0 == now);
        } else if now != before {
            assert(sent[sent.len() - 1].1 && sent[sent.len() - 1].0 == now);
        }
    }
}

/// To be sent a table twice is to be sent it once, and where it could not be written
/// nothing changes.
pub proof fn law_repeated_table_changes_nothing(mem: RouteTable, sent: RouteTable, written: bool)
    ensures
        table_after(table_after(mem, sent, written), sent, written) == table_after(
            mem,
            sent,
            written,
        ),
        table_after(mem, sent, false) == mem,
{
}


/// A stream belongs to the shard that the table holds for it, in the generation that it
/// holds or else the first; a stream that the table does not hold belongs to none.
pub proof fn law_owner_is_what_the_table_holds(
    t: RouteTable,
    stream: &str,
    shard: Option<u64>,
    owner: Option<Owner>,
)
    requires
        call_ensures(RouteTable::lookup, (&t, stream), shard),
        call_ensures(RouteTable::lookup_owner, (&t, stream), owner),
    ensures
        shard is Some <==> t.streams@.dom().contains(stream@),
        owner is Some <==> t.streams@.dom().contains(stream@),
        shard matches Some(s) ==> s == t.streams@[stream@],
        owner matches Some(o) ==> {
            &&& o.shard_id == t.streams@[stream@]
            &&& t.stream_generations@.dom().contains(stream@) ==> o.generation
                == t.stream_generations@[stream@]
            &&& !t.stream_generations@.dom().contains(stream@) ==> o.generation == 1
        },
{
}

/// How many streams the table counts for the shard.
pub open spec fn counted(t: RouteTable, shard: u64) -> u64 {
    if t.shard_stream_counts@.dom().contains(shard) {
        t.shard_stream_counts@[shard]
    } else {
        0
    }
}

/// A new stream goes to one of the shards; no shard has fewer streams, and of those with
/// as few it is the one with the smallest number.
pub proof fn law_new_stream_goes_to_the_least_loaded_shard(
    t: RouteTable,
    shards: Vec<u64>,
    r: Option<u64>,
    other: u64,
)
    requires
        call_ensures(RouteTable::allocate, (&t, &shards), r),
    ensures
        r is None <==> shards@.len() == 0,
        r matches Some(shard) ==> shards@.contains(shard),
        r matches Some(shard) ==> (shards@.contains(other) ==> counted(t, shard) < counted(
            t,
            other,
        ) || (counted(t, shard) == counted(t, other) && shard <= other)),
{
    if let Some(shard) = r {
        assert(shards@.contains(shard));
        let k = choose|k: int| 0 <= k < shards@.len() && shards@[k] == shard;
        assert(shards@.len() > 0);
    }
}

/// A stream that is entered is found on its shard from then on; it counts there, no other
/// stream moves, and the version of the table goes up by one.
pub proof fn law_entered_stream_is_found_and_counted(
    this: &mut RouteTable,
    stream: String,
    shard: u64,
    x: Seq<char>,
    other: u64,
)
    requires
        old(this).version < u64::MAX,
        counted(*old(this), shard) < u64::MAX,
        call_ensures(RouteTable::insert, (this, stream, shard), ()),
    ensures
        final(this).version == old(this).version + 1,
        final(this).streams@.dom().contains(stream@) && final(this).streams@[stream@] == shard,
        x != stream@ ==> (final(this).streams@.dom().contains(x) <==> old(this).streams@.dom().contains(x)) && (old(this).streams@.dom().contains(x) ==> final(this).streams@[x] == old(this).streams@[x]),
        counted(*final(this), shard) == counted(*old(this), shard) + 1,
        other != shard ==> counted(*final(this), other) == counted(*old(this), other),
        final(this).stream_generations@ == old(this).stream_generations@,
{
    let was = old(this)@;
    let now = final(this)@;
    assert(now == with_stream(was, stream@, shard));
    assert(now.counts == final(this).shard_stream_counts@);
    assert(was.counts == old(this).shard_stream_counts@);
    assert(now.streams == final(this).streams@);
    assert(now.generations == final(this).stream_generations@);
}

/// A stream that has a shard keeps it; one that has none is entered on the least loaded
/// shard; without shards the request is refused and nothing changes.
pub proof fn law_allocation_keeps_known_streams(
    this: &mut RouteTableManager,
    stream: &str,
    r: Result<(u64, bool), String>,
    other: u64,
)
    requires
        old(this).mem.version < u64::MAX,
        call_ensures(RouteTableManager::allocate, (this, stream), r),
    ensures
        old(this).mem.streams@.dom().contains(stream@) ==> (r matches Ok((shard, inserted))
            && !inserted && shard == old(this).mem.streams@[stream@] && final(this).mem == old(this).mem),
        !old(this).mem.streams@.dom().contains(stream@) && old(this).shard_set@.len() == 0
            ==> r is Err && final(this).mem == old(this).mem,
        !old(this).mem.streams@.dom().contains(stream@) && old(this).shard_set@.len() > 0 ==> {
            &&& r matches Ok((shard, inserted))
            &&& inserted && old(this).shard_set@.contains(shard)
            &&& final(this).mem.streams@.dom().contains(stream@)
                && final(this).mem.streams@[stream@] == shard
            &&& final(this).mem.version == old(this).mem.version + 1
            &&& old(this).shard_set@.contains(other) ==> counted(old(this).mem, shard) < counted(
                old(this).mem,
                other,
            ) || (counted(old(this).mem, shard) == counted(old(this).mem, other) && shard <= other)
        },
{
    assert(old(this).mem@.streams == old(this).mem.streams@);
    assert(old(this).mem@.counts == old(this).mem.shard_stream_counts@);
    assert(final(this).mem@.streams == final(this).mem.streams@);
    if let Ok((shard, inserted)) = r {
        if inserted {
            assert(final(this).mem@.version == final(this).mem.version);
        }
    }
}

/// A stream that is set to another shard leaves the count of the one it was on and joins
/// that of the new one, in a new version of the table; one that is there already changes
/// nothing.
pub proof fn law_moved_stream_is_counted_where_it_goes(
    this: &mut RouteTableManager,
    stream: &str,
    shard: u64,
    table: RouteTable,
    other: u64,
)
    requires
        old(this).mem.version < u64::MAX,
        counted(old(this).mem, shard) < u64::MAX,
        call_ensures(RouteTableManager::set_stream_shard, (this, stream, shard), table),
    ensures
        table@ == final(this).mem@,
        final(this).mem.streams@.dom().contains(stream@) && final(this).mem.streams@[stream@]
            == shard,
        ({
            let was = old(this).mem;
            let now = final(this).mem;
            let known = was.streams@.dom().contains(stream@);
            if known && was.streams@[stream@] == shard {
                now@ == was@
            } else {
                &&& now.version == was.version + 1
                &&& counted(now, shard) == counted(was, shard) + 1
                &&& known && counted(was, was.streams@[stream@]) > 0 ==> counted(
                    now,
                    was.streams@[stream@],
                ) == counted(was, was.streams@[stream@]) - 1
                &&& other != shard && (!known || other != was.streams@[stream@]) ==> counted(
                    now,
                    other,
                ) == counted(was, other)
            }
        }),
{
    let was = old(this).mem;
    let now = final(this).mem;
    assert(now@.counts == now.shard_stream_counts@ && was@.counts == was.shard_stream_counts@);
    assert(now@.streams == now.streams@ && was@.streams == was.streams@);
    assert(now@.version == now.version && was@.version == was.version);
}

proof fn lemma_entries_on(entries: Seq<(String, u64)>, shard: u64)
    ensures
        entries_on(entries, shard) == entries.filter(|e: (String, u64)| e.1 == shard).len(),
    decreases entries.len(),
{
    reveal(Seq::filter);
    if entries.len() > 0 {
        lemma_entries_on(entries.drop_last(), shard);
    }
}

/// A recount counts for each shard the streams that the table holds there, and changes
/// nothing else.
pub proof fn law_recount_counts_the_streams(this: &mut RouteTable, shard: u64)
    requires
        call_ensures(RouteTable::recount, (this,), ()),
    ensures
        counted(*final(this), shard) == old(this).streams.entries@.filter(
            |e: (String, u64)| e.1 == shard,
        ).len(),
        final(this).version == old(this).version,
        final(this).streams@ == old(this).streams@,
        final(this).stream_generations@ == old(this).stream_generations@,
{
    lemma_entries_on(old(this).streams.entries@, shard);
    let counts = final(this)@.counts;
    assert(counts == final(this).shard_stream_counts@);
    assert(counts_match(counts, old(this).streams.entries@));
    assert(counts.dom().contains(shard) <==> entries_on(old(this).streams.entries@, shard) > 0);
    assert(final(this)@.version == final(this).version);
    assert(old(this)@.version == old(this).version);
}

/// A table that is sent is taken over exactly where it is newer and was written down.
pub proof fn law_only_newer_tables_are_taken_over(
    this: &mut RouteTableManager,
    table: RouteTable,
    persisted: Result<(), String>,
    r: Result<(), String>,
    wanted: bool,
)
    requires
        call_ensures(RouteTableManager::apply_remote, (this, table, persisted), r),
        call_ensures(RouteTableManager::wants, (old(this), &table), wanted),
    ensures
        wanted <==> table.version > old(this).mem.version,
        table.version > old(this).mem.version && persisted is Ok ==> r is Ok && final(this).mem
            == table,
        table.version > old(this).mem.version && persisted is Err ==> r is Err && final(this).mem
            == old(this).mem,
        table.version <= old(this).mem.version ==> r is Ok && final(this).mem == old(this).mem,
{
}

/// A file is taken over exactly where it holds a newer table.
pub proof fn law_only_newer_files_are_taken_over(
    this: &mut RouteTableManager,
    file: Result<Option<RouteTable>, String>,
    adopted: bool,
)
    requires
        call_ensures(RouteTableManager::reload, (this, file), adopted),
    ensures
        adopted <==> (file matches Ok(Some(t)) && t.version > old(this).mem.version),
        adopted ==> (file matches Ok(Some(t)) && final(this).mem == t),
        !adopted ==> final(this).mem == old(this).mem,
{
}

/// Of the tables that are found the newest one is taken: one of them, than which none is
/// newer; what is found first stays where another is only as new.
pub proof fn law_newest_table_is_taken(
    best: Option<RouteTable>,
    tables: Seq<RouteTable>,
    i: int,
)
    ensures
        newest(best, tables) is None <==> best is None && tables.len() == 0,
        newest(best, tables) matches Some(t) ==> best == Some(t) || tables.contains(t),
        newest(best, tables) matches Some(t) ==> (best matches Some(b) ==> b.version <= t.version),
        newest(best, tables) matches Some(t) ==> (0 <= i < tables.len() ==> tables[i].version
            <= t.version),
        newest(best, tables) matches Some(t) ==> (best matches Some(b) ==> (b.version == t.version
            ==> t == b)),
    decreases tables.len(),
{
    if tables.len() > 0 {
        let rest = tables.drop_last();
        let n = tables.len() - 1;
        law_newest_table_is_taken(best, rest, i);
        assert(tables.last() == tables[n]);
        if let Some(t) = newest(best, rest) {
            if rest.contains(t) {
                let k = choose|k: int| 0 <= k < rest.len() && rest[k] == t;
                assert(tables[k] == t);
            }
        }
        assert(tables.contains(tables[n]));
        if 0 <= i < n {
            assert(rest[i] == tables[i]);
        }
    }
}

/// A file lies in its directory: one separator stands between the two, and none where the
/// directory is not named or ends with one.
pub proof fn law_file_lies_in_its_directory(dir: &str, name: &str, path: String)
    requires
        call_ensures(path_below, (dir, name), path),
    ensures
        dir@.len() == 0 ==> path@ == name@,
        dir@.len() > 0 && dir@.last() != '/' ==> path@ == dir@ + "/"@ + name@,
        dir@.len() > 0 && dir@.last() == '/' ==> path@ == dir@ + name@,
{
    reveal_strlit("/");
    if dir@.len() > 0 {
        assert(dir@.subrange(dir@.len() - 1, dir@.len() as int)[0] == dir@.last());
        if dir@.last() == '/' {
            assert(dir@.subrange(dir@.len() - 1, dir@.len() as int) =~= "/"@);
        }
    } else {
        assert(dir@ + name@ =~= name@);
    }
}

/// A new manager knows no stream, allocates to every shard that a node carries, and knows
/// the peers by their full addresses.
pub proof fn law_new_manager_knows_shards_and_peers(
    config: Config,
    path: String,
    ca: FileRead,
    r: Result<RouteTableManager, String>,
    x: Seq<char>,
    i: int,
    shard: u64,
)
    requires
        call_ensures(RouteTableManager::new, (&config, path, ca), r),
    ensures
        r matches Ok(m) ==> {
            &&& m.path@ == path@ && m.self_id == config.node.id
            &&& m.mem.version == 0 && !m.mem.streams@.dom().contains(x)
            &&& m.peers@.len() == config.node.peers@.len()
            &&& 0 <= i < m.peers@.len() ==> m.peers@[i].0 == config.node.peers@[i].id
                && m.peers@[i].1@ == normalized(config.node.peers@[i].addr@)
            &&& m.shard_set@.contains(shard) <==> held(config.placement.nodes@).contains(shard)
        },
        config.tls is None ==> (r matches Ok(m) && m.tls is None),
{
    if let Ok(m) = r {
        let all = held(config.placement.nodes@);
        assert(all.to_set().contains(shard) <==> all.contains(shard));
        assert(m.shard_set@.contains(shard) <==> all.to_set().contains(shard));
        assert(m.mem@ == empty_table());
        assert(m.mem@.streams == m.mem.streams@);
        assert(m.mem@.version == m.mem.version);
        if 0 <= i < m.peers@.len() {
            assert(m.peers@[i].0 == config.node.peers@[i].id);
        }
    }
}


/// A file that is missing holds no table, one that can be read holds its table, and any
/// other stops the start.
pub proof fn law_table_file_is_read_or_refused(
    file: TableFile,
    r: Result<Option<RouteTable>, String>,
)
    requires
        call_ensures(load_local, (file,), r),
    ensures
        r is Ok <==> file is Missing || file is Table,
        r matches Ok(found) ==> (found is None <==> file is Missing),
        r matches Ok(Some(t)) ==> file == TableFile::Table(t),
{
}

/// The other nodes are the peers but for this node, with their addresses.
pub proof fn law_other_peers_are_all_but_this_node(
    m: RouteTableManager,
    out: Vec<(u64, String)>,
    k: int,
    j: int,
)
    requires
        call_ensures(RouteTableManager::other_peers, (&m,), out),
        0 <= k < out@.len(),
        0 <= j < m.peers@.len(),
    ensures
        out@[k].0 != m.self_id,
        m.peers@.contains(out@[k]),
        m.peers@[j].0 != m.self_id ==> exists|i: int|
            0 <= i < out@.len() && (#[trigger] out@[i]).0 == m.peers@[j].0,
{
    let f = |p: (u64, String)| p.0;
    let ids = m.peers@.map_values(f);
    let keep = |id: u64| id != m.self_id;
    let kept = out@.map_values(f);
    assert(kept == ids.filter(keep));
    lemma_filter_has(ids, keep, kept[k]);
    assert(kept.contains(kept[k]));
    assert(kept[k] == out@[k].0);
    lemma_filter_has(ids, keep, ids[j]);
    assert(ids.contains(ids[j]));
    assert(ids[j] == m.peers@[j].0);
    if m.peers@[j].0 != m.self_id {
        let i = choose|i: int| 0 <= i < kept.len() && kept[i] == ids[j];
        assert(out@[i].0 == ids[j]);
    }
}

/// At the start the newest table is taken, of the file and of all that the peers sent; a
/// file that cannot be read changes nothing.
pub proof fn law_start_takes_the_newest_table(
    this: &mut RouteTableManager,
    local: Result<Option<RouteTable>, String>,
    remotes: Vec<RouteTable>,
    r: Result<(), String>,
    i: int,
)
    requires
        call_ensures(RouteTableManager::load, (this, local, remotes), r),
        0 <= i < remotes@.len(),
    ensures
        r is Ok <==> local is Ok,
        local is Err ==> final(this).mem == old(this).mem,
        local is Ok ==> remotes@[i].version <= final(this).mem.version,
        local matches Ok(Some(t)) ==> t.version <= final(this).mem.version,
        local is Ok ==> local == Ok::<Option<RouteTable>, String>(Some(final(this).mem))
            || remotes@.contains(final(this).mem),
{
    if let Ok(l) = local {
        law_newest_table_is_taken(l, remotes@, i);
    }
}

/// A node that has no file writes one, with the table that it has.
pub proof fn law_missing_file_is_written(
    m: RouteTableManager,
    on_disk: bool,
    r: Option<RouteTable>,
)
    requires
        call_ensures(RouteTableManager::ensure_file, (&m, on_disk), r),
    ensures
        r is Some <==> !on_disk,
        r matches Some(t) ==> t@ == m.mem@,
{
}


/// A node that is sent the table of another one, and reads it, has the same table, but for
/// the generations, which are not sent.
pub proof fn law_sent_table_is_read_as_it_was(
    t: RouteTable,
    sent: ProtoRouteTable,
    read: RouteTable,
    nothing: RouteTable,
)
    requires
        t.wf(),
        call_ensures(table_to_proto, (&t,), sent),
        call_ensures(proto_to_table, (Some(sent),), read),
        call_ensures(proto_to_table, (None::<ProtoRouteTable>,), nothing),
    ensures
        read.version == t.version,
        read.streams@ == t.streams@,
        read.shard_stream_counts@ == t.shard_stream_counts@,
        read.stream_generations@ == Map::<Seq<char>, u64>::empty(),
        nothing.version == 0 && nothing.streams@ == Map::<Seq<char>, u64>::empty(),
{
    law_table_survives_exchange(t, sent);
    assert(read@.streams == read.streams@ && t@.streams == t.streams@);
    assert(read@.counts == read.shard_stream_counts@ && t@.counts == t.shard_stream_counts@);
    assert(read@.version == read.version);
    assert(read@.generations == read.stream_generations@);
    assert(nothing@.version == nothing.version && nothing@.streams == nothing.streams@);
}

} // verus!
