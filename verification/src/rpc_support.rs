//! Where shards are led, and how failed writes are answered.

use vstd::prelude::*;

use crate::bootstrap::{check_members, clients_fault, member_map, members_of};
use crate::config::{Config, ClientTrust, FileRead, held, path_debug};
use crate::endpoint::{endpoint_fault, endpoint_from_shared, normalize_endpoint, normalized};
use crate::maps::IdMap;
use crate::order::{difference, increasing, lists};
use crate::status::{Code, Status, StatusView, says};
use crate::text::{decimal, decimal_text, join2, join4, list_string, list_text};

verus! {

/// Why the consensus engine refused a write.
#[derive(Debug)]
pub enum WriteError {
    /// This node does not lead; the leader and its address, as far as known.
    ForwardToLeader { leader_id: Option<u64>, leader_addr: Option<String> },
    /// The members of the group cannot be changed in this way.
    ChangeMembership(String),
    /// The engine has stopped.
    Fatal(String),
}

/// The reply that sends a client to the leader.
pub open spec fn leader_hint(leader: Option<(u64, Seq<char>)>) -> StatusView {
    match leader {
        Some((id, addr)) => says(
            Code::Unavailable,
            "not leader; leader_id="@ + decimal_text(id as nat) + " leader_addr="@ + addr,
        ),
        None => says(Code::Unavailable, "not leader; leader unknown, retry later"@),
    }
}

/// Names the leader of a shard to a client, or asks it to come back.
pub fn leader_hint_status(leader: Option<(u64, String)>) -> (s: Status)
    ensures
        s@ == leader_hint(
            match leader {
                Some((id, addr)) => Some((id, addr@)),
                None => None,
            },
        ),
{
    match leader {
        Some((id, addr)) => {
            let n = decimal(id);
            Status::new(
                Code::Unavailable,
                join4("not leader; leader_id=", n.as_str(), " leader_addr=", addr.as_str()),
            )
        },
        None => Status::of(Code::Unavailable, "not leader; leader unknown, retry later"),
    }
}

/// The reply to a write that failed.
pub open spec fn write_failure(e: WriteError) -> StatusView {
    match e {
        WriteError::ForwardToLeader { leader_id: Some(id), leader_addr } => leader_hint(
            Some(
                (
                    id,
                    match leader_addr {
                        Some(addr) => addr@,
                        None => Seq::empty(),
                    },
                ),
            ),
        ),
        WriteError::ForwardToLeader { leader_id: None, leader_addr: _ } => leader_hint(None),
        WriteError::ChangeMembership(err) => says(
            Code::FailedPrecondition,
            "成员变更错误: "@ + err@,
        ),
        WriteError::Fatal(err) => says(Code::Internal, "Raft 致命错误: "@ + err@),
    }
}

/// Maps a failed write to its reply.  A node that does not lead gives the leader's
/// address, with a code that clients retry on.
pub fn client_write_to_status(e: WriteError) -> (s: Status)
    ensures
        s@ == write_failure(e),
{
    match e {
        WriteError::ForwardToLeader { leader_id, leader_addr } => {
            let addr = match leader_addr {
                Some(addr) => addr,
                None => String::new(),
            };
            match leader_id {
                Some(id) => leader_hint_status(Some((id, addr))),
                None => leader_hint_status(None),
            }
        },
        WriteError::ChangeMembership(err) => Status::new(
            Code::FailedPrecondition,
            join2("成员变更错误: ", err.as_str()),
        ),
        WriteError::Fatal(err) => Status::new(
            Code::Internal,
            join2("Raft 致命错误: ", err.as_str()),
        ),
    }
}

/// Contents of a map to texts.
pub open spec fn texts(m: Map<u64, String>) -> Map<u64, Seq<char>> {
    m.map_values(|s: String| s@)
}

/// The internal addresses of the peers, by id; of two peers with one id the later
/// one counts.
pub open spec fn internal_map(peers: Seq<crate::config::PeerConfig>) -> Map<u64, Seq<char>>
    decreases peers.len(),
{
    if peers.len() == 0 {
        Map::empty()
    } else {
        let rest = internal_map(peers.drop_last());
        match peers.last().internal_addr {
            Some(addr) => rest.insert(peers.last().id, normalized(addr@)),
            None => rest,
        }
    }
}

/// Where the other nodes are.
#[derive(Debug)]
pub struct RemoteShards {
    /// This node, which is never asked.
    pub self_id: u64,
    /// Public addresses, by node.
    pub addrs: IdMap<String>,
    /// Addresses for other nodes of the cluster, by node.
    pub internal_addrs: IdMap<String>,
    /// Whom to trust; `None` where TLS is not set up.
    pub tls: Option<ClientTrust>,
}

/// The trust that the configuration asks for, from the certificate file as it was
/// read: `Ok(None)` without TLS, an error where the file is named and unreadable.
pub open spec fn trust_of(config: Config, ca: FileRead) -> Result<Option<ClientTrust>, Seq<char>> {
    match config.tls {
        None => Ok(None),
        Some(tls) => match (tls.ca_file, ca) {
            (None, _) => Ok(Some(ClientTrust::SkipVerify)),
            (Some(_), FileRead::Bytes(pem)) => Ok(Some(ClientTrust::Ca(pem))),
            (Some(path), FileRead::Failed(e)) => Err(
                "[tls] ca_file 读取失败（"@ + path_debug(path@) + "）: "@ + e@,
            ),
        },
    }
}

/// `r` is the locator that the configuration asks for, or says why there is none.
pub open spec fn locates(config: Config, ca: FileRead, r: Result<RemoteShards, String>) -> bool {
    match trust_of(config, ca) {
        Err(text) => r matches Err(e) && e@ == text,
        Ok(trust) => match clients_fault(member_map(config.node.peers@)) {
            Some(text) => r matches Err(e) && e@ == text,
            None => {
                &&& r matches Ok(remote)
                &&& remote.wf()
                &&& remote.self_id == config.node.id
                &&& texts(remote.addrs@) == member_map(config.node.peers@)
                &&& texts(remote.internal_addrs@) == internal_map(config.node.peers@)
                &&& remote.tls == trust
            },
        },
    }
}

impl RemoteShards {
    pub open spec fn wf(&self) -> bool {
        self.addrs.wf() && self.internal_addrs.wf()
    }

    /// Builds the locator.  No connection is made.
    pub fn new(config: &Config, ca: FileRead) -> (r: Result<RemoteShards, String>)
        ensures
            locates(*config, ca, r),
    {
        let addrs = members_of(&config.node.peers);
        let tls = match &config.tls {
            None => None,
            Some(tls) => match tls.client_trust(ca) {
                Ok(trust) => Some(trust),
                Err(e) => return Err(e),
            },
        };
        if let Err(e) = check_members(&addrs) {
            return Err(e);
        }
        let mut internal_addrs: IdMap<String> = IdMap::new();
        let mut i: usize = 0;
        proof {
            assert(texts(internal_addrs@) =~= internal_map(config.node.peers@.take(0)));
        }
        while i < config.node.peers.len()
            invariant
                i <= config.node.peers@.len(),
                internal_addrs.wf(),
                texts(internal_addrs@) == internal_map(config.node.peers@.take(i as int)),
            decreases config.node.peers@.len() - i,
        {
            let peer = &config.node.peers[i];
            proof {
                assert(config.node.peers@.take(i + 1).drop_last() =~= config.node.peers@.take(
                    i as int,
                ));
            }
            if let Some(addr) = &peer.internal_addr {
                let ghost before = internal_addrs@;
                let uri = normalize_endpoint(addr.as_str());
                internal_addrs.insert(peer.id, uri);
                assert(texts(internal_addrs@) =~= texts(before).insert(peer.id, uri@));
            }
            i += 1;
        }
        proof {
            assert(config.node.peers@.take(config.node.peers@.len() as int)
                =~= config.node.peers@);
        }
        Ok(RemoteShards { self_id: config.node.id, addrs, internal_addrs, tls })
    }

    /// The nodes to ask for a shard's leader, in the order of asking: every node with
    /// an address but this one.
    pub fn nodes_to_ask(&self) -> (out: Vec<u64>)
        requires
            self.wf(),
        ensures
            lists(out@, self.addrs@.dom().remove(self.self_id)),
    {
        let ids = self.addrs.ids();
        let mut out: Vec<u64> = Vec::new();
        let mut i: usize = 0;
        while i < ids.len()
            invariant
                i <= ids@.len(),
                increasing(ids@),
                increasing(out@),
                forall|k: int| 0 <= k < out@.len() ==> exists|j: int|
                    0 <= j < i && #[trigger] ids@[j] == #[trigger] out@[k],
                forall|x: u64| #[trigger]
                    out@.contains(x) <==> (ids@.take(i as int).contains(x) && x != self.self_id),
            decreases ids@.len() - i,
        {
            let id = ids[i];
            let ghost was = out@;
            proof {
                assert(ids@.take(i + 1) =~= ids@.take(i as int).push(id));
            }
            if id != self.self_id {
                proof {
                    assert forall|k: int| 0 <= k < was.len() implies was[k] < id by {
                        let j = choose|j: int| 0 <= j < i && #[trigger] ids@[j] == was[k];
                        assert(ids@[j] < ids@[i as int]);
                    }
                }
                out.push(id);
            }
            proof {
                let now = ids@.take(i + 1);
                let past = ids@.take(i as int);
                assert forall|x: u64| #[trigger] out@.contains(x) <==> (now.contains(x) && x
                    != self.self_id) by {
                    if now.contains(x) {
                        let k = choose|k: int| 0 <= k < now.len() && now[k] == x;
                        if k < i {
                            assert(past[k] == x);
                        }
                    }
                    if past.contains(x) {
                        let k = choose|k: int| 0 <= k < past.len() && past[k] == x;
                        assert(now[k] == x);
                    }
                    assert(now[i as int] == id);
                    if id != self.self_id {
                        assert(out@ =~= was.push(id));
                        if out@.contains(x) && x != id {
                            let k = choose|k: int| 0 <= k < out@.len() && out@[k] == x;
                            assert(was[k] == x);
                        }
                        if was.contains(x) {
                            let k = choose|k: int| 0 <= k < was.len() && was[k] == x;
                            assert(out@[k] == x);
                        }
                        assert(out@[was.len() as int] == id);
                    }
                }
                assert forall|k: int| 0 <= k < out@.len() implies exists|j: int|
                    0 <= j < i + 1 && #[trigger] ids@[j] == #[trigger] out@[k] by {
                    if k < was.len() {
                        let j = choose|j: int| 0 <= j < i && #[trigger] ids@[j] == was[k];
                        assert(ids@[j] == out@[k]);
                    } else {
                        assert(ids@[i as int] == out@[k]);
                    }
                }
            }
            i += 1;
        }
        proof {
            assert(ids@.take(ids@.len() as int) =~= ids@);
        }
        out
    }

    /// The leader and its public address, once a node has said that it leads
    /// (`None`: it could not be asked); the address is empty if there is none.
    pub fn leader_at(&self, node_id: u64, leads: Option<bool>) -> (r: Option<(u64, String)>)
        requires
            self.wf(),
        ensures
            r is Some <==> leads == Some(true),
            r matches Some(leader) ==> is_leader(*self, leader, node_id),
    {
        match leads {
            Some(true) => {
                let addr = match self.addrs.get(node_id) {
                    Some(a) => a.clone(),
                    None => String::new(),
                };
                Some((node_id, addr))
            },
            _ => None,
        }
    }

    /// The public address of a shard's leader from which a page of the shard is read, or
    /// the reply that asks the caller to come back: the leader is unknown, or its address
    /// is no URI.
    pub fn source_address(leader: Option<(u64, String)>) -> (r: Result<String, Status>)
        ensures
            match leader {
                Some((_, addr)) if endpoint_fault(addr@) is None => r == Ok::<String, Status>(addr),
                _ => r matches Err(s) && s@ == says(
                    Code::Unavailable,
                    "read-all shard source unavailable"@,
                ),
            },
    {
        match leader {
            Some((_, addr)) => match endpoint_from_shared(addr.as_str()) {
                None => Ok(addr),
                Some(_) => Err(Status::of(Code::Unavailable, "read-all shard source unavailable")),
            },
            None => Err(Status::of(Code::Unavailable, "read-all shard source unavailable")),
        }
    }

    /// The internal address of a shard's leader, or the reply that asks the caller to
    /// come back: the leader is unknown, has no internal address, or one that is no
    /// URI.
    pub fn internal_address(&self, leader: Option<u64>, source: InternalSource) -> (r: Result<
        String,
        Status,
    >)
        requires
            self.wf(),
        ensures
            match r {
                Ok(addr) => leader matches Some(id) && self.internal_addrs@.dom().contains(id)
                    && addr@ == self.internal_addrs@[id]@ && endpoint_fault(addr@) is None,
                Err(s) => s@ == source_unavailable(source) && (leader matches Some(id) ==> (
                self.internal_addrs@.dom().contains(id) ==> endpoint_fault(
                    self.internal_addrs@[id]@,
                ) is Some)),
            },
    {
        match leader {
            Some(id) => match self.internal_addrs.get(id) {
                Some(addr) => match endpoint_from_shared(addr.as_str()) {
                    None => Ok(addr.clone()),
                    Some(_) => Err(no_source(source)),
                },
                None => Err(no_source(source)),
            },
            None => Err(no_source(source)),
        }
    }

    /// Begins to look for a shard's leader among the other nodes.
    pub fn find_leader(&self) -> (step: SearchStep)
        requires
            self.wf(),
        ensures
            exists|nodes: Seq<u64>|
                lists(nodes, self.addrs@.dom().remove(self.self_id)) && #[trigger] seeks(
                    step,
                    nodes,
                    0,
                ),
    {
        let nodes = self.nodes_to_ask();
        let step = if nodes.len() > 0 {
            SearchStep::Ask(LeaderSearch { nodes, at: 0 })
        } else {
            SearchStep::Done(None)
        };
        assert(seeks(step, nodes@, 0));
        step
    }

    /// Goes on after a node said whether it leads (`None`: it could not be asked).  The
    /// first that leads is the leader, with its public address; any other is passed over.
    pub fn on_node_answer(&self, search: LeaderSearch, leads: Option<bool>) -> (step: SearchStep)
        requires
            self.wf(),
            search.wf(),
        ensures
            goes_on(*self, search, leads, step),
    {
        let node_id: u64 = search.nodes[search.at];
        let found = self.leader_at(node_id, leads);
        match found {
            Some(leader) => SearchStep::Done(Some(leader)),
            None => if search.nodes.len() - search.at > 1 {
                SearchStep::Ask(LeaderSearch { nodes: search.nodes, at: search.at + 1 })
            } else {
                SearchStep::Done(None)
            },
        }
    }
}

/// What another node is asked for at its internal address.
#[derive(Clone, Copy, Debug, PartialEq, Eq, Structural)]
pub enum InternalSource {
    /// Aggregates and their groups.
    AggregateStore,
    /// The stream of a shard.
    Subscription,
}

/// The reply where another node cannot be asked.
pub open spec fn source_unavailable(source: InternalSource) -> StatusView {
    says(
        Code::Unavailable,
        match source {
            InternalSource::AggregateStore => "aggregate store source unavailable"@,
            InternalSource::Subscription => "internal subscription source unavailable"@,
        },
    )
}

fn no_source(source: InternalSource) -> (s: Status)
    ensures
        s@ == source_unavailable(source),
{
    match source {
        InternalSource::AggregateStore => Status::of(
            Code::Unavailable,
            "aggregate store source unavailable",
        ),
        InternalSource::Subscription => Status::of(
            Code::Unavailable,
            "internal subscription source unavailable",
        ),
    }
}

/// A search for a leader: the nodes to ask, and which of them is asked now.
#[derive(Debug)]
pub struct LeaderSearch {
    pub nodes: Vec<u64>,
    pub at: usize,
}

impl LeaderSearch {
    pub open spec fn wf(&self) -> bool {
        self.at < self.nodes@.len()
    }

    /// The node that is asked now.
    pub fn node(&self) -> (id: u64)
        requires
            self.wf(),
        ensures
            id == self.nodes@[self.at as int],
    {
        self.nodes[self.at]
    }
}

/// What a search for a leader does next.
#[derive(Debug)]
pub enum SearchStep {
    /// Ask a node whether it leads.
    Ask(LeaderSearch),
    /// The leader and its public address, if one was found.
    Done(Option<(u64, String)>),
}

/// The search asks node number `at` of these; it has found nobody if there is none.
pub open spec fn seeks(step: SearchStep, nodes: Seq<u64>, at: int) -> bool {
    if at < nodes.len() {
        step matches SearchStep::Ask(s) && s.nodes@ == nodes && s.at == at
    } else {
        step == SearchStep::Done(None)
    }
}

/// The leader is this node, with the public address that it has (none: an empty one).
pub open spec fn is_leader(remote: RemoteShards, leader: (u64, String), node_id: u64) -> bool {
    leader.0 == node_id && leader.1@ == (if remote.addrs@.dom().contains(node_id) {
        remote.addrs@[node_id]@
    } else {
        Seq::empty()
    })
}

/// The step follows the answer of the node that was asked.
pub open spec fn goes_on(
    remote: RemoteShards,
    search: LeaderSearch,
    leads: Option<bool>,
    step: SearchStep,
) -> bool {
    if leads == Some(true) {
        step matches SearchStep::Done(Some(leader)) && is_leader(
            remote,
            leader,
            search.nodes@[search.at as int],
        )
    } else {
        seeks(step, search.nodes@, search.at + 1)
    }
}

/// A search asks the nodes in their order and ends with the first that says it leads; it
/// finds nobody only when it has asked all and none does.
pub proof fn law_first_leader_is_found(
    remote: RemoteShards,
    nodes: Seq<u64>,
    steps: Seq<SearchStep>,
    answers: Seq<Option<bool>>,
)
    requires
        steps.len() == answers.len() + 1,
        seeks(steps[0], nodes, 0),
        forall|t: int|
            0 <= t < answers.len() ==> (#[trigger] steps[t] matches SearchStep::Ask(s) && goes_on(
                remote,
                s,
                answers[t],
                steps[t + 1],
            )),
    ensures
        forall|t: int|
            0 <= t < answers.len() ==> (#[trigger] steps[t] matches SearchStep::Ask(s) && s.nodes@
                == nodes && s.at == t),
        forall|t: int| 0 <= t < answers.len() - 1 ==> #[trigger] answers[t] != Some(true),
        match steps.last() {
            SearchStep::Ask(_) => answers.len() < nodes.len(),
            SearchStep::Done(Some(leader)) => 0 < answers.len() && answers.last() == Some(true)
                && is_leader(remote, leader, nodes[answers.len() - 1]),
            SearchStep::Done(None) => answers.len() == nodes.len() && forall|t: int|
                0 <= t < answers.len() ==> #[trigger] answers[t] != Some(true),
        },
    decreases answers.len(),
{
    if answers.len() > 0 {
        let n = answers.len() - 1;
        let (s, a) = (steps.drop_last(), answers.drop_last());
        assert forall|t: int| 0 <= t < a.len() implies (
        #[trigger] s[t] matches SearchStep::Ask(x) && goes_on(remote, x, a[t], s[t + 1])) by {
            assert(s[t] == steps[t] && s[t + 1] == steps[t + 1] && a[t] == answers[t]);
        }
        law_first_leader_is_found(remote, nodes, s, a);
        assert(steps[n] is Ask);
        assert(s.last() == steps[n]);
        if n > 0 {
            assert(steps[n - 1] is Ask);
            assert(s[n - 1] == steps[n - 1]);
            assert(a[n - 1] == answers[n - 1]);
        }
        assert forall|t: int| 0 <= t < answers.len() implies (
        #[trigger] steps[t] matches SearchStep::Ask(x) && x.nodes@ == nodes && x.at == t) by {
            if t < n {
                assert(s[t] == steps[t]);
            } else {
                if n > 0 {
                    assert(goes_on(remote, steps[n - 1]->Ask_0, answers[n - 1], steps[n]));
                }
            }
        }
        assert forall|t: int| 0 <= t < n implies #[trigger] answers[t] != Some(true) by {
            if t < n - 1 {
                assert(a[t] == answers[t]);
            }
        }
    }
}

/// What one operation sees of the cluster: the shards and the locator of one
/// configuration.
#[derive(Debug)]
pub struct RuntimeTopologySnapshot {
    pub remote: RemoteShards,
    /// All shards in ascending order.
    pub all_shards: Vec<u64>,
    /// The smallest shard.
    pub control_shard_id: u64,
}

/// `r` is the topology of the configuration, or says why there is none.
pub open spec fn is_topology(
    config: Config,
    ca: FileRead,
    r: Result<RuntimeTopologySnapshot, String>,
) -> bool {
    if held(config.placement.nodes@).len() == 0 {
        r matches Err(e) && e@ == "AggregateStore 要求至少一个 Shard"@
    } else {
        match r {
            Ok(t) => {
                &&& locates(config, ca, Ok(t.remote))
                &&& lists(t.all_shards@, held(config.placement.nodes@).to_set())
                &&& t.all_shards@.len() > 0
                &&& t.control_shard_id == t.all_shards@[0]
            },
            Err(e) => locates(config, ca, Err(e)),
        }
    }
}

impl RuntimeTopologySnapshot {
    pub open spec fn wf(&self) -> bool {
        &&& self.remote.wf()
        &&& increasing(self.all_shards@)
        &&& self.all_shards@.len() > 0
        &&& self.control_shard_id == self.all_shards@[0]
    }

    /// The topology of a configuration.
    pub fn from_config(config: &Config, ca: FileRead) -> (r: Result<
        RuntimeTopologySnapshot,
        String,
    >)
        ensures
            is_topology(*config, ca, r),
            r matches Ok(t) ==> t.wf(),
    {
        let all_shards = config.placement.all_shards();
        let ghost h = held(config.placement.nodes@);
        if all_shards.is_empty() {
            proof {
                if h.len() > 0 {
                    assert(h.contains(h[0]));
                    assert(h.to_set().contains(h[0]));
                    assert(all_shards@.contains(h[0]));
                }
            }
            return Err(String::from_str("AggregateStore 要求至少一个 Shard"));
        }
        proof {
            assert(all_shards@.contains(all_shards@[0]));
            assert(h.to_set().contains(all_shards@[0]));
            assert(h.contains(all_shards@[0]));
        }
        match RemoteShards::new(config, ca) {
            Ok(remote) => {
                let control_shard_id: u64 = all_shards[0];
                Ok(RuntimeTopologySnapshot { remote, all_shards, control_shard_id })
            },
            Err(e) => Err(e),
        }
    }
}

/// The topology that the server runs with.
#[derive(Debug)]
pub struct RuntimeTopology {
    pub current: RuntimeTopologySnapshot,
}

impl RuntimeTopology {
    /// The topology to start with.
    pub fn new(config: &Config, ca: FileRead) -> (r: Result<RuntimeTopology, String>)
        ensures
            match r {
                Ok(t) => is_topology(*config, ca, Ok(t.current)) && t.current.wf(),
                Err(e) => is_topology(*config, ca, Err(e)),
            },
    {
        match RuntimeTopologySnapshot::from_config(config, ca) {
            Ok(current) => Ok(RuntimeTopology { current }),
            Err(e) => Err(e),
        }
    }

    /// Takes over the topology of a new configuration as a whole, or keeps the old one
    /// as a whole.  While the server runs, shards are only added, and the control
    /// shard stays.
    pub fn reload(&mut self, config: &Config, ca: FileRead) -> (r: Result<(), String>)
        requires
            old(self).current.wf(),
        ensures
            final(self).current.wf(),
            r is Err ==> *final(self) == *old(self),
            r is Ok ==> is_topology(*config, ca, Ok(final(self).current)) && extends(
                old(self).current,
                final(self).current,
            ),
            r matches Err(e) ==> exists|next: Result<RuntimeTopologySnapshot, String>|
                {
                    &&& #[trigger] is_topology(*config, ca, next)
                    &&& match next {
                        Err(text) => e == text,
                        Ok(t) => !extends(old(self).current, t) && e@ == reload_refusal(
                            old(self).current,
                            t,
                        ),
                    }
                },
    {
        let next = match RuntimeTopologySnapshot::from_config(config, ca) {
            Ok(next) => next,
            Err(e) => {
                assert(is_topology(*config, ca, Err::<RuntimeTopologySnapshot, String>(e)));
                return Err(e);
            },
        };
        assert(is_topology(*config, ca, Ok::<RuntimeTopologySnapshot, String>(next)));
        if next.control_shard_id != self.current.control_shard_id {
            let a = decimal(self.current.control_shard_id);
            let b = decimal(next.control_shard_id);
            return Err(
                join4("运行期不能变更控制 Shard：当前 ", a.as_str(), "，新配置 ", b.as_str()),
            );
        }
        let removed = difference(&self.current.all_shards, &next.all_shards);
        proof {
            lemma_removed(self.current.all_shards@, next.all_shards@);
        }
        if !removed.is_empty() {
            let text = list_string(&removed);
            return Err(join2("运行期不能移除 Shard：", text.as_str()));
        }
        self.current = next;
        Ok(())
    }
}

/// The shards of `old` that `new` lacks.
pub open spec fn removed_shards(a: RuntimeTopologySnapshot, b: RuntimeTopologySnapshot) -> Seq<
    u64,
> {
    a.all_shards@.filter(|s: u64| !b.all_shards@.contains(s))
}

/// `b` may follow `a` while the server runs: the control shard is the same, and no
/// shard is gone.
pub open spec fn extends(a: RuntimeTopologySnapshot, b: RuntimeTopologySnapshot) -> bool {
    &&& a.control_shard_id == b.control_shard_id
    &&& forall|s: u64| #[trigger] a.all_shards@.contains(s) ==> b.all_shards@.contains(s)
}

/// Why `b` may not follow `a`.
pub open spec fn reload_refusal(a: RuntimeTopologySnapshot, b: RuntimeTopologySnapshot) -> Seq<
    char,
> {
    if a.control_shard_id != b.control_shard_id {
        "运行期不能变更控制 Shard：当前 "@ + decimal_text(a.control_shard_id as nat) + "，新配置 "@
            + decimal_text(b.control_shard_id as nat)
    } else {
        "运行期不能移除 Shard："@ + list_text(removed_shards(a, b))
    }
}

proof fn lemma_removed(a: Seq<u64>, b: Seq<u64>)
    ensures
        a.filter(|s: u64| !b.contains(s)).len() == 0 <==> forall|s: u64| #[trigger]
            a.contains(s) ==> b.contains(s),
{
    let gone = |s: u64| !b.contains(s);
    let f = a.filter(gone);
    if f.len() == 0 {
        assert forall|s: u64| #[trigger] a.contains(s) implies b.contains(s) by {
            if !b.contains(s) {
                let i = choose|i: int| 0 <= i < a.len() && a[i] == s;
                a.lemma_filter_contains(gone, i);
            }
        }
    } else {
        assert(f.contains(f[0]));
        a.lemma_filter_pred(gone, 0);
        a.lemma_filter_contains_rev(gone, f[0]);
        assert(a.contains(f[0]) && gone(f[0]));
    }
}


/// A request that needs the leader is answered with who leads and where, if that is known,
/// and in any case to be tried again.
pub proof fn law_leader_is_pointed_to(leader: Option<(u64, String)>, s: Status)
    requires
        call_ensures(leader_hint_status, (leader,), s),
    ensures
        s@.code == Code::Unavailable,
        leader matches Some((id, addr)) ==> s@.message == "not leader; leader_id="@ + decimal_text(
            id as nat,
        ) + " leader_addr="@ + addr@,
        leader is None ==> s@.message == "not leader; leader unknown, retry later"@,
{
}

/// A write that failed: to be sent to the leader, refused for the membership, or the
/// server's fault.
pub proof fn law_failed_writes_have_their_codes(e: WriteError, s: Status)
    requires
        call_ensures(client_write_to_status, (e,), s),
    ensures
        s@.code == (match e {
            WriteError::ForwardToLeader { .. } => Code::Unavailable,
            WriteError::ChangeMembership(_) => Code::FailedPrecondition,
            WriteError::Fatal(_) => Code::Internal,
        }),
        e matches WriteError::ForwardToLeader { leader_id: Some(id), leader_addr: Some(addr) }
            ==> s@.message == "not leader; leader_id="@ + decimal_text(id as nat)
            + " leader_addr="@ + addr@,
{
}

/// Every node that is known, but for this one, is asked once, by rising numbers.
pub proof fn law_every_other_node_is_asked(remote: RemoteShards, out: Vec<u64>, id: u64)
    requires
        call_ensures(RemoteShards::nodes_to_ask, (&remote,), out),
    ensures
        out@.contains(id) <==> remote.addrs@.dom().contains(id) && id != remote.self_id,
        forall|i: int, j: int| 0 <= i < j < out@.len() ==> out@[i] < out@[j],
{
    assert(remote.addrs@.dom().remove(remote.self_id).contains(id)
        <==> remote.addrs@.dom().contains(id) && id != remote.self_id);
}

/// A node that says that it leads is the leader, at the address that is known of it.
pub proof fn law_node_that_leads_is_the_leader(
    remote: RemoteShards,
    node_id: u64,
    leads: Option<bool>,
    r: Option<(u64, String)>,
)
    requires
        call_ensures(RemoteShards::leader_at, (&remote, node_id, leads), r),
    ensures
        r is Some <==> leads == Some(true),
        r matches Some(leader) ==> leader.0 == node_id,
        r matches Some(leader) ==> (remote.addrs@.dom().contains(node_id) ==> leader.1@
            == remote.addrs@[node_id]@),
        r matches Some(leader) ==> (!remote.addrs@.dom().contains(node_id) ==> leader.1@.len()
            == 0),
{
}

/// A source is read at the leader's internal address, if the leader is known, has one and
/// it can be used; else it is to be tried again.
pub proof fn law_source_is_read_at_the_leaders_internal_address(
    remote: RemoteShards,
    leader: Option<u64>,
    source: InternalSource,
    r: Result<String, Status>,
)
    requires
        call_ensures(RemoteShards::internal_address, (&remote, leader, source), r),
    ensures
        r is Ok <==> (leader matches Some(id) && remote.internal_addrs@.dom().contains(id)
            && endpoint_fault(remote.internal_addrs@[id]@) is None),
        r matches Ok(addr) ==> addr@ == remote.internal_addrs@[leader->0]@,
        r matches Err(s) ==> s@.code == Code::Unavailable,
{
}

/// The search for a leader asks node after node and ends with the first that leads, or
/// with none after the last.
pub proof fn law_search_asks_node_after_node(
    remote: RemoteShards,
    search: LeaderSearch,
    leads: Option<bool>,
    step: SearchStep,
)
    requires
        search.wf(),
        call_ensures(RemoteShards::on_node_answer, (&remote, search, leads), step),
    ensures
        leads == Some(true) ==> (step matches SearchStep::Done(Some(leader)) && leader.0
            == search.nodes@[search.at as int]),
        leads != Some(true) && search.at + 1 < search.nodes@.len() ==> (step matches SearchStep::Ask(
            n,
        ) && n.nodes@ == search.nodes@ && n.at == search.at + 1),
        leads != Some(true) && search.at + 1 == search.nodes@.len() ==> step == SearchStep::Done(
            None,
        ),
{
}

proof fn lemma_internal_map(peers: Seq<crate::config::PeerConfig>, i: int)
    requires
        0 <= i < peers.len(),
        forall|j: int| i < j < peers.len() ==> (#[trigger] peers[j]).id != peers[i].id,
        forall|j: int| 0 <= j < i ==> (#[trigger] peers[j]).id != peers[i].id,
    ensures
        internal_map(peers).dom().contains(peers[i].id) <==> peers[i].internal_addr is Some,
        peers[i].internal_addr matches Some(addr) ==> internal_map(peers)[peers[i].id]
            == normalized(addr@),
    decreases peers.len(),
{
    let rest = peers.drop_last();
    let n = peers.len() - 1;
    assert(peers.last() == peers[n]);
    if i < n {
        assert(rest[i] == peers[i]);
        assert forall|j: int| i < j < rest.len() implies (#[trigger] rest[j]).id != rest[i].id by {
            assert(rest[j] == peers[j]);
        }
        assert forall|j: int| 0 <= j < i implies (#[trigger] rest[j]).id != rest[i].id by {
            assert(rest[j] == peers[j]);
        }
        lemma_internal_map(rest, i);
        assert(peers[n].id != peers[i].id);
    } else {
        lemma_internal_none(rest, peers[i].id);
        if internal_map(rest).dom().contains(peers[i].id) {
            let j = choose|j: int| 0 <= j < rest.len() && (#[trigger] rest[j]).id == peers[i].id;
            assert(peers[j] == rest[j]);
        }
    }
}

proof fn lemma_internal_none(peers: Seq<crate::config::PeerConfig>, id: u64)
    ensures
        internal_map(peers).dom().contains(id) ==> exists|j: int|
            0 <= j < peers.len() && (#[trigger] peers[j]).id == id,
    decreases peers.len(),
{
    if peers.len() > 0 {
        let rest = peers.drop_last();
        let n = peers.len() - 1;
        lemma_internal_none(rest, id);
        assert(peers.last() == peers[n]);
        if internal_map(peers).dom().contains(id) && peers[n].id != id {
            let j = choose|j: int| 0 <= j < rest.len() && (#[trigger] rest[j]).id == id;
            assert(peers[j] == rest[j]);
        }
    }
}

/// The other nodes are known under their numbers: an internal address where the
/// configuration gives one, in full, and whom to trust as it says.
pub proof fn law_nodes_are_known_as_configured(
    config: Config,
    ca: FileRead,
    remote: RemoteShards,
    i: int,
)
    requires
        call_ensures(RemoteShards::new, (&config, ca), Ok::<RemoteShards, String>(remote)),
        0 <= i < config.node.peers@.len(),
        forall|a: int, b: int|
            0 <= a < b < config.node.peers@.len() ==> (#[trigger] config.node.peers@[a]).id != (
            #[trigger] config.node.peers@[b]).id,
    ensures
        remote.self_id == config.node.id,
        remote.internal_addrs@.dom().contains(config.node.peers@[i].id)
            <==> config.node.peers@[i].internal_addr is Some,
        config.node.peers@[i].internal_addr matches Some(addr)
            ==> remote.internal_addrs@[config.node.peers@[i].id]@ == normalized(addr@),
        config.tls is None ==> remote.tls is None,
        config.tls matches Some(tls) ==> (tls.ca_file is None ==> remote.tls == Some(
            ClientTrust::SkipVerify,
        )),
        config.tls matches Some(tls) ==> (tls.ca_file is Some ==> (ca matches FileRead::Bytes(pem)
            && remote.tls == Some(ClientTrust::Ca(pem)))),
{
    let peers = config.node.peers@;
    assert forall|j: int| i < j < peers.len() implies (#[trigger] peers[j]).id != peers[i].id by {
        assert(peers[i].id != peers[j].id);
    }
    assert forall|j: int| 0 <= j < i implies (#[trigger] peers[j]).id != peers[i].id by {}
    lemma_internal_map(peers, i);
    assert(texts(remote.internal_addrs@) == internal_map(peers));
    assert(texts(remote.internal_addrs@).dom() == remote.internal_addrs@.dom());
    if remote.internal_addrs@.dom().contains(peers[i].id) {
        assert(texts(remote.internal_addrs@)[peers[i].id]
            == remote.internal_addrs@[peers[i].id]@);
    }
}

/// While the server runs, a new configuration is taken over only if it keeps the control
/// shard and every shard; a refused one changes nothing.
pub proof fn law_reload_keeps_every_shard(
    this: &mut RuntimeTopology,
    config: Config,
    ca: FileRead,
    r: Result<(), String>,
    s: u64,
)
    requires
        call_ensures(RuntimeTopology::reload, (this, &config, ca), r),
    ensures
        r is Err ==> *final(this) == *old(this),
        r is Ok ==> final(this).current.control_shard_id == old(this).current.control_shard_id,
        r is Ok && old(this).current.all_shards@.contains(s)
            ==> final(this).current.all_shards@.contains(s),
{
}

/// The topology holds every shard that the configuration has a node carry, in rising
/// order; the first one is the control shard.
pub proof fn law_topology_holds_every_shard(
    config: Config,
    ca: FileRead,
    t: RuntimeTopologySnapshot,
    s: u64,
)
    requires
        call_ensures(
            RuntimeTopologySnapshot::from_config,
            (&config, ca),
            Ok::<RuntimeTopologySnapshot, String>(t),
        ),
    ensures
        t.all_shards@.contains(s) <==> held(config.placement.nodes@).contains(s),
        t.all_shards@.len() > 0,
        t.control_shard_id == t.all_shards@[0],
        t.all_shards@.contains(s) ==> t.control_shard_id <= s,
{
    let all = held(config.placement.nodes@);
    assert(all.to_set().contains(s) <==> all.contains(s));
    assert(t.all_shards@.contains(s) <==> all.to_set().contains(s));
    if t.all_shards@.contains(s) {
        let k = choose|k: int| 0 <= k < t.all_shards@.len() && t.all_shards@[k] == s;
        if k > 0 {
            assert(t.all_shards@[0] < t.all_shards@[k]);
        }
    }
}


/// A shard is read at its leader's address, if that is known and can be used.
pub proof fn law_shard_is_read_at_its_leader(
    leader: Option<(u64, String)>,
    r: Result<String, Status>,
)
    requires
        call_ensures(RemoteShards::source_address, (leader,), r),
    ensures
        r is Ok <==> (leader matches Some((_, addr)) && endpoint_fault(addr@) is None),
        r matches Ok(addr) ==> (leader matches Some((_, known)) && addr == known),
        r matches Err(s) ==> s@.code == Code::Unavailable,
{
}


/// The search for a leader begins with the first of the other nodes that are known, and
/// finds nobody where there is none.
pub proof fn law_search_begins_with_the_first_other_node(
    remote: RemoteShards,
    step: SearchStep,
    id: u64,
)
    requires
        call_ensures(RemoteShards::find_leader, (&remote,), step),
    ensures
        match step {
            SearchStep::Ask(s) => s.at == 0 && (s.nodes@.contains(id)
                <==> remote.addrs@.dom().contains(id) && id != remote.self_id),
            SearchStep::Done(found) => found is None && !(remote.addrs@.dom().contains(id) && id
                != remote.self_id),
        },
{
    let others = remote.addrs@.dom().remove(remote.self_id);
    let nodes = choose|nodes: Seq<u64>| lists(nodes, others) && #[trigger] seeks(step, nodes, 0);
    assert(nodes.contains(id) <==> others.contains(id));
}

} // verus!
