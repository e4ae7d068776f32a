//! Forming a cluster from the configured members.
//!
//! A node whose log is empty looks whether one of its peers already has a cluster;
//! only if none has does it start one with the full list of members.

use vstd::prelude::*;

use crate::config::{Config, PeerConfig, opt_texts};
use crate::endpoint::{endpoint_fault, endpoint_from_shared, normalize_endpoint, normalized, opt_text};
use crate::ids::uuid_random;
use crate::maps::IdMap;
use crate::order::{holds, lemma_sort_unique, sort};
use crate::rpc_support::texts;
use crate::text::{decimal, decimal_text, has_prefix, join2, join5, starts_with};

verus! {

/// Longest random delay before a shard is initialized, in milliseconds.
pub const FORMATION_DELAY_MS: u64 = 2000;

/// How often the peers are asked.
pub const PROBE_ATTEMPTS: u32 = 5;

/// How often initialization is tried.
pub const INIT_ATTEMPTS: u32 = 3;

/// What a node does about forming a cluster.
#[derive(Debug)]
pub enum BootstrapMode {
    /// No peers are configured: the cluster is formed by hand.
    Disabled,
    /// This node is not among the peers: it waits to be taken in.
    WaitOnly,
    /// Look for a cluster and start one if there is none, with these members.
    Bootstrap(IdMap<String>),
}

/// The addresses of the peers, by id; of two peers with one id the later one counts.
pub open spec fn member_map(peers: Seq<PeerConfig>) -> Map<u64, Seq<char>>
    decreases peers.len(),
{
    if peers.len() == 0 {
        Map::empty()
    } else {
        member_map(peers.drop_last()).insert(peers.last().id, normalized(peers.last().addr@))
    }
}

/// The members that the peers make up.
pub fn members_of(peers: &Vec<PeerConfig>) -> (m: IdMap<String>)
    ensures
        m.wf(),
        texts(m@) == member_map(peers@),
{
    let mut m: IdMap<String> = IdMap::new();
    let mut i: usize = 0;
    proof {
        assert(texts(m@) =~= member_map(peers@.take(0)));
    }
    while i < peers.len()
        invariant
            i <= peers@.len(),
            m.wf(),
            texts(m@) == member_map(peers@.take(i as int)),
        decreases peers@.len() - i,
    {
        let p = &peers[i];
        proof {
            assert(peers@.take(i + 1).drop_last() =~= peers@.take(i as int));
        }
        let ghost before = m@;
        let uri = normalize_endpoint(p.addr.as_str());
        m.insert(p.id, uri);
        assert(texts(m@) =~= texts(before).insert(p.id, uri@));
        i += 1;
    }
    proof {
        assert(peers@.take(peers@.len() as int) =~= peers@);
    }
    m
}

/// What is wrong with the first peer that something is wrong with, given the ids
/// before it: its id is taken, or its address is no URI.
pub open spec fn peers_refusal(
    ids: Seq<u64>,
    peers: Seq<PeerConfig>,
    faults: Seq<Option<Seq<char>>>,
) -> Option<Seq<char>>
    decreases peers.len(),
{
    if peers.len() == 0 {
        None
    } else if ids.contains(peers[0].id) {
        Some("node.peers 含重复节点 id "@ + decimal_text(peers[0].id as nat))
    } else if faults[0] is Some {
        Some(
            "node.peers 中节点 "@ + decimal_text(peers[0].id as nat) + " 地址 "@ + normalized(
                peers[0].addr@,
            ) + " 非法："@ + faults[0]->Some_0,
        )
    } else {
        peers_refusal(ids.push(peers[0].id), peers.skip(1), faults.skip(1))
    }
}

/// What the URI parser has against the addresses of the peers.
pub open spec fn addr_faults(peers: Seq<PeerConfig>) -> Seq<Option<Seq<char>>> {
    peers.map_values(|p: PeerConfig| endpoint_fault(normalized(p.addr@)))
}

/// The ids of the peers.
pub open spec fn peer_ids(peers: Seq<PeerConfig>) -> Seq<u64> {
    peers.map_values(|p: PeerConfig| p.id)
}

/// `r` is what the node does, or why its peers are refused.
pub open spec fn is_mode(
    config: Config,
    faults: Seq<Option<Seq<char>>>,
    r: Result<BootstrapMode, String>,
) -> bool {
    let peers = config.node.peers@;
    if peers.len() == 0 {
        r == Ok::<BootstrapMode, String>(BootstrapMode::Disabled)
    } else {
        match peers_refusal(Seq::empty(), peers, faults) {
            Some(text) => r matches Err(e) && e@ == text,
            None => if peer_ids(peers).contains(config.node.id) {
                r matches Ok(BootstrapMode::Bootstrap(m)) && m.wf() && texts(m@) == member_map(
                    peers,
                )
            } else {
                r == Ok::<BootstrapMode, String>(BootstrapMode::WaitOnly)
            },
        }
    }
}

/// Decides what this node does.  Repeated ids and bad addresses are refused rather
/// than repaired.
pub fn decide_mode(config: &Config) -> (r: Result<BootstrapMode, String>)
    ensures
        is_mode(*config, addr_faults(config.node.peers@), r),
{
    let peers = &config.node.peers;
    let mut faults: Vec<Option<String>> = Vec::new();
    let mut i: usize = 0;
    while i < peers.len()
        invariant
            i <= peers@.len(),
            faults@.len() == i,
            forall|k: int|
                0 <= k < i ==> opt_text(#[trigger] faults@[k]) == addr_faults(peers@)[k],
        decreases peers@.len() - i,
    {
        let uri = normalize_endpoint(peers[i].addr.as_str());
        faults.push(endpoint_from_shared(uri.as_str()));
        i += 1;
    }
    assert(opt_texts(faults@) =~= addr_faults(peers@));
    decide_mode_with(config, &faults)
}

/// Decides what this node does, given for each peer what the URI parser has against
/// its address.
pub fn decide_mode_with(config: &Config, faults: &Vec<Option<String>>) -> (r: Result<
    BootstrapMode,
    String,
>)
    requires
        faults@.len() == config.node.peers@.len(),
    ensures
        is_mode(*config, opt_texts(faults@), r),
{
    let peers = &config.node.peers;
    if peers.is_empty() {
        return Ok(BootstrapMode::Disabled);
    }
    let ghost views = opt_texts(faults@);
    let mut ids: Vec<u64> = Vec::new();
    let mut i: usize = 0;
    proof {
        assert(peers@.skip(0) =~= peers@);
        assert(views.skip(0) =~= views);
        assert(ids@ =~= Seq::<u64>::empty());
    }
    while i < peers.len()
        invariant
            i <= peers@.len(),
            *peers == config.node.peers,
            peers@.len() > 0,
            faults@.len() == peers@.len(),
            views == opt_texts(faults@),
            ids@ == peer_ids(peers@).take(i as int),
            peers_refusal(Seq::empty(), peers@, views) == peers_refusal(
                ids@,
                peers@.skip(i as int),
                views.skip(i as int),
            ),
        decreases peers@.len() - i,
    {
        let p = &peers[i];
        proof {
            assert(peers@.skip(i as int)[0] == *p);
            assert(views.skip(i as int)[0] == opt_text(faults@[i as int]));
            assert(peers@.skip(i as int).skip(1) =~= peers@.skip(i + 1));
            assert(views.skip(i as int).skip(1) =~= views.skip(i + 1));
            assert(peer_ids(peers@).take(i + 1) =~= peer_ids(peers@).take(i as int).push(p.id));
        }
        if holds(&ids, p.id) {
            let n = decimal(p.id);
            return Err(join2("node.peers 含重复节点 id ", n.as_str()));
        }
        if let Some(e) = &faults[i] {
            let n = decimal(p.id);
            let uri = normalize_endpoint(p.addr.as_str());
            let mut text = join5(
                "node.peers 中节点 ",
                n.as_str(),
                " 地址 ",
                uri.as_str(),
                " 非法：",
            );
            text.append(e.as_str());
            return Err(text);
        }
        ids.push(p.id);
        i += 1;
    }
    proof {
        assert(peer_ids(peers@).take(peers@.len() as int) =~= peer_ids(peers@));
    }
    if holds(&ids, config.node.id) {
        Ok(BootstrapMode::Bootstrap(members_of(peers)))
    } else {
        Ok(BootstrapMode::WaitOnly)
    }
}

/// `id` is the smallest member whose address is no URI.
pub open spec fn is_first_bad(m: Map<u64, Seq<char>>, id: u64) -> bool {
    &&& m.dom().contains(id)
    &&& endpoint_fault(normalized(m[id])) is Some
    &&& forall|k: u64| k < id && #[trigger] m.dom().contains(k) ==> endpoint_fault(
        normalized(m[k]),
    ) is None
}

/// The text on a member whose address is no URI.
pub open spec fn bad_member_text(id: u64, addr: Seq<char>, fault: Seq<char>) -> Seq<char> {
    "节点 "@ + decimal_text(id as nat) + " 地址 "@ + normalized(addr) + " 非法："@ + fault
}

/// What is wrong with the smallest member whose address is no URI, if there is one.
pub open spec fn clients_fault(m: Map<u64, Seq<char>>) -> Option<Seq<char>> {
    if exists|id: u64| is_first_bad(m, id) {
        let id = choose|id: u64| is_first_bad(m, id);
        Some(bad_member_text(id, m[id], endpoint_fault(normalized(m[id]))->Some_0))
    } else {
        None
    }
}

/// What is wrong with the first entry that has a fault.
pub open spec fn entries_fault(
    entries: Seq<(u64, String)>,
    faults: Seq<Option<Seq<char>>>,
) -> Option<Seq<char>>
    decreases entries.len(),
{
    if entries.len() == 0 {
        None
    } else if faults[0] is Some {
        Some(bad_member_text(entries[0].0, entries[0].1@, faults[0]->Some_0))
    } else {
        entries_fault(entries.skip(1), faults.skip(1))
    }
}

/// Checks the members' addresses, given for each what the URI parser has against it.
pub fn check_members_with(members: &IdMap<String>, faults: &Vec<Option<String>>) -> (r: Result<
    (),
    String,
>)
    requires
        faults@.len() == members.entries@.len(),
    ensures
        crate::config::reports(r, entries_fault(members.entries@, opt_texts(faults@))),
{
    let ghost views = opt_texts(faults@);
    let ghost all = members.entries@;
    let mut i: usize = 0;
    proof {
        assert(all.skip(0) =~= all);
        assert(views.skip(0) =~= views);
    }
    while i < members.entries.len()
        invariant
            i <= all.len(),
            all == members.entries@,
            faults@.len() == all.len(),
            views == opt_texts(faults@),
            entries_fault(all, views) == entries_fault(all.skip(i as int), views.skip(i as int)),
        decreases all.len() - i,
    {
        proof {
            assert(all.skip(i as int)[0] == all[i as int]);
            assert(views.skip(i as int)[0] == opt_text(faults@[i as int]));
            assert(all.skip(i as int).skip(1) =~= all.skip(i + 1));
            assert(views.skip(i as int).skip(1) =~= views.skip(i + 1));
        }
        if let Some(e) = &faults[i] {
            let n = decimal(members.entries[i].0);
            let uri = normalize_endpoint(members.entries[i].1.as_str());
            let mut text = join5("节点 ", n.as_str(), " 地址 ", uri.as_str(), " 非法：");
            text.append(e.as_str());
            return Err(text);
        }
        i += 1;
    }
    Ok(())
}

/// Checks that every member can be connected to, in ascending order of ids.
pub fn check_members(members: &IdMap<String>) -> (r: Result<(), String>)
    requires
        members.wf(),
    ensures
        crate::config::reports(r, clients_fault(texts(members@))),
{
    let mut faults: Vec<Option<String>> = Vec::new();
    let mut i: usize = 0;
    let ghost all = members.entries@;
    while i < members.entries.len()
        invariant
            i <= all.len(),
            all == members.entries@,
            faults@.len() == i,
            forall|k: int|
                0 <= k < i ==> opt_text(#[trigger] faults@[k]) == endpoint_fault(
                    normalized(all[k].1@),
                ),
        decreases all.len() - i,
    {
        let uri = normalize_endpoint(members.entries[i].1.as_str());
        faults.push(endpoint_from_shared(uri.as_str()));
        i += 1;
    }
    proof {
        lemma_entries_fault(*members, opt_texts(faults@), 0);
        assert(all.skip(0) =~= all);
        assert(opt_texts(faults@).skip(0) =~= opt_texts(faults@));
    }
    check_members_with(members, &faults)
}

proof fn lemma_entries_fault(members: IdMap<String>, faults: Seq<Option<Seq<char>>>, n: int)
    requires
        members.wf(),
        0 <= n <= members.entries@.len(),
        faults.len() == members.entries@.len(),
        forall|k: int|
            0 <= k < faults.len() ==> #[trigger] faults[k] == endpoint_fault(
                normalized(members.entries@[k].1@),
            ),
        forall|k: int| 0 <= k < n ==> #[trigger] faults[k] is None,
    ensures
        entries_fault(members.entries@.skip(n), faults.skip(n)) == clients_fault(
            texts(members@),
        ),
    decreases members.entries@.len() - n,
{
    let m = texts(members@);
    let all = members.entries@;
    if n == all.len() {
        assert forall|id: u64| !is_first_bad(m, id) by {
            if m.dom().contains(id) {
                let k = members.index(id);
                assert(members.key(k) == id);
                members.lemma_entry(k);
                assert(faults[k] is None);
            }
        }
    } else {
        assert(all.skip(n)[0] == all[n]);
        assert(faults.skip(n)[0] == faults[n]);
        members.lemma_entry(n);
        let id = members.key(n);
        if faults[n] is Some {
            assert(is_first_bad(m, id)) by {
                assert forall|k: u64| k < id && #[trigger] m.dom().contains(k) implies endpoint_fault(
                    normalized(m[k]),
                ) is None by {
                    let j = members.index(k);
                    assert(members.key(j) == k);
                    members.lemma_entry(j);
                    if j >= n {
                        if j > n {
                            assert(members.key(n) < members.key(j));
                        }
                    }
                    assert(faults[j] is None);
                }
            }
            let other = choose|x: u64| is_first_bad(m, x);
            assert(other == id) by {
                if other < id {
                    assert(endpoint_fault(normalized(m[other])) is None);
                }
                if id < other {
                    assert(endpoint_fault(normalized(m[id])) is None);
                }
            }
        } else {
            assert(all.skip(n).skip(1) =~= all.skip(n + 1));
            assert(faults.skip(n).skip(1) =~= faults.skip(n + 1));
            lemma_entries_fault(members, faults, n + 1);
        }
    }
}

/// Some member has an `https` address.
pub open spec fn any_https(members: Map<u64, Seq<char>>) -> bool {
    exists|id: u64| #[trigger] members.dom().contains(id) && has_prefix(members[id], "https://"@)
}

/// True if members are reached over TLS although none is set up here, so that they
/// go unchecked: worth a warning.
pub fn unchecked_tls(members: &IdMap<String>, tls_configured: bool) -> (r: bool)
    requires
        members.wf(),
    ensures
        r == (!tls_configured && any_https(texts(members@))),
{
    if tls_configured {
        return false;
    }
    let ghost m = texts(members@);
    let mut i: usize = 0;
    while i < members.entries.len()
        invariant
            i <= members.entries@.len(),
            members.wf(),
            !tls_configured,
            m == texts(members@),
            forall|k: int|
                0 <= k < i ==> !has_prefix((#[trigger] members.entries@[k]).1@, "https://"@),
        decreases members.entries@.len() - i,
    {
        if starts_with(members.entries[i].1.as_str(), "https://") {
            proof {
                members.lemma_entry(i as int);
                assert(m.dom().contains(members.key(i as int)));
            }
            return true;
        }
        i += 1;
    }
    proof {
        if any_https(m) {
            let id = choose|id: u64| #[trigger]
                m.dom().contains(id) && has_prefix(m[id], "https://"@);
            let k = members.index(id);
            assert(members.key(k) == id);
            members.lemma_entry(k);
            assert(!has_prefix(members.entries@[k].1@, "https://"@));
        }
    }
    false
}

/// True if both lists hold the same numbers, each as often.
pub fn same_ids(voters: &Vec<u64>, config_ids: &Vec<u64>) -> (r: bool)
    ensures
        r == (voters@.to_multiset() == config_ids@.to_multiset()),
{
    let v = sort(voters);
    let c = sort(config_ids);
    proof {
        if v@.to_multiset() == c@.to_multiset() {
            lemma_sort_unique(v@, c@);
        }
    }
    if v.len() != c.len() {
        return false;
    }
    let mut i: usize = 0;
    while i < v.len()
        invariant
            i <= v@.len(),
            v@.len() == c@.len(),
            forall|k: int| 0 <= k < i ==> v@[k] == c@[k],
            v@.to_multiset() == c@.to_multiset() ==> v@ == c@,
            v@.to_multiset() == voters@.to_multiset(),
            c@.to_multiset() == config_ids@.to_multiset(),
        decreases v@.len() - i,
    {
        if v[i] != c[i] {
            return false;
        }
        i += 1;
    }
    assert(v@ =~= c@);
    true
}

/// The delay drawn from a random number: 0 to the longest, in milliseconds.
pub fn delay_from(random: u128) -> (ms: u64)
    ensures
        ms == random % 2001,
        ms <= FORMATION_DELAY_MS,
{
    (random % 2001) as u64
}

/// A random delay, which keeps the nodes from initializing a shard at one moment.
pub fn formation_delay_ms() -> (ms: u64)
    ensures
        ms <= FORMATION_DELAY_MS,
{
    delay_from(uuid_random())
}

/// What a peer says of a shard.
#[derive(Debug)]
pub struct RaftState {
    pub has_last_log_index: bool,
    pub last_log_index: u64,
    pub voter_ids: Vec<u64>,
}

/// The peer's shard was initialized: it has log entries or voters.
pub open spec fn is_initialized(s: RaftState) -> bool {
    (s.has_last_log_index && s.last_log_index > 0) || s.voter_ids@.len() > 0
}

/// What asking the peers came to.
#[derive(Debug)]
pub enum ProbeOutcome {
    /// A peer has a cluster, with these voters.
    ClusterExists { at: u64, voters: Vec<u64> },
    /// Every peer answered, and none has a cluster.
    NoCluster,
    /// These peers did not answer in the last round.
    Unreachable(Vec<u64>),
}

/// Asking the peers, round by round.
#[derive(Debug)]
pub struct Probe {
    /// The peers in the order of asking.
    pub peers: Vec<u64>,
    /// Rounds finished.
    pub rounds: u32,
    /// Peers asked in this round.
    pub asked: usize,
    /// Peers that did not answer in this round.
    pub silent: Vec<u64>,
}

/// What to do next.
#[derive(Debug)]
pub enum ProbeStep {
    /// Ask this peer and report its answer.
    Ask { probe: Probe, peer: u64 },
    /// Wait a moment, then report back.
    Wait(Probe),
    Done(ProbeOutcome),
}

impl Probe {
    pub open spec fn wf(&self) -> bool {
        &&& self.peers@.len() > 0
        &&& self.rounds < PROBE_ATTEMPTS
        &&& self.asked < self.peers@.len()
    }

    /// Begins to ask all members but this node.
    pub fn begin(member_ids: &Vec<u64>, self_id: u64) -> (step: ProbeStep)
        ensures
            ({
                let peers = member_ids@.filter(|id: u64| id != self_id);
                if peers.len() == 0 {
                    step == ProbeStep::Done(ProbeOutcome::NoCluster)
                } else {
                    step matches ProbeStep::Ask { probe, peer } && probe.wf() && probe.peers@
                        == peers && probe.rounds == 0 && probe.asked == 0 && probe.silent@.len()
                        == 0 && peer == peers[0]
                }
            }),
    {
        let mut peers: Vec<u64> = Vec::new();
        let ghost keep = |id: u64| id != self_id;
        let mut i: usize = 0;
        proof {
            reveal(Seq::filter);
            assert(member_ids@.take(0) =~= Seq::<u64>::empty());
        }
        while i < member_ids.len()
            invariant
                i <= member_ids@.len(),
                keep == (|id: u64| id != self_id),
                peers@ == member_ids@.take(i as int).filter(keep),
            decreases member_ids@.len() - i,
        {
            proof {
                reveal(Seq::filter);
                assert(member_ids@.take(i + 1).drop_last() =~= member_ids@.take(i as int));
            }
            if member_ids[i] != self_id {
                peers.push(member_ids[i]);
            }
            i += 1;
        }
        proof {
            assert(member_ids@.take(member_ids@.len() as int) =~= member_ids@);
        }
        if peers.is_empty() {
            return ProbeStep::Done(ProbeOutcome::NoCluster);
        }
        let peer: u64 = peers[0];
        ProbeStep::Ask { probe: Probe { peers, rounds: 0, asked: 0, silent: Vec::new() }, peer }
    }

    /// Goes on after the peer answered (`None`: it did not).  A peer that is not up
    /// yet is not the same as a peer without a cluster: it is asked again.
    pub fn on_answer(self, answer: Option<RaftState>) -> (step: ProbeStep)
        requires
            self.wf(),
        ensures
            ({
                let peer = self.peers@[self.asked as int];
                let silent = if answer is None {
                    self.silent@.push(peer)
                } else {
                    self.silent@
                };
                if answer is Some && is_initialized(answer->Some_0) {
                    step == ProbeStep::Done(
                        ProbeOutcome::ClusterExists { at: peer, voters: answer->Some_0.voter_ids },
                    )
                } else if self.asked + 1 < self.peers@.len() {
                    step matches ProbeStep::Ask { probe, peer: next } && probe.wf() && probe.peers
                        == self.peers && probe.rounds == self.rounds && probe.asked == self.asked
                        + 1 && probe.silent@ == silent && next == self.peers@[self.asked + 1]
                } else if silent.len() == 0 {
                    step == ProbeStep::Done(ProbeOutcome::NoCluster)
                } else {
                    step matches ProbeStep::Wait(probe) && probe.wf() && probe.peers == self.peers
                        && probe.rounds == self.rounds && probe.asked == self.asked
                        && probe.silent@ == silent
                }
            }),
    {
        let mut probe = self;
        let peer: u64 = probe.peers[probe.asked];
        match answer {
            Some(state) => {
                if (state.has_last_log_index && state.last_log_index > 0)
                    || !state.voter_ids.is_empty() {
                    return ProbeStep::Done(
                        ProbeOutcome::ClusterExists { at: peer, voters: state.voter_ids },
                    );
                }
            },
            None => {
                probe.silent.push(peer);
            },
        }
        let n = probe.peers.len();
        if probe.asked + 1 < n {
            probe.asked = probe.asked + 1;
            let next: u64 = probe.peers[probe.asked];
            return ProbeStep::Ask { probe, peer: next };
        }
        if probe.silent.is_empty() {
            return ProbeStep::Done(ProbeOutcome::NoCluster);
        }
        ProbeStep::Wait(probe)
    }

    /// Goes on after a round with silent peers: with another round, or not, after the
    /// last one.
    pub fn on_waited(self) -> (step: ProbeStep)
        requires
            self.wf(),
        ensures
            if self.rounds + 1 < PROBE_ATTEMPTS {
                step matches ProbeStep::Ask { probe, peer } && probe.wf() && probe.peers
                    == self.peers && probe.rounds == self.rounds + 1 && probe.asked == 0
                    && probe.silent@.len() == 0 && peer == self.peers@[0]
            } else {
                step == ProbeStep::Done(ProbeOutcome::Unreachable(self.silent))
            },
    {
        let mut probe = self;
        if probe.rounds + 1 < PROBE_ATTEMPTS {
            probe.rounds = probe.rounds + 1;
            probe.asked = 0;
            probe.silent = Vec::new();
            let peer: u64 = probe.peers[0];
            ProbeStep::Ask { probe, peer }
        } else {
            ProbeStep::Done(ProbeOutcome::Unreachable(probe.silent))
        }
    }
}

/// What the node does about one shard.
#[derive(Clone, Copy, Debug, PartialEq, Eq, Structural)]
pub enum ShardPlan {
    /// Nothing: the shard has a log, or its state is unknown.
    Leave,
    /// Wait a random moment, then look again.
    Delay,
    /// Ask the peers.
    Probe,
    /// Join the cluster that exists; the flag tells whether its voters are the
    /// configured members.
    Join { as_configured: bool },
    /// Start the cluster.
    Initialize,
}

/// First look: a shard with a log is left alone (`None`: its state is unknown).
pub fn first_look(initialized: Option<bool>) -> (p: ShardPlan)
    ensures
        p == (if initialized == Some(false) {
            ShardPlan::Delay
        } else {
            ShardPlan::Leave
        }),
{
    match initialized {
        Some(false) => ShardPlan::Delay,
        _ => ShardPlan::Leave,
    }
}

/// Second look, after the delay: meanwhile another node's log may have arrived.
pub fn second_look(initialized: Option<bool>) -> (p: ShardPlan)
    ensures
        p == (if initialized == Some(true) {
            ShardPlan::Leave
        } else {
            ShardPlan::Probe
        }),
{
    match initialized {
        Some(true) => ShardPlan::Leave,
        _ => ShardPlan::Probe,
    }
}

/// After the peers were asked.  Nodes that start a cluster with the same members at
/// one moment end up in one cluster, so unreachable peers do not stop this one.
pub fn after_probe(outcome: &ProbeOutcome, member_ids: &Vec<u64>) -> (p: ShardPlan)
    ensures
        p == (match *outcome {
            ProbeOutcome::ClusterExists { at: _, voters } => ShardPlan::Join {
                as_configured: voters@.to_multiset() == member_ids@.to_multiset(),
            },
            ProbeOutcome::NoCluster => ShardPlan::Initialize,
            ProbeOutcome::Unreachable(_) => ShardPlan::Initialize,
        }),
{
    match outcome {
        ProbeOutcome::ClusterExists { at: _, voters } => ShardPlan::Join {
            as_configured: same_ids(voters, member_ids),
        },
        ProbeOutcome::NoCluster => ShardPlan::Initialize,
        ProbeOutcome::Unreachable(_) => ShardPlan::Initialize,
    }
}

/// What the consensus engine answers to an initialization.
#[derive(Clone, Copy, Debug, PartialEq, Eq, Structural)]
pub enum InitAnswer {
    Done,
    /// The shard was initialized in the meantime.
    NotAllowed,
    /// This node is not among the members.
    NotInMembers,
    /// Any other failure.
    Failed,
}

/// What follows.
#[derive(Clone, Copy, Debug, PartialEq, Eq, Structural)]
pub enum InitStep {
    /// The shard is initialized, by this node or by another.
    Formed { by_this_node: bool },
    /// This node waits to be taken in.
    Excluded,
    /// Wait, then try again; so many tries have failed.
    Retry { failed: u32 },
    /// Wait, then leave it to the operator.
    GiveUp,
}

/// Goes on after an initialization was answered, `failed` tries having failed before.
pub fn on_init_answer(failed: u32, answer: InitAnswer) -> (step: InitStep)
    requires
        failed < INIT_ATTEMPTS,
    ensures
        step == (match answer {
            InitAnswer::Done => InitStep::Formed { by_this_node: true },
            InitAnswer::NotAllowed => InitStep::Formed { by_this_node: false },
            InitAnswer::NotInMembers => InitStep::Excluded,
            InitAnswer::Failed => if failed + 1 < INIT_ATTEMPTS {
                InitStep::Retry { failed: (failed + 1) as u32 }
            } else {
                InitStep::GiveUp
            },
        }),
{
    match answer {
        InitAnswer::Done => InitStep::Formed { by_this_node: true },
        InitAnswer::NotAllowed => InitStep::Formed { by_this_node: false },
        InitAnswer::NotInMembers => InitStep::Excluded,
        InitAnswer::Failed => if failed + 1 < INIT_ATTEMPTS {
            InitStep::Retry { failed: failed + 1 }
        } else {
            InitStep::GiveUp
        },
    }
}


proof fn lemma_peers_refusal(
    ids: Seq<u64>,
    peers: Seq<PeerConfig>,
    faults: Seq<Option<Seq<char>>>,
)
    requires
        faults.len() == peers.len(),
    ensures
        peers_refusal(ids, peers, faults) is None <==> (forall|i: int|
            0 <= i < peers.len() ==> faults[i] is None && !ids.contains(
                (#[trigger] peers[i]).id,
            )) && (forall|i: int, j: int|
            0 <= i < j < peers.len() ==> (#[trigger] peers[i]).id != (#[trigger] peers[j]).id),
    decreases peers.len(),
{
    if peers.len() > 0 {
        let rest = peers.skip(1);
        let more_faults = faults.skip(1);
        let more = ids.push(peers[0].id);
        lemma_peers_refusal(more, rest, more_faults);
        assert forall|x: u64| #[trigger] more.contains(x) <==> ids.contains(x) || x
            == peers[0].id by {
            if more.contains(x) {
                let k = choose|k: int| 0 <= k < more.len() && more[k] == x;
                if k < ids.len() {
                    assert(ids[k] == x);
                }
            }
            if ids.contains(x) {
                let k = choose|k: int| 0 <= k < ids.len() && ids[k] == x;
                assert(more[k] == x);
            }
            if x == peers[0].id {
                assert(more[ids.len() as int] == x);
            }
        }
        if peers_refusal(ids, peers, faults) is None {
            assert forall|i: int| 0 <= i < peers.len() implies faults[i] is None && !ids.contains(
                (#[trigger] peers[i]).id,
            ) by {
                if i > 0 {
                    assert(rest[i - 1] == peers[i] && more_faults[i - 1] == faults[i]);
                    assert(!more.contains(rest[i - 1].id));
                }
            }
            assert forall|i: int, j: int| 0 <= i < j < peers.len() implies (#[trigger] peers[i]).id
                != (#[trigger] peers[j]).id by {
                assert(rest[j - 1] == peers[j]);
                if i > 0 {
                    assert(rest[i - 1] == peers[i]);
                } else {
                    assert(!more.contains(rest[j - 1].id));
                }
            }
        }
        if (forall|i: int|
            0 <= i < peers.len() ==> faults[i] is None && !ids.contains(
                (#[trigger] peers[i]).id,
            )) && (forall|i: int, j: int|
            0 <= i < j < peers.len() ==> (#[trigger] peers[i]).id != (#[trigger] peers[j]).id) {
            assert(faults[0] is None && !ids.contains(peers[0].id));
            assert forall|i: int| 0 <= i < rest.len() implies more_faults[i] is None
                && !more.contains((#[trigger] rest[i]).id) by {
                assert(rest[i] == peers[i + 1] && more_faults[i] == faults[i + 1]);
                assert(peers[0].id != peers[i + 1].id);
            }
            assert forall|i: int, j: int| 0 <= i < j < rest.len() implies (#[trigger] rest[i]).id
                != (#[trigger] rest[j]).id by {
                assert(peers[i + 1].id != peers[j + 1].id);
            }
        }
    }
}

proof fn lemma_member_map(peers: Seq<PeerConfig>, i: int)
    requires
        0 <= i < peers.len(),
    ensures
        member_map(peers).dom().contains(peers[i].id),
        (forall|j: int| i < j < peers.len() ==> (#[trigger] peers[j]).id != peers[i].id)
            ==> member_map(peers)[peers[i].id] == normalized(peers[i].addr@),
    decreases peers.len(),
{
    let rest = peers.drop_last();
    let n = peers.len() - 1;
    assert(peers.last() == peers[n]);
    if i < n {
        assert(rest[i] == peers[i]);
        lemma_member_map(rest, i);
        if forall|j: int| i < j < peers.len() ==> (#[trigger] peers[j]).id != peers[i].id {
            assert forall|j: int| i < j < rest.len() implies (#[trigger] rest[j]).id
                != rest[i].id by {
                assert(rest[j] == peers[j]);
            }
            assert(peers[n].id != peers[i].id);
        }
    }
}

proof fn lemma_member_only(peers: Seq<PeerConfig>, id: u64)
    ensures
        member_map(peers).dom().contains(id) ==> exists|i: int|
            0 <= i < peers.len() && (#[trigger] peers[i]).id == id,
    decreases peers.len(),
{
    if peers.len() > 0 {
        let rest = peers.drop_last();
        let n = peers.len() - 1;
        lemma_member_only(rest, id);
        assert(peers.last() == peers[n]);
        if member_map(peers).dom().contains(id) && peers[n].id != id {
            let i = choose|i: int| 0 <= i < rest.len() && (#[trigger] rest[i]).id == id;
            assert(peers[i] == rest[i]);
        }
    }
}

/// Without peers a node forms no cluster.  With peers that have different numbers and
/// usable addresses, a node that is one of them forms it, with all of them as members
/// under their full addresses, and one that is not waits; any other list is refused.
pub proof fn law_node_forms_a_cluster_with_its_peers(
    config: Config,
    faults: Vec<Option<String>>,
    r: Result<BootstrapMode, String>,
    i: int,
)
    requires
        faults@.len() == config.node.peers@.len(),
        call_ensures(decide_mode_with, (&config, &faults), r),
    ensures
        ({
            let peers = config.node.peers@;
            let sound = (forall|k: int| 0 <= k < peers.len() ==> #[trigger] faults@[k] is None) && (
            forall|a: int, b: int|
                0 <= a < b < peers.len() ==> (#[trigger] peers[a]).id != (#[trigger] peers[b]).id);
            let is_one = exists|k: int|
                0 <= k < peers.len() && (#[trigger] peers[k]).id == config.node.id;
            &&& peers.len() == 0 ==> r == Ok::<BootstrapMode, String>(BootstrapMode::Disabled)
            &&& peers.len() > 0 && !sound ==> r is Err
            &&& peers.len() > 0 && sound && !is_one ==> r == Ok::<BootstrapMode, String>(
                BootstrapMode::WaitOnly,
            )
            &&& peers.len() > 0 && sound && is_one ==> {
                &&& r matches Ok(BootstrapMode::Bootstrap(m))
                &&& 0 <= i < peers.len() ==> m@.dom().contains(peers[i].id) && m@[peers[i].id]@
                    == normalized(peers[i].addr@)
            }
        }),
{
    let peers = config.node.peers@;
    let views = opt_texts(faults@);
    lemma_peers_refusal(Seq::empty(), peers, views);
    let ids = peer_ids(peers);
    assert(ids.contains(config.node.id) <==> exists|k: int|
        0 <= k < peers.len() && (#[trigger] peers[k]).id == config.node.id) by {
        if ids.contains(config.node.id) {
            let k = choose|k: int| 0 <= k < ids.len() && ids[k] == config.node.id;
            assert(peers[k].id == config.node.id);
        }
        if exists|k: int| 0 <= k < peers.len() && (#[trigger] peers[k]).id == config.node.id {
            let k = choose|k: int|
                0 <= k < peers.len() && (#[trigger] peers[k]).id == config.node.id;
            assert(ids[k] == config.node.id);
        }
    }
    let sound = (forall|k: int| 0 <= k < peers.len() ==> #[trigger] faults@[k] is None) && (forall|
        a: int,
        b: int,
    |
        0 <= a < b < peers.len() ==> (#[trigger] peers[a]).id != (#[trigger] peers[b]).id);
    assert(peers_refusal(Seq::empty(), peers, views) is None <==> sound) by {
        assert forall|k: int| 0 <= k < peers.len() implies (views[k] is None
            <==> #[trigger] faults@[k] is None) by {}
        if sound {
            assert forall|k: int| 0 <= k < peers.len() implies views[k] is None
                && !Seq::<u64>::empty().contains((#[trigger] peers[k]).id) by {
                assert(faults@[k] is None);
            }
        }
        if peers_refusal(Seq::empty(), peers, views) is None {
            assert forall|k: int| 0 <= k < peers.len() implies #[trigger] faults@[k] is None by {
                assert(!Seq::<u64>::empty().contains(peers[k].id) && views[k] is None);
            }
        }
    }
    if let Ok(BootstrapMode::Bootstrap(m)) = r {
        if 0 <= i < peers.len() && sound {
            lemma_member_map(peers, i);
            assert(texts(m@).dom().contains(peers[i].id));
            assert(texts(m@)[peers[i].id] == m@[peers[i].id]@);
        }
    }
}

/// The members are the peers, each under its full address.
pub proof fn law_members_are_the_peers(peers: Vec<PeerConfig>, m: IdMap<String>, i: int, id: u64)
    requires
        call_ensures(members_of, (&peers,), m),
        0 <= i < peers@.len(),
        forall|j: int| i < j < peers@.len() ==> (#[trigger] peers@[j]).id != peers@[i].id,
    ensures
        m@.dom().contains(peers@[i].id),
        m@[peers@[i].id]@ == normalized(peers@[i].addr@),
        m@.dom().contains(id) ==> exists|k: int|
            0 <= k < peers@.len() && (#[trigger] peers@[k]).id == id,
{
    lemma_member_map(peers@, i);
    lemma_member_only(peers@, id);
    assert(texts(m@).dom() == m@.dom());
    assert(texts(m@)[peers@[i].id] == m@[peers@[i].id]@);
}

/// A warning is due where a member is reached by encryption and nothing says whom to
/// trust.
pub proof fn law_encryption_without_trust_is_noticed(
    members: IdMap<String>,
    tls_configured: bool,
    r: bool,
    id: u64,
)
    requires
        call_ensures(unchecked_tls, (&members, tls_configured), r),
    ensures
        tls_configured ==> !r,
        !tls_configured && members@.dom().contains(id) && members@[id]@.len() >= 8
            && members@[id]@.subrange(0, 8) == "https://"@ ==> r,
        r ==> exists|k: u64| #[trigger]
            members@.dom().contains(k) && members@[k]@.len() >= 8 && members@[k]@.subrange(0, 8)
                == "https://"@,
{
    reveal_strlit("https://");
    let m = texts(members@);
    assert(m.dom() == members@.dom());
    if members@.dom().contains(id) {
        assert(m.dom().contains(id) && m[id] == members@[id]@);
    }
    if r {
        let k = choose|k: u64| #[trigger] m.dom().contains(k) && has_prefix(m[k], "https://"@);
        assert(members@.dom().contains(k) && m[k] == members@[k]@);
        assert(members@[k]@.subrange(0, 8) =~= "https://"@);
    }
}

/// A peer that has a log or voters belongs to a cluster, and the shard joins that one; its
/// voters are as configured where they are the same nodes.  Silent peers are asked again;
/// where all have answered and none belongs to a cluster, the shard is formed.
pub proof fn law_peer_with_a_cluster_is_joined(
    p: Probe,
    answer: Option<RaftState>,
    step: ProbeStep,
)
    requires
        p.wf(),
        call_ensures(Probe::on_answer, (p, answer), step),
    ensures
        ({
            let peer = p.peers@[p.asked as int];
            let found = answer matches Some(s) && ((s.has_last_log_index && s.last_log_index > 0)
                || s.voter_ids@.len() > 0);
            let quiet = p.silent@.len() > 0 || answer is None;
            &&& found ==> (step matches ProbeStep::Done(ProbeOutcome::ClusterExists { at, voters })
                && at == peer && voters@ == answer->0.voter_ids@)
            &&& !found && p.asked + 1 < p.peers@.len() ==> (step matches ProbeStep::Ask {
                probe,
                peer: next,
            } && next == p.peers@[p.asked + 1] && probe.rounds == p.rounds && probe.asked == p.asked
                + 1 && probe.peers == p.peers && probe.silent@ == (if answer is None {
                p.silent@.push(peer)
            } else {
                p.silent@
            }))
            &&& !found && p.asked + 1 == p.peers@.len() && !quiet ==> step == ProbeStep::Done(
                ProbeOutcome::NoCluster,
            )
            &&& !found && p.asked + 1 == p.peers@.len() && quiet ==> step is Wait
        }),
{
}

/// Silent peers are asked again, five rounds in all; then the shard is formed without
/// them.
pub proof fn law_silent_peers_are_asked_in_five_rounds(p: Probe, step: ProbeStep)
    requires
        p.wf(),
        call_ensures(Probe::on_waited, (p,), step),
    ensures
        p.rounds < 4 ==> (step matches ProbeStep::Ask { probe, peer } && probe.rounds == p.rounds
            + 1 && peer == p.peers@[0] && probe.asked == 0 && probe.silent@.len() == 0
            && probe.peers == p.peers),
        p.rounds == 4 ==> step == ProbeStep::Done(ProbeOutcome::Unreachable(p.silent)),
{
}

/// What is found decides what is done with a shard: a cluster that exists is joined, else
/// the shard is formed; forming it is tried three times.
pub proof fn law_shard_joins_or_is_formed(
    outcome: ProbeOutcome,
    member_ids: Vec<u64>,
    plan: ShardPlan,
    failed: u32,
    step: InitStep,
)
    requires
        failed < 3,
        call_ensures(after_probe, (&outcome, &member_ids), plan),
        call_ensures(on_init_answer, (failed, InitAnswer::Failed), step),
    ensures
        outcome matches ProbeOutcome::ClusterExists { at, voters } ==> (plan matches ShardPlan::Join {
            as_configured,
        } && (as_configured <==> voters@.to_multiset() == member_ids@.to_multiset())),
        !(outcome is ClusterExists) ==> plan is Initialize,
        failed < 2 ==> step == (InitStep::Retry { failed: (failed + 1) as u32 }),
        failed == 2 ==> step is GiveUp,
{
}


/// A shard that has a cluster is left alone; one that has none is formed only after a
/// while, within two seconds, and if it has none then either.
pub proof fn law_shard_with_a_cluster_is_left_alone(
    initialized: Option<bool>,
    first: ShardPlan,
    second: ShardPlan,
    random: u128,
    ms: u64,
)
    requires
        call_ensures(first_look, (initialized,), first),
        call_ensures(second_look, (initialized,), second),
        call_ensures(delay_from, (random,), ms),
    ensures
        initialized == Some(true) ==> first is Leave && second is Leave,
        initialized == Some(false) ==> first is Delay && second is Probe,
        initialized is None ==> first is Leave && second is Probe,
        ms <= 2000,
        random <= 2000 ==> ms == random,
{
}


/// The mode is decided by the addresses as they are written out in full: whoever is told
/// of each address whether it can be used decides the same.
pub proof fn law_mode_goes_by_the_full_addresses(
    config: Config,
    faults: Vec<Option<String>>,
    r: Result<BootstrapMode, String>,
    told: Result<BootstrapMode, String>,
)
    requires
        faults@.len() == config.node.peers@.len(),
        forall|k: int|
            0 <= k < faults@.len() ==> opt_text(#[trigger] faults@[k]) == endpoint_fault(
                normalized(config.node.peers@[k].addr@),
            ),
        call_ensures(decide_mode, (&config,), r),
        call_ensures(decide_mode_with, (&config, &faults), told),
    ensures
        r is Ok <==> told is Ok,
        r matches Err(e) ==> e@ == told->Err_0@,
        r matches Ok(BootstrapMode::Disabled) <==> told matches Ok(BootstrapMode::Disabled),
        r matches Ok(BootstrapMode::WaitOnly) <==> told matches Ok(BootstrapMode::WaitOnly),
{
    assert(opt_texts(faults@) =~= addr_faults(config.node.peers@));
}

proof fn lemma_no_entries_fault(all: Seq<(u64, String)>, views: Seq<Option<Seq<char>>>)
    requires
        views.len() == all.len(),
    ensures
        entries_fault(all, views) is None <==> forall|k: int|
            0 <= k < all.len() ==> #[trigger] views[k] is None,
    decreases all.len(),
{
    if all.len() > 0 {
        let rest = views.skip(1);
        lemma_no_entries_fault(all.skip(1), rest);
        if views[0] is None && (forall|k: int| 0 <= k < rest.len() ==> #[trigger] rest[k] is None) {
            assert forall|k: int| 0 <= k < all.len() implies #[trigger] views[k] is None by {
                if k > 0 {
                    assert(rest[k - 1] == views[k]);
                }
            }
        }
        if forall|k: int| 0 <= k < all.len() ==> #[trigger] views[k] is None {
            assert forall|k: int| 0 <= k < rest.len() implies #[trigger] rest[k] is None by {
                assert(views[k + 1] is None);
            }
            assert(views[0] is None);
        }
    }
}

/// Members are accepted exactly where every one of their addresses can be used.
pub proof fn law_members_are_accepted_where_all_can_be_reached(
    members: IdMap<String>,
    faults: Vec<Option<String>>,
    r: Result<(), String>,
)
    requires
        faults@.len() == members.entries@.len(),
        call_ensures(check_members_with, (&members, &faults), r),
    ensures
        r is Ok <==> forall|k: int| 0 <= k < faults@.len() ==> #[trigger] faults@[k] is None,
{
    let views = opt_texts(faults@);
    lemma_no_entries_fault(members.entries@, views);
    assert forall|k: int| 0 <= k < faults@.len() implies (#[trigger] faults@[k] is None
        <==> views[k] is None) by {}
    if forall|k: int| 0 <= k < faults@.len() ==> #[trigger] faults@[k] is None {
        assert forall|k: int| 0 <= k < faults@.len() implies #[trigger] views[k] is None by {
            assert(faults@[k] is None);
        }
    }
    if entries_fault(members.entries@, views) is None {
        assert forall|k: int| 0 <= k < faults@.len() implies #[trigger] faults@[k] is None by {
            assert(views[k] is None);
        }
    }
}

} // verus!
