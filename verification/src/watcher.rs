//! Taking over a configuration that changed while the server runs.

use vstd::prelude::*;

use crate::config::{Config, NodeConfig, Probes, internal_addr_faults, is_checked};
use crate::order::{difference, holds, lemma_filter_has};

verus! {

/// How long the server waits after a change for further changes, in milliseconds.
pub const DEBOUNCE_MS: u64 = 200;

/// How often the server looks at the file by itself, in milliseconds.
pub const RECONCILE_INTERVAL_MS: u64 = 500;

/// Accepts a configuration that was read anew.  The node stays the one that the server
/// was started as.
pub fn hot_config(config: Config, self_node_id: u64, probes: &Probes) -> (r: Result<Config, String>)
    ensures
        ({
            let c = Config { node: NodeConfig { id: self_node_id, ..config.node }, ..config };
            match r {
                Ok(accepted) => accepted == c && is_checked(
                    c,
                    *probes,
                    internal_addr_faults(c.node.peers@),
                    Ok(()),
                ),
                Err(e) => is_checked(
                    c,
                    *probes,
                    internal_addr_faults(c.node.peers@),
                    Err(e),
                ),
            }
        }),
{
    let mut config = config;
    config.node.id = self_node_id;
    match config.validate(probes) {
        Ok(_) => Ok(config),
        Err(e) => Err(e),
    }
}

/// How the shards of this node change.
#[derive(Debug)]
pub struct ShardChange {
    /// Shards to be created.
    pub added: Vec<u64>,
    /// Shards that the configuration no longer has; they run on until the server stops.
    pub removed: Vec<u64>,
    /// True while every shard that was to be created was.
    pub created_all: bool,
}

/// Compares the shards that the configuration gives this node with those that run.
pub fn plan_config_change(desired: &Vec<u64>, current: &Vec<u64>) -> (c: ShardChange)
    ensures
        c.added@ == desired@.filter(|s: u64| !current@.contains(s)),
        c.removed@ == current@.filter(|s: u64| !desired@.contains(s)),
        c.created_all,
{
    ShardChange {
        added: difference(desired, current),
        removed: difference(current, desired),
        created_all: true,
    }
}

impl ShardChange {
    /// True if the shard is still to be created: it may run by now.
    pub fn is_to_be_created(&self, shard_id: u64, running: &Vec<u64>) -> (r: bool)
        ensures
            r == !running@.contains(shard_id),
    {
        !holds(running, shard_id)
    }

    /// Takes what came of the creation of a shard.
    pub fn note(&mut self, created: bool)
        ensures
            final(self).added == old(self).added,
            final(self).removed == old(self).removed,
            final(self).created_all == (old(self).created_all && created),
    {
        self.created_all = self.created_all && created;
    }

    /// True if the other parts of the configuration may be taken over: nobody is sent
    /// to a shard that could not be created.
    pub fn may_reload(&self) -> (r: bool)
        ensures
            r == self.created_all,
    {
        self.created_all
    }
}


/// A changed configuration brings in the shards that it has and that do not run, and takes
/// out those that run and that it does not have.
pub proof fn law_change_brings_in_and_takes_out(
    desired: Vec<u64>,
    current: Vec<u64>,
    c: ShardChange,
    s: u64,
)
    requires
        call_ensures(plan_config_change, (&desired, &current), c),
    ensures
        c.added@.contains(s) <==> desired@.contains(s) && !current@.contains(s),
        c.removed@.contains(s) <==> current@.contains(s) && !desired@.contains(s),
        c.created_all,
{
    lemma_filter_has(desired@, |x: u64| !current@.contains(x), s);
    lemma_filter_has(current@, |x: u64| !desired@.contains(x), s);
}

/// The node keeps its own number whatever a changed configuration says, and takes over all
/// else of it.
pub proof fn law_node_keeps_its_number(
    config: Config,
    self_node_id: u64,
    probes: Probes,
    accepted: Config,
)
    requires
        call_ensures(
            hot_config,
            (config, self_node_id, &probes),
            Ok::<Config, String>(accepted),
        ),
    ensures
        accepted.node.id == self_node_id,
        accepted.node.peers == config.node.peers && accepted.node.listen_addr
            == config.node.listen_addr && accepted.placement == config.placement
            && accepted.storage == config.storage && accepted.limits == config.limits,
{
}


/// A shard that runs is not created again, and the topology is taken over only if every
/// shard that was to be created was.
pub proof fn law_topology_waits_for_every_new_shard(
    this: &mut ShardChange,
    created: bool,
    running: Vec<u64>,
    shard_id: u64,
    wanted: bool,
    may: bool,
)
    requires
        call_ensures(ShardChange::is_to_be_created, (old(this), shard_id, &running), wanted),
        call_ensures(ShardChange::note, (this, created), ()),
        call_ensures(ShardChange::may_reload, (final(this),), may),
    ensures
        wanted <==> !running@.contains(shard_id),
        !created ==> !may,
        created ==> (may <==> old(this).created_all),
        final(this).added == old(this).added && final(this).removed == old(this).removed,
{
}

} // verus!
