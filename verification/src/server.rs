//! The server as a whole.

use vstd::prelude::*;

use crate::aggregate_service::AggregateStoreService;
use crate::config::{Config, FileRead, Probes, internal_addr_faults, is_checked};
use crate::rpc_support::is_topology;
use crate::text::{ends_with, has_suffix};

verus! {

/// A server with a valid configuration.
#[derive(Debug)]
pub struct Server {
    pub config: Config,
    pub service: AggregateStoreService,
}

impl Server {
    /// A server for a configuration, which has to be valid.  Nothing is opened, and no
    /// connection is made.
    pub fn new(config: Config, probes: &Probes, ca: FileRead) -> (r: Result<Server, String>)
        ensures
            match r {
                Ok(s) => {
                    &&& s.config == config
                    &&& is_checked(
                        config,
                        *probes,
                        internal_addr_faults(config.node.peers@),
                        Ok(()),
                    )
                    &&& is_topology(config, ca, Ok(s.service.topology.current))
                    &&& s.service.topology.current.wf()
                    &&& s.service.max_event_bytes == config.limits.max_event_bytes
                },
                Err(e) => is_checked(
                    config,
                    *probes,
                    internal_addr_faults(config.node.peers@),
                    Err(e),
                ) || (is_checked(
                    config,
                    *probes,
                    internal_addr_faults(config.node.peers@),
                    Ok(()),
                ) && is_topology(config, ca, Err(e))),
            },
    {
        if let Err(e) = config.validate(probes) {
            return Err(e);
        }
        match AggregateStoreService::new(&config, ca) {
            Ok(service) => Ok(Server { config, service }),
            Err(e) => Err(e),
        }
    }

    /// The configuration that the server was started with.
    pub fn config(&self) -> (c: &Config)
        ensures
            *c == self.config,
    {
        &self.config
    }

    /// The service for requests on aggregates.
    pub fn aggregate_store_service(&self) -> (s: &AggregateStoreService)
        ensures
            *s == self.service,
    {
        &self.service
    }
}

/// A service that a node offers on the network.
#[derive(Clone, Copy, Debug, PartialEq, Eq, Structural)]
pub enum GrpcService {
    /// Aggregates, for clients.
    AggregateStore,
    /// Consensus between nodes.
    RaftRpc,
    /// Forming and inspecting groups.
    RaftAdmin,
    /// Aggregates, for other nodes.
    AggregateStoreInternal,
}

/// Where a node listens, what it offers there, and whether under TLS.
#[derive(Debug)]
pub struct Listener {
    pub address: String,
    pub services: Vec<GrpcService>,
    pub tls: bool,
}

/// The listener is at the address and offers exactly these services.
pub open spec fn offers(
    l: Listener,
    address: Seq<char>,
    services: Seq<GrpcService>,
    tls: bool,
) -> bool {
    l.address@ == address && l.services@ == services && l.tls == tls
}

/// Where a node of the configuration listens: for clients, and, if an address for them is
/// configured, for other nodes.
pub fn listeners(config: &Config) -> (out: Vec<Listener>)
    ensures
        out@.len() == (if config.node.internal_listen_addr is Some {
            2int
        } else {
            1
        }),
        offers(
            out@[0],
            config.node.listen_addr@,
            seq![GrpcService::AggregateStore, GrpcService::RaftRpc, GrpcService::RaftAdmin],
            config.tls is Some,
        ),
        config.node.internal_listen_addr matches Some(addr) ==> offers(
            out@[1],
            addr@,
            seq![GrpcService::AggregateStoreInternal],
            config.tls is Some,
        ),
{
    let tls = config.tls.is_some();
    let mut services: Vec<GrpcService> = Vec::new();
    services.push(GrpcService::AggregateStore);
    services.push(GrpcService::RaftRpc);
    services.push(GrpcService::RaftAdmin);
    assert(services@ =~= seq![
        GrpcService::AggregateStore,
        GrpcService::RaftRpc,
        GrpcService::RaftAdmin,
    ]);
    let mut out: Vec<Listener> = Vec::new();
    out.push(Listener { address: config.node.listen_addr.clone(), services, tls });
    if let Some(addr) = &config.node.internal_listen_addr {
        let mut services: Vec<GrpcService> = Vec::new();
        services.push(GrpcService::AggregateStoreInternal);
        assert(services@ =~= seq![GrpcService::AggregateStoreInternal]);
        out.push(Listener { address: addr.clone(), services, tls });
    }
    out
}

/// How a configuration is written down.
#[derive(Clone, Copy, Debug, PartialEq, Eq, Structural)]
pub enum ConfigFormat {
    Json,
    Toml,
}

/// How a configuration is written down, by the name of its file.
pub fn config_format(path: &str) -> (f: ConfigFormat)
    ensures
        f == (if has_suffix(path@, ".json"@) {
            ConfigFormat::Json
        } else {
            ConfigFormat::Toml
        }),
{
    if ends_with(path, ".json") {
        ConfigFormat::Json
    } else {
        ConfigFormat::Toml
    }
}


/// The public address serves the store and the consensus, the internal one, where there is
/// one, the store's internal side; both are encrypted exactly where that is configured.
pub proof fn law_services_are_offered_where_they_belong(config: Config, out: Vec<Listener>)
    requires
        call_ensures(listeners, (&config,), out),
    ensures
        out@.len() == 2 <==> config.node.internal_listen_addr is Some,
        out@.len() == 1 || out@.len() == 2,
        out@[0].address@ == config.node.listen_addr@,
        out@[0].services@ == seq![
            GrpcService::AggregateStore,
            GrpcService::RaftRpc,
            GrpcService::RaftAdmin,
        ],
        out@[0].tls <==> config.tls is Some,
        config.node.internal_listen_addr matches Some(addr) ==> out@[1].address@ == addr@
            && out@[1].services@ == seq![GrpcService::AggregateStoreInternal] && (out@[1].tls
            <==> config.tls is Some),
{
}

/// A configuration is read as JSON where its name ends so, else as TOML.
pub proof fn law_format_goes_by_the_name(path: &str, f: ConfigFormat)
    requires
        call_ensures(config_format, (path,), f),
    ensures
        f is Json <==> path@.len() >= 5 && path@.subrange(path@.len() - 5, path@.len() as int)
            == ".json"@,
{
    reveal_strlit(".json");
}

} // verus!
