//! The service for requests on streams, put together.

use vstd::prelude::*;

use crate::config::{Config, FileRead, LimitsSection, held};
use crate::order::{increasing, lists};
use crate::ownership::{
    ControlRecord, StreamOwnership, configured_shards, control_fault, control_shard,
};
use crate::route_table::{RouteTableManager, below_dir, is_fresh_manager, routes_path};
use crate::rpc_support::{RemoteShards, leader_hint, leader_hint_status, locates, trust_of};
use crate::status::{Code, Status};
use crate::text::decimal_text;

verus! {

/// What the requests on streams go by.
#[derive(Debug)]
pub struct EsService {
    pub limits: LimitsSection,
    /// Who owns the streams, and the routes to them.
    pub ownership: StreamOwnership,
    pub remote: RemoteShards,
    /// All shards, in ascending order.
    pub all_shards: Vec<u64>,
}

/// The service is that of the configuration, with the control shard on record, else the
/// smallest; nothing has been asked of it yet.
pub open spec fn is_service(
    s: EsService,
    config: Config,
    record: ControlRecord,
    ca: FileRead,
) -> bool {
    let shards = held(config.placement.nodes@).to_set();
    &&& s.wf()
    &&& control_fault(held(config.placement.nodes@), record) is None
    &&& lists(s.ownership.eligible_shards@, shards)
    &&& s.ownership.control_shard_id == (match record {
        ControlRecord::Recorded(id) => id,
        _ => s.ownership.eligible_shards@[0],
    })
    &&& s.ownership.eligible_shards@.contains(s.ownership.control_shard_id)
    &&& !s.ownership.initialized
    &&& s.ownership.confirmed_fences@ == Map::<Seq<char>, (u64, u64)>::empty()
    &&& locates(config, ca, Ok(s.remote))
    &&& lists(s.all_shards@, shards)
}

/// The text says why there is no service for the configuration: there is no control
/// shard, or the other nodes cannot be located.
pub open spec fn is_refused(
    e: String,
    config: Config,
    record: ControlRecord,
    ca: FileRead,
) -> bool {
    match control_fault(held(config.placement.nodes@), record) {
        Some(text) => e@ == text,
        None => locates(config, ca, Err(e)),
    }
}

impl EsService {
    pub open spec fn wf(&self) -> bool {
        self.ownership.wf() && self.remote.wf() && increasing(self.all_shards@)
    }

    /// The service for a configuration, with the limits of the configuration and routes
    /// of its own.  The second part of the result tells whether the control shard is yet
    /// to be recorded.
    pub fn new(config: &Config, record: ControlRecord, ca: FileRead, ca_again: FileRead) -> (r:
        Result<(EsService, bool), String>)
        ensures
            match r {
                Ok((s, to_record)) => {
                    &&& is_service(s, *config, record, ca_again)
                    &&& s.limits == config.limits
                    &&& s.ownership.route_table.path@ == below_dir(
                        config.storage.data_dir@,
                        "routes.json"@,
                    )
                    &&& trust_of(*config, ca) matches Ok(trust) && is_fresh_manager(
                        s.ownership.route_table,
                        *config,
                        trust,
                    )
                    &&& to_record == (record is Missing)
                },
                Err(e) => match trust_of(*config, ca) {
                    Err(text) => e@ == text,
                    Ok(_) => is_refused(e, *config, record, ca_again),
                },
            },
    {
        let path = routes_path(config.storage.data_dir.as_str());
        let route_table = match RouteTableManager::new(config, path, ca) {
            Ok(m) => m,
            Err(e) => return Err(e),
        };
        EsService::with_limits(config.limits, route_table, config, record, ca_again)
    }

    /// The service with limits and routes of the caller's.
    pub fn with_limits(
        limits: LimitsSection,
        route_table: RouteTableManager,
        config: &Config,
        record: ControlRecord,
        ca: FileRead,
    ) -> (r: Result<(EsService, bool), String>)
        requires
            route_table.wf(),
        ensures
            match r {
                Ok((s, to_record)) => {
                    &&& is_service(s, *config, record, ca)
                    &&& s.limits == limits
                    &&& s.ownership.route_table == route_table
                    &&& to_record == (record is Missing)
                },
                Err(e) => is_refused(e, *config, record, ca),
            },
    {
        let eligible = configured_shards(&config.placement);
        let ghost h = held(config.placement.nodes@);
        proof {
            if h.len() > 0 {
                assert(h.contains(h[0]));
                assert(h.to_set().contains(h[0]));
                assert(eligible@.contains(h[0]));
            }
            if eligible@.len() > 0 {
                assert(eligible@.contains(eligible@[0]));
                assert(h.to_set().contains(eligible@[0]));
                assert(h.contains(eligible@[0]));
            }
            if let ControlRecord::Recorded(id) = record {
                assert(eligible@.contains(id) <==> h.to_set().contains(id));
                assert(h.to_set().contains(id) <==> h.contains(id));
            }
        }
        let control = match control_shard(&eligible, record) {
            Ok(c) => c,
            Err(e) => return Err(e),
        };
        let ownership = StreamOwnership::new(route_table, eligible, control.shard_id);
        match EsService::with_ownership(limits, ownership, config, ca) {
            Ok(s) => Ok((s, control.to_record)),
            Err(e) => Err(e),
        }
    }

    /// The service with limits, routes and ownership of the caller's.
    pub fn with_ownership(
        limits: LimitsSection,
        ownership: StreamOwnership,
        config: &Config,
        ca: FileRead,
    ) -> (r: Result<EsService, String>)
        requires
            ownership.wf(),
        ensures
            match r {
                Ok(s) => {
                    &&& s.wf()
                    &&& s.limits == limits
                    &&& s.ownership == ownership
                    &&& locates(*config, ca, Ok(s.remote))
                    &&& lists(s.all_shards@, held(config.placement.nodes@).to_set())
                },
                Err(e) => locates(*config, ca, Err(e)) && forall|remote: RemoteShards|
                    !locates(*config, ca, Ok(remote)),
            },
    {
        match RemoteShards::new(config, ca) {
            Ok(remote) => Ok(
                EsService {
                    limits,
                    ownership,
                    remote,
                    all_shards: config.placement.all_shards(),
                },
            ),
            Err(e) => Err(e),
        }
    }
}

/// Admits a write to a shard; where it is not here, the caller is pointed to its leader.
pub fn resolve_write_shard(here: bool, leader: Option<(u64, String)>) -> (r: Result<(), Status>)
    ensures
        if here {
            r is Ok
        } else {
            r matches Err(s) && s@ == leader_hint(
                match leader {
                    Some(l) => Some((l.0, l.1@)),
                    None => None,
                },
            )
        },
{
    if here {
        Ok(())
    } else {
        Err(leader_hint_status(leader))
    }
}


/// The service knows every shard of the configuration; the control shard is the one on
/// record, or else the first, which is then to be recorded.
pub proof fn law_service_keeps_its_control_shard(
    config: Config,
    record: ControlRecord,
    ca: FileRead,
    ca_again: FileRead,
    s: EsService,
    to_record: bool,
    shard: u64,
)
    requires
        call_ensures(
            EsService::new,
            (&config, record, ca, ca_again),
            Ok::<(EsService, bool), String>((s, to_record)),
        ),
    ensures
        s.limits == config.limits,
        s.all_shards@.contains(shard) <==> held(config.placement.nodes@).contains(shard),
        record matches ControlRecord::Recorded(id) ==> s.ownership.control_shard_id == id
            && !to_record,
        record is Missing ==> to_record && held(config.placement.nodes@).contains(
            s.ownership.control_shard_id,
        ),
        record is Missing && held(config.placement.nodes@).contains(shard)
            ==> s.ownership.control_shard_id <= shard,
{
    let all = held(config.placement.nodes@);
    assert(all.to_set().contains(shard) <==> all.contains(shard));
    assert(s.all_shards@.contains(shard) <==> all.to_set().contains(shard));
    let c = s.ownership.control_shard_id;
    assert(all.to_set().contains(c) <==> all.contains(c));
}

/// A write is taken where the shard is, and elsewhere sent to the leader.
pub proof fn law_write_is_taken_where_the_shard_is(
    here: bool,
    leader: Option<(u64, String)>,
    r: Result<(), Status>,
)
    requires
        call_ensures(resolve_write_shard, (here, leader), r),
    ensures
        r is Ok <==> here,
        r matches Err(s) ==> s@.code == Code::Unavailable,
        r matches Err(s) ==> (leader matches Some((id, addr)) ==> s@.message
            == "not leader; leader_id="@ + decimal_text(id as nat) + " leader_addr="@ + addr@),
{
}

} // verus!
