//! Who owns a stream.
//!
//! The control shard decides; this node keeps a projection of its decisions.  A
//! write goes only to an owner whose generation the owning shard has confirmed: the
//! shard keeps a fence, the highest generation it has seen, and refuses older ones.
//!
//! What has to be sent to a shard or written to disk is done outside.  A stage says
//! what that is; its answer leads to the next stage.

use vstd::prelude::*;

use crate::config::PlacementConfig;
use crate::maps::{IdMap, TextMap};
use crate::order::{holds, increasing};
use crate::route_table::{Owner, RouteTable, RouteTableManager, RouteTableView, owner_in};
use crate::rpc_support::WriteError;
use crate::status::{Code, Status, StatusView, says};
use crate::text::{decimal, decimal_text, join2, join3};

verus! {

impl Owner {
    /// What a conditional change compares the owner with.
    pub fn match_token(&self) -> (m: OwnerMatch)
        ensures
            m.shard_id == self.shard_id,
            m.generation == self.generation,
    {
        OwnerMatch { shard_id: self.shard_id, generation: self.generation }
    }
}

/// The owner that a change expects to find.
#[derive(Clone, Copy, Debug, PartialEq, Eq, Structural)]
pub struct OwnerMatch {
    pub shard_id: u64,
    pub generation: u64,
}

/// The only place a write may go to.
#[derive(Clone, Copy, Debug, PartialEq, Eq, Structural)]
pub struct AppendTarget {
    pub owner: Owner,
    pub created_now: bool,
}

impl AppendTarget {
    /// The shard to write to.
    pub fn shard_id(&self) -> (s: u64)
        ensures
            s == self.owner.shard_id,
    {
        self.owner.shard_id
    }

    /// The generation that the write carries.
    pub fn generation(&self) -> (g: u64)
        ensures
            g == self.owner.generation,
    {
        self.owner.generation
    }

    /// True if this call created the stream.
    pub fn created_now(&self) -> (c: bool)
        ensures
            c == self.created_now,
    {
        self.created_now
    }

    /// The owner.
    pub fn owner(&self) -> (o: &Owner)
        ensures
            *o == self.owner,
    {
        &self.owner
    }
}

/// A change of ownership.
#[derive(Debug)]
pub enum OwnershipChange {
    /// Move a stream, if its owner is the expected one.
    Move { stream: String, expected: OwnerMatch, target_shard: u64, operation_id: u128 },
    /// Give a stream that has data but no owner to the shard that holds its copy.
    AdoptOrphan { stream: String, source_shard: u64, target_shard: u64 },
    /// Set the shards that new streams may go to, in ascending order.
    ApplyPlacement { eligible_shards: Vec<u64> },
    /// The table on disk was edited.
    ImportLegacy { table: RouteTable },
}

/// The outcome of a change.
#[derive(Clone, Copy, Debug, PartialEq, Eq, Structural)]
pub struct ChangeReceipt {
    pub revision: u64,
    /// The owner, where the change was about one stream.
    pub owner: Option<Owner>,
    /// True if anything changed.
    pub changed: bool,
}

/// Why there is no owner, or no change.
#[derive(Debug)]
pub enum OwnershipError {
    /// No leader or no quorum at the moment.
    Unavailable(String),
    /// The owner is not the expected one.
    Conflict(Option<Owner>),
    Invalid(String),
    /// The table on disk was edited against the authority.
    UnsafeLegacyEdit(String),
    Internal(String),
}

/// The reply for an error.
pub open spec fn error_status(e: OwnershipError) -> StatusView {
    match e {
        OwnershipError::Unavailable(m) => says(Code::Unavailable, m@),
        OwnershipError::Conflict(_) => says(Code::Aborted, "stream ownership changed"@),
        OwnershipError::Invalid(m) => says(Code::FailedPrecondition, m@),
        OwnershipError::UnsafeLegacyEdit(m) => says(Code::FailedPrecondition, m@),
        OwnershipError::Internal(m) => says(Code::Internal, m@),
    }
}

/// The text of an error.
pub open spec fn error_text(e: OwnershipError) -> Seq<char> {
    match e {
        OwnershipError::Unavailable(m) => "归属权威暂时不可用: "@ + m@,
        OwnershipError::Conflict(_) => "归属已变化"@,
        OwnershipError::Invalid(m) => "归属请求无效: "@ + m@,
        OwnershipError::UnsafeLegacyEdit(m) => "不安全的 routes.json 修改: "@ + m@,
        OwnershipError::Internal(m) => "归属内部错误: "@ + m@,
    }
}

impl OwnershipError {
    /// Maps the error to its reply.
    pub fn into_status(self) -> (s: Status)
        ensures
            s@ == error_status(self),
    {
        match self {
            OwnershipError::Unavailable(m) => Status::new(Code::Unavailable, m),
            OwnershipError::Conflict(_) => Status::of(Code::Aborted, "stream ownership changed"),
            OwnershipError::Invalid(m) => Status::new(Code::FailedPrecondition, m),
            OwnershipError::UnsafeLegacyEdit(m) => Status::new(Code::FailedPrecondition, m),
            OwnershipError::Internal(m) => Status::new(Code::Internal, m),
        }
    }

    /// The text of the error.
    pub fn message(&self) -> (text: String)
        ensures
            text@ == error_text(*self),
    {
        match self {
            OwnershipError::Unavailable(m) => join2("归属权威暂时不可用: ", m.as_str()),
            OwnershipError::Conflict(_) => String::from_str("归属已变化"),
            OwnershipError::Invalid(m) => join2("归属请求无效: ", m.as_str()),
            OwnershipError::UnsafeLegacyEdit(m) => join2("不安全的 routes.json 修改: ", m.as_str()),
            OwnershipError::Internal(m) => join2("归属内部错误: ", m.as_str()),
        }
    }
}

/// What the control shard decided.
#[derive(Debug)]
pub enum OwnershipOutcome {
    Owner { owner: Owner, created: bool },
    /// A move may go ahead under this generation.
    MovePrepared { current: Owner, generation: u64, operation_id: u128 },
    Conflict { current: Option<Owner> },
    Invalid { reason: String },
    Snapshot,
}

/// The decision, as it is printed, with the whole table after it.
#[derive(Debug)]
pub struct OwnershipApply {
    pub outcome: OwnershipOutcome,
    pub shown: String,
    pub table: RouteTable,
}

/// The answer of the control shard, and whether the table it came with was written
/// to disk.
#[derive(Debug)]
pub struct Committed {
    pub applied: Result<OwnershipApply, OwnershipError>,
    pub persisted: Result<(), String>,
}

impl Committed {
    pub open spec fn wf(&self) -> bool {
        self.applied matches Ok(a) ==> a.table.wf()
    }
}

/// The ownership that this node knows of.
#[derive(Debug)]
pub struct StreamOwnership {
    /// The projection of what the control shard decided.
    pub route_table: RouteTableManager,
    /// Shards that new streams may go to, in ascending order.
    pub eligible_shards: Vec<u64>,
    /// True once the projection came from the control shard.
    pub initialized: bool,
    /// Owners that their shard has confirmed: shard and generation, by stream.
    pub confirmed_fences: TextMap<(u64, u64)>,
    /// The shard that decides; it stays while the process runs.
    pub control_shard_id: u64,
}

/// The shard that owns the stream has confirmed the owner.
pub open spec fn is_confirmed(
    fences: Map<Seq<char>, (u64, u64)>,
    stream: Seq<char>,
    owner: Owner,
) -> bool {
    fences.dom().contains(stream) && fences[stream] == (owner.shard_id, owner.generation)
}

/// What comes next on the way to a write target.
#[derive(Debug)]
pub enum AppendStage {
    /// Commit the projection and the eligible shards, and adopt the table that
    /// comes back.
    Bootstrap,
    /// Ask the control shard for the owner, and adopt the table that comes back.  The
    /// flag tells whether this is the second and last time.
    Ensure { last: bool },
    /// Install the owner's generation at its shard.
    Fence { owner: Owner, created: bool, last: bool },
    Done(Result<AppendTarget, OwnershipError>),
}

/// What the write target is for: a first try, or a write that was fenced off at this
/// generation.
#[derive(Clone, Copy, Debug, PartialEq, Eq, Structural)]
pub enum Purpose {
    Append,
    Recover { attempted: u64 },
}

/// The error where the owner did not become usable.
pub open spec fn lagging(stream: Seq<char>, purpose: Purpose) -> Seq<char> {
    match purpose {
        Purpose::Append => "Stream "@ + stream + " 归属投影持续落后"@,
        Purpose::Recover { .. } => "Stream "@ + stream + " 正在切换归属，请重试"@,
    }
}

/// The stage once the owner is known: done if it is confirmed, else to be fenced.
pub open spec fn confirm_stage(
    fences: Map<Seq<char>, (u64, u64)>,
    stream: Seq<char>,
    owner: Owner,
    created: bool,
    last: bool,
) -> AppendStage {
    if is_confirmed(fences, stream, owner) {
        AppendStage::Done(Ok(AppendTarget { owner, created_now: created }))
    } else {
        AppendStage::Fence { owner, created, last }
    }
}

/// The text where the control shard answers something else than asked.
pub open spec fn unexpected(command: Seq<char>, shown: Seq<char>) -> Seq<char> {
    command + " 返回意外结果: "@ + shown
}

/// The error for an answer that is no owner.
pub open spec fn is_refusal(
    command: Seq<char>,
    outcome: OwnershipOutcome,
    shown: String,
    e: OwnershipError,
) -> bool {
    match outcome {
        OwnershipOutcome::Conflict { current } => e == OwnershipError::Conflict(current),
        OwnershipOutcome::Invalid { reason } => e == OwnershipError::Invalid(reason),
        _ => e matches OwnershipError::Internal(m) && m@ == unexpected(command, shown@),
    }
}

fn refusal(command: &str, outcome: OwnershipOutcome, shown: String) -> (e: OwnershipError)
    ensures
        is_refusal(command@, outcome, shown, e),
{
    match outcome {
        OwnershipOutcome::Conflict { current } => OwnershipError::Conflict(current),
        OwnershipOutcome::Invalid { reason } => OwnershipError::Invalid(reason),
        _ => OwnershipError::Internal(join3(command, " 返回意外结果: ", shown.as_str())),
    }
}

/// The stage is the first on the way to a write target of the stream.
pub open spec fn begins_append(o: StreamOwnership, stream: Seq<char>, stage: AppendStage) -> bool {
    if stream.len() == 0 {
        stage matches AppendStage::Done(Err(OwnershipError::Invalid(m))) && m@
            == "stream 不能为空"@
    } else if !o.initialized {
        stage == AppendStage::Bootstrap
    } else {
        stage == (match owner_in(o.route_table.mem@, stream) {
            Some(owner) => confirm_stage(
                o.confirmed_fences@,
                stream,
                owner,
                false,
                false,
            ),
            None => AppendStage::Ensure { last: false },
        })
    }
}

/// The stage and the state follow the answer to a commit of the projection.
pub open spec fn follows_bootstrap(
    was: StreamOwnership,
    now: StreamOwnership,
    stream: Seq<char>,
    answer: Committed,
    stage: AppendStage,
) -> bool {
    &&& now.wf()
    &&& now.same_setup(&was)
    &&& now.confirmed_fences == was.confirmed_fences
    &&& match (answer.applied, answer.persisted) {
        (Err(e), _) => stage == AppendStage::Done(Err(e)) && now.route_table.mem
            == was.route_table.mem && now.initialized
            == was.initialized,
        (Ok(_), Err(e)) => stage == AppendStage::Done(Err(OwnershipError::Internal(e)))
            && now.route_table.mem == was.route_table.mem
            && now.initialized == was.initialized,
        (Ok(a), Ok(_)) => {
            &&& now.initialized
            &&& now.route_table.mem == a.table
            &&& stage == (match owner_in(a.table@, stream) {
                Some(owner) => confirm_stage(
                    was.confirmed_fences@,
                    stream,
                    owner,
                    false,
                    false,
                ),
                None => AppendStage::Ensure { last: false },
            })
        },
    }
}

/// The stage and the state follow the control shard's answer about the owner.
pub open spec fn follows_ensure(
    was: StreamOwnership,
    now: StreamOwnership,
    stream: Seq<char>,
    purpose: Purpose,
    last: bool,
    answer: Committed,
    stage: AppendStage,
) -> bool {
    &&& now.wf()
    &&& now.same_setup(&was)
    &&& now.initialized == was.initialized
    &&& now.confirmed_fences == was.confirmed_fences
    &&& match (answer.applied, answer.persisted) {
        (Err(e), _) => stage == AppendStage::Done(Err(e)) && now.route_table.mem
            == was.route_table.mem,
        (Ok(_), Err(e)) => stage == AppendStage::Done(Err(OwnershipError::Internal(e)))
            && now.route_table.mem == was.route_table.mem,
        (Ok(a), Ok(_)) => {
            &&& now.route_table.mem == a.table
            &&& match a.outcome {
                OwnershipOutcome::Owner { owner, created } => match purpose {
                    Purpose::Recover { attempted } if owner.generation <= attempted => {
                        stage matches AppendStage::Done(Err(OwnershipError::Unavailable(m)))
                            && m@ == lagging(stream, purpose)
                    },
                    _ => stage == confirm_stage(
                        was.confirmed_fences@,
                        stream,
                        owner,
                        created && !last && purpose is Append,
                        last,
                    ),
                },
                _ => stage matches AppendStage::Done(Err(e)) && is_refusal("Ensure"@, a.outcome, a.shown, e),
            }
        },
    }
}

/// The stage and the state follow the answer of the owner's shard to a fence.
pub open spec fn follows_fence(
    was: StreamOwnership,
    now: StreamOwnership,
    stream: Seq<char>,
    purpose: Purpose,
    target: AppendTarget,
    last: bool,
    answer: Result<u64, OwnershipError>,
    stage: AppendStage,
) -> bool {
    &&& now.wf()
    &&& now.same_setup(&was)
    &&& now.route_table == was.route_table
    &&& now.initialized == was.initialized
    &&& match answer {
        Err(e) => stage == AppendStage::Done(Err(e)) && now.confirmed_fences
            == was.confirmed_fences,
        Ok(seen) => if seen > target.owner.generation {
            &&& now.confirmed_fences == was.confirmed_fences
            &&& if last {
                stage matches AppendStage::Done(Err(OwnershipError::Unavailable(m)))
                    && m@ == lagging(stream, purpose)
            } else {
                stage == (AppendStage::Ensure { last: true })
            }
        } else {
            &&& stage == AppendStage::Done(Ok(target))
            &&& now.confirmed_fences@ == was.confirmed_fences@.insert(
                stream,
                (target.owner.shard_id, target.owner.generation),
            )
        },
    }
    &&& stage matches AppendStage::Done(Ok(t)) ==> is_confirmed(
        now.confirmed_fences@,
        stream,
        t.owner,
    )
}

impl StreamOwnership {
    pub open spec fn wf(&self) -> bool {
        &&& self.route_table.wf()
        &&& increasing(self.eligible_shards@)
        &&& self.confirmed_fences.wf()
    }

    /// Only the projection, its marks and the confirmations may differ.
    pub open spec fn same_setup(&self, other: &StreamOwnership) -> bool {
        &&& self.route_table.differs_in_table(&other.route_table)
        &&& self.eligible_shards == other.eligible_shards
        &&& self.control_shard_id == other.control_shard_id
    }

    /// Ownership of the streams of a route table, decided by this control shard.
    pub fn new(
        route_table: RouteTableManager,
        eligible_shards: Vec<u64>,
        control_shard_id: u64,
    ) -> (s: StreamOwnership)
        requires
            route_table.wf(),
            increasing(eligible_shards@),
        ensures
            s.wf(),
            s.route_table == route_table,
            s.eligible_shards == eligible_shards,
            !s.initialized,
            s.confirmed_fences@ == Map::<Seq<char>, (u64, u64)>::empty(),
            s.control_shard_id == control_shard_id,
    {
        StreamOwnership {
            route_table,
            eligible_shards,
            initialized: false,
            confirmed_fences: TextMap::new(),
            control_shard_id,
        }
    }

    /// The shard that decides.
    pub fn control_shard_id(&self) -> (s: u64)
        ensures
            s == self.control_shard_id,
    {
        self.control_shard_id
    }

    /// The owner as far as this node knows it.  Nothing is asked or created.
    pub fn known(&self, stream: &str) -> (r: Option<Owner>)
        requires
            self.wf(),
        ensures
            r == owner_in(self.route_table.mem@, stream@),
    {
        self.route_table.mem.lookup_owner(stream)
    }

    fn has_confirmed(&self, stream: &str, owner: &Owner) -> (r: bool)
        requires
            self.wf(),
        ensures
            r == is_confirmed(self.confirmed_fences@, stream@, *owner),
    {
        match self.confirmed_fences.get(stream) {
            Some(pair) => pair.0 == owner.shard_id && pair.1 == owner.generation,
            None => false,
        }
    }

    /// Takes over the table that the control shard gave, once it is on disk.
    fn adopt(&mut self, table: RouteTable, persisted: Result<(), String>) -> (r: Result<
        (),
        OwnershipError,
    >)
        requires
            old(self).wf(),
            table.wf(),
        ensures
            final(self).wf(),
            final(self).same_setup(old(self)),
            final(self).initialized == old(self).initialized,
            final(self).confirmed_fences == old(self).confirmed_fences,
            match persisted {
                Ok(_) => r is Ok && final(self).route_table.mem == table,
                Err(e) => r == Err::<(), OwnershipError>(OwnershipError::Internal(e))
                    && final(self).route_table.mem == old(self).route_table.mem,
            },
    {
        match persisted {
            Ok(_) => {
                self.route_table.mem = table;
                Ok(())
            },
            Err(e) => Err(OwnershipError::Internal(e)),
        }
    }

    /// Whether the owner is confirmed already or has to be fenced.  Calls for one stream
    /// fence one after the other; each asks this again when its turn has come, since the
    /// one before it may have confirmed the owner.
    pub fn confirm(&self, stream: &str, owner: Owner, created: bool, last: bool) -> (stage: AppendStage)
        requires
            self.wf(),
        ensures
            stage == confirm_stage(self.confirmed_fences@, stream@, owner, created, last),
    {
        if self.has_confirmed(stream, &owner) {
            AppendStage::Done(Ok(AppendTarget { owner, created_now: created }))
        } else {
            AppendStage::Fence { owner, created, last }
        }
    }

    /// Where a write target comes from once the projection is valid: from the
    /// projection, or from the control shard for a stream that is not in it.
    fn route(&self, stream: &str) -> (stage: AppendStage)
        requires
            self.wf(),
        ensures
            stage == (match owner_in(self.route_table.mem@, stream@) {
                Some(owner) => confirm_stage(self.confirmed_fences@, stream@, owner, false, false),
                None => AppendStage::Ensure { last: false },
            }),
    {
        match self.known(stream) {
            Some(owner) => self.confirm(stream, owner, false, false),
            None => AppendStage::Ensure { last: false },
        }
    }

    /// Begins to look for the write target of a stream.  A stream without a name is
    /// refused before anything is asked.
    pub fn for_append(&self, stream: &str) -> (stage: AppendStage)
        requires
            self.wf(),
        ensures
            begins_append(*self, stream@, stage),
    {
        if stream.is_empty() {
            AppendStage::Done(Err(OwnershipError::Invalid(String::from_str("stream 不能为空"))))
        } else if !self.initialized {
            AppendStage::Bootstrap
        } else {
            self.route(stream)
        }
    }

    /// Begins to look for the new write target after a write was fenced off.  A
    /// confirmation that is no newer than the write is forgotten.
    pub fn recover_fenced(&mut self, stream: &str, attempted: u64) -> (stage: AppendStage)
        requires
            old(self).wf(),
        ensures
            final(self).wf(),
            final(self).same_setup(old(self)),
            final(self).route_table == old(self).route_table,
            final(self).initialized == old(self).initialized,
            stage == (AppendStage::Ensure { last: true }),
            final(self).confirmed_fences@ == (if old(self).confirmed_fences@.dom().contains(stream@)
                && old(self).confirmed_fences@[stream@].1 <= attempted {
                old(self).confirmed_fences@.remove(stream@)
            } else {
                old(self).confirmed_fences@
            }),
    {
        let stale = match self.confirmed_fences.get(stream) {
            Some(pair) => pair.1 <= attempted,
            None => false,
        };
        if stale {
            self.confirmed_fences.remove(stream);
        }
        AppendStage::Ensure { last: true }
    }

    /// Adopts the control shard's first answer.
    fn initialize(&mut self, answer: Committed) -> (r: Result<u64, OwnershipError>)
        requires
            old(self).wf(),
            answer.wf(),
        ensures
            final(self).wf(),
            final(self).same_setup(old(self)),
            final(self).confirmed_fences == old(self).confirmed_fences,
            match (answer.applied, answer.persisted) {
                (Err(e), _) => r == Err::<u64, OwnershipError>(e) && final(self).route_table.mem
                    == old(self).route_table.mem && final(self).initialized == old(self).initialized,
                (Ok(_), Err(e)) => r == Err::<u64, OwnershipError>(OwnershipError::Internal(e))
                    && final(self).route_table.mem == old(self).route_table.mem && final(self).initialized == old(self).initialized,
                (Ok(a), Ok(_)) => r == Ok::<u64, OwnershipError>(a.table.version) && final(self).route_table.mem == a.table && final(self).initialized,
            },
    {
        match answer.applied {
            Err(e) => Err(e),
            Ok(a) => {
                let version: u64 = a.table.version;
                match self.adopt(a.table, answer.persisted) {
                    Err(e) => Err(e),
                    Ok(_) => {
                        self.initialized = true;
                        Ok(version)
                    },
                }
            },
        }
    }

    /// Goes on after the projection was committed.
    pub fn on_bootstrapped(&mut self, stream: &str, answer: Committed) -> (stage: AppendStage)
        requires
            old(self).wf(),
            answer.wf(),
        ensures
            follows_bootstrap(*old(self), *final(self), stream@, answer, stage),
    {
        match self.initialize(answer) {
            Err(e) => AppendStage::Done(Err(e)),
            Ok(_) => self.route(stream),
        }
    }

    /// Takes the projection from the control shard anew.  A projection that nodes
    /// exchanged is never taken over as it is, whatever its version.
    pub fn refresh_projection(&mut self, answer: Committed) -> (r: Result<
        ChangeReceipt,
        OwnershipError,
    >)
        requires
            old(self).wf(),
            answer.wf(),
        ensures
            final(self).wf(),
            final(self).same_setup(old(self)),
            final(self).confirmed_fences == old(self).confirmed_fences,
            match (answer.applied, answer.persisted) {
                (Err(e), _) => r == Err::<ChangeReceipt, OwnershipError>(e)
                    && final(self).route_table.mem == old(self).route_table.mem
                    && final(self).initialized == old(self).initialized,
                (Ok(_), Err(e)) => r == Err::<ChangeReceipt, OwnershipError>(
                    OwnershipError::Internal(e),
                ) && final(self).route_table.mem == old(self).route_table.mem
                    && final(self).initialized == old(self).initialized,
                (Ok(a), Ok(_)) => {
                    &&& r == Ok::<ChangeReceipt, OwnershipError>(
                        ChangeReceipt { revision: a.table.version, owner: None, changed: true },
                    )
                    &&& final(self).route_table.mem == a.table
                    &&& final(self).initialized
                },
            },
    {
        match self.initialize(answer) {
            Err(e) => Err(e),
            Ok(revision) => Ok(ChangeReceipt { revision, owner: None, changed: true }),
        }
    }

    /// Goes on after the control shard was asked for the owner.
    pub fn on_ensured(
        &mut self,
        stream: &str,
        purpose: Purpose,
        last: bool,
        answer: Committed,
    ) -> (stage: AppendStage)
        requires
            old(self).wf(),
            answer.wf(),
        ensures
            follows_ensure(*old(self), *final(self), stream@, purpose, last, answer, stage),
    {
        match answer.applied {
            Err(e) => AppendStage::Done(Err(e)),
            Ok(a) => {
                let outcome = a.outcome;
                let shown = a.shown;
                match self.adopt(a.table, answer.persisted) {
                    Err(e) => AppendStage::Done(Err(e)),
                    Ok(_) => match outcome {
                        OwnershipOutcome::Owner { owner, created } => {
                            let recovering = match purpose {
                                Purpose::Append => false,
                                Purpose::Recover { attempted } => {
                                    if owner.generation <= attempted {
                                        return AppendStage::Done(
                                            Err(
                                                OwnershipError::Unavailable(
                                                    join3(
                                                        "Stream ",
                                                        stream,
                                                        " 正在切换归属，请重试",
                                                    ),
                                                ),
                                            ),
                                        );
                                    }
                                    true
                                },
                            };
                            self.confirm(stream, owner, created && !last && !recovering, last)
                        },
                        other => AppendStage::Done(Err(refusal("Ensure", other, shown))),
                    },
                }
            },
        }
    }

    /// Goes on after the owner's shard answered with the highest generation it has
    /// seen.  An owner that the shard knows a successor of is looked up once more;
    /// the second time that is an error.
    pub fn on_fenced(
        &mut self,
        stream: &str,
        purpose: Purpose,
        target: AppendTarget,
        last: bool,
        answer: Result<u64, OwnershipError>,
    ) -> (stage: AppendStage)
        requires
            old(self).wf(),
        ensures
            follows_fence(
                *old(self),
                *final(self),
                stream@,
                purpose,
                target,
                last,
                answer,
                stage,
            ),
    {
        match answer {
            Err(e) => AppendStage::Done(Err(e)),
            Ok(seen) => if seen > target.owner.generation {
                if last {
                    let m = match purpose {
                        Purpose::Append => join3("Stream ", stream, " 归属投影持续落后"),
                        Purpose::Recover { attempted: _ } => join3(
                            "Stream ",
                            stream,
                            " 正在切换归属，请重试",
                        ),
                    };
                    AppendStage::Done(Err(OwnershipError::Unavailable(m)))
                } else {
                    AppendStage::Ensure { last: true }
                }
            } else {
                self.confirmed_fences.insert(
                    String::from_str(stream),
                    (target.owner.shard_id, target.owner.generation),
                );
                AppendStage::Done(Ok(target))
            },
        }
    }
}

/// What comes next in a change of ownership.
#[derive(Debug)]
pub enum ChangeStage {
    /// Commit the projection and the eligible shards first, then begin the change.
    Bootstrap(OwnershipChange),
    /// Ask the control shard whether the stream may move.
    PrepareMove { stream: String, expected: OwnerMatch, target_shard: u64, operation_id: u128 },
    /// Install the new generation at the target.
    FenceTarget(Move),
    /// Install the new generation at the source.
    FenceSource(Move),
    /// Make the target the owner, and adopt the table that comes back.
    CompleteMove(Move),
    /// Set the eligible shards, and adopt the table that comes back.
    ApplyPlacement { eligible_shards: Vec<u64> },
    /// Make the target the owner of the orphan.
    AdoptOrphan { stream: String, source_shard: u64, target_shard: u64 },
    /// Install the generation at the target.
    FenceAdopter(Adoption),
    /// Install the generation at the source.
    FenceOrphanage(Adoption),
    /// Write the table to disk.
    PublishAdoption(Adoption),
    /// Write the projection to disk, over the edit.
    RestoreProjection,
    Done(Result<ChangeReceipt, OwnershipError>),
}

/// A move that the control shard has allowed.
#[derive(Debug)]
pub struct Move {
    pub stream: String,
    pub source_shard: u64,
    pub target_shard: u64,
    pub generation: u64,
    /// The operation as the control shard knows it.
    pub operation_id: u128,
}

/// An adoption that the control shard has decided.
#[derive(Debug)]
pub struct Adoption {
    pub stream: String,
    pub source_shard: u64,
    pub target_shard: u64,
    pub owner: Owner,
    pub table: RouteTable,
}

/// The answer to a stage.
#[derive(Debug)]
pub enum ChangeAnswer {
    /// From the control shard.
    Committed(Committed),
    /// From a data shard: the highest generation it has seen.
    Fenced(Result<u64, OwnershipError>),
    /// From the disk.
    Persisted(Result<(), String>),
}

impl ChangeStage {
    pub open spec fn wf(&self) -> bool {
        match self {
            ChangeStage::Bootstrap(c) => change_wf(*c),
            ChangeStage::ApplyPlacement { eligible_shards } => increasing(eligible_shards@),
            ChangeStage::FenceAdopter(a) => a.table.wf(),
            ChangeStage::FenceOrphanage(a) => a.table.wf(),
            ChangeStage::PublishAdoption(a) => a.table.wf(),
            _ => true,
        }
    }
}

/// The lists and tables of the change are in order.
pub open spec fn change_wf(c: OwnershipChange) -> bool {
    match c {
        OwnershipChange::ApplyPlacement { eligible_shards } => increasing(eligible_shards@),
        OwnershipChange::ImportLegacy { table } => table.wf(),
        _ => true,
    }
}

/// The answer is of the kind that the stage waits for.
pub open spec fn fits(stage: ChangeStage, answer: ChangeAnswer) -> bool {
    match answer {
        ChangeAnswer::Committed(c) => c.wf() && (stage is Bootstrap || stage is PrepareMove
            || stage is CompleteMove || stage is ApplyPlacement || stage is AdoptOrphan),
        ChangeAnswer::Fenced(_) => stage is FenceTarget || stage is FenceSource || stage
            is FenceAdopter || stage is FenceOrphanage,
        ChangeAnswer::Persisted(_) => stage is PublishAdoption || stage is RestoreProjection,
    }
}

/// The text for an edit of the table on disk.
pub open spec fn unsafe_edit_text() -> Seq<char> {
    "运行时文件不能新增、删除或改写 Stream 归属；请使用 create-stream 或 migrate"@
}

/// The first stage of a change, once the projection is valid.
pub open spec fn first_stage(projection: RouteTableView, c: OwnershipChange) -> ChangeStage {
    match c {
        OwnershipChange::Move { stream, expected, target_shard, operation_id } => {
            ChangeStage::PrepareMove { stream, expected, target_shard, operation_id }
        },
        OwnershipChange::AdoptOrphan { stream, source_shard, target_shard } => {
            ChangeStage::AdoptOrphan { stream, source_shard, target_shard }
        },
        OwnershipChange::ApplyPlacement { eligible_shards } => {
            ChangeStage::ApplyPlacement { eligible_shards }
        },
        OwnershipChange::ImportLegacy { table } => if projection == table@ {
            ChangeStage::Done(
                Ok(ChangeReceipt { revision: projection.version, owner: None, changed: false }),
            )
        } else {
            ChangeStage::RestoreProjection
        },
    }
}

/// `next` follows `stage` when it is answered; `projection` is the table before.
pub open spec fn follows(
    projection: RouteTableView,
    eligible: Seq<u64>,
    stage: ChangeStage,
    answer: ChangeAnswer,
    next: ChangeStage,
) -> bool {
    match answer {
        ChangeAnswer::Fenced(Err(e)) => next == ChangeStage::Done(Err(e)),
        ChangeAnswer::Fenced(Ok(_)) => match stage {
            ChangeStage::FenceTarget(m) => next == ChangeStage::FenceSource(m),
            ChangeStage::FenceSource(m) => next == ChangeStage::CompleteMove(m),
            ChangeStage::FenceAdopter(a) => next == ChangeStage::FenceOrphanage(a),
            ChangeStage::FenceOrphanage(a) => next == ChangeStage::PublishAdoption(a),
            _ => true,
        },
        ChangeAnswer::Persisted(Err(e)) => next == ChangeStage::Done(
            Err(OwnershipError::Internal(e)),
        ),
        ChangeAnswer::Persisted(Ok(_)) => match stage {
            ChangeStage::PublishAdoption(a) => next == ChangeStage::Done(
                Ok(
                    ChangeReceipt {
                        revision: a.table.version,
                        owner: Some(a.owner),
                        changed: true,
                    },
                ),
            ),
            _ => next matches ChangeStage::Done(Err(OwnershipError::UnsafeLegacyEdit(m))) && m@
                == unsafe_edit_text(),
        },
        ChangeAnswer::Committed(c) => match c.applied {
            Err(e) => next == ChangeStage::Done(Err(e)),
            Ok(a) => match stage {
                ChangeStage::Bootstrap(change) => match c.persisted {
                    Err(e) => next == ChangeStage::Done(Err(OwnershipError::Internal(e))),
                    Ok(_) => next == first_stage(a.table@, change),
                },
                ChangeStage::PrepareMove { stream, expected, target_shard, operation_id } => {
                    match a.outcome {
                        OwnershipOutcome::Owner { owner, .. } if owner.shard_id == target_shard => {
                            match c.persisted {
                                Err(e) => next == ChangeStage::Done(
                                    Err(OwnershipError::Internal(e)),
                                ),
                                Ok(_) => next == ChangeStage::Done(
                                    Ok(
                                        ChangeReceipt {
                                            revision: a.table.version,
                                            owner: Some(owner),
                                            changed: false,
                                        },
                                    ),
                                ),
                            }
                        },
                        OwnershipOutcome::MovePrepared { current, generation, operation_id: op }
                            => next == ChangeStage::FenceTarget(
                            Move {
                                stream,
                                source_shard: current.shard_id,
                                target_shard,
                                generation,
                                operation_id: op,
                            },
                        ),
                        _ => next matches ChangeStage::Done(Err(e)) && is_refusal("PrepareMove"@, a.outcome, a.shown, e),
                    }
                },
                ChangeStage::CompleteMove(m) => match (c.persisted, a.outcome) {
                    (Err(e), _) => next == ChangeStage::Done(Err(OwnershipError::Internal(e))),
                    (Ok(_), OwnershipOutcome::Owner { owner, .. }) => next == ChangeStage::Done(
                        Ok(
                            ChangeReceipt {
                                revision: a.table.version,
                                owner: Some(owner),
                                changed: true,
                            },
                        ),
                    ),
                    _ => next matches ChangeStage::Done(Err(OwnershipError::Internal(text)))
                        && text@ == unexpected("CompleteMove"@, a.shown@),
                },
                ChangeStage::ApplyPlacement { eligible_shards } => match a.outcome {
                    OwnershipOutcome::Snapshot => match c.persisted {
                        Err(e) => next == ChangeStage::Done(Err(OwnershipError::Internal(e))),
                        Ok(_) => next == ChangeStage::Done(
                            Ok(
                                ChangeReceipt {
                                    revision: a.table.version,
                                    owner: None,
                                    changed: eligible != eligible_shards@,
                                },
                            ),
                        ),
                    },
                    OwnershipOutcome::Invalid { reason } => next == ChangeStage::Done(
                        Err(OwnershipError::Invalid(reason)),
                    ),
                    _ => next matches ChangeStage::Done(Err(OwnershipError::Internal(text)))
                        && text@ == unexpected("ApplyPlacement"@, a.shown@),
                },
                ChangeStage::AdoptOrphan { stream, source_shard, target_shard } => {
                    match a.outcome {
                        OwnershipOutcome::Owner { owner, .. } => next == ChangeStage::FenceAdopter(
                            Adoption { stream, source_shard, target_shard, owner, table: a.table },
                        ),
                        _ => next matches ChangeStage::Done(Err(e)) && is_refusal("AdoptOrphan"@, a.outcome, a.shown, e),
                    }
                },
                _ => true,
            },
        },
    }
}

/// The table after a stage was answered: a new one only where the control shard's
/// decision is complete and on disk.
pub open spec fn table_after(
    before: RouteTable,
    stage: ChangeStage,
    answer: ChangeAnswer,
) -> RouteTable {
    match answer {
        ChangeAnswer::Committed(
            Committed { applied: Ok(a), persisted: Ok(_) },
        ) => match stage {
            ChangeStage::Bootstrap(_) => a.table,
            ChangeStage::CompleteMove(_) => a.table,
            ChangeStage::PrepareMove { target_shard, .. } => if a.outcome matches
                OwnershipOutcome::Owner { owner, .. } && owner.shard_id == target_shard {
                a.table
            } else {
                before
            },
            ChangeStage::ApplyPlacement { .. } => if a.outcome is Snapshot {
                a.table
            } else {
                before
            },
            _ => before,
        },
        ChangeAnswer::Persisted(Ok(_)) => match stage {
            ChangeStage::PublishAdoption(a) => a.table,
            _ => before,
        },
        _ => before,
    }
}

/// The confirmations after a stage was answered.
pub open spec fn fences_after(
    before: Map<Seq<char>, (u64, u64)>,
    stage: ChangeStage,
    answer: ChangeAnswer,
) -> Map<Seq<char>, (u64, u64)> {
    match answer {
        ChangeAnswer::Committed(
            Committed { applied: Ok(a), persisted: Ok(_) },
        ) => match (stage, a.outcome) {
            (ChangeStage::CompleteMove(m), OwnershipOutcome::Owner { owner, .. }) => before.insert(
                m.stream@,
                (owner.shard_id, owner.generation),
            ),
            _ => before,
        },
        ChangeAnswer::Persisted(Ok(_)) => match stage {
            ChangeStage::PublishAdoption(a) => before.insert(
                a.stream@,
                (a.owner.shard_id, a.owner.generation),
            ),
            _ => before,
        },
        _ => before,
    }
}

/// The eligible shards after a stage was answered.
pub open spec fn eligible_after(before: Seq<u64>, stage: ChangeStage, answer: ChangeAnswer) -> Seq<
    u64,
> {
    match (stage, answer) {
        (
            ChangeStage::ApplyPlacement { eligible_shards },
            ChangeAnswer::Committed(Committed { applied: Ok(a), .. }),
        ) => if a.outcome is Snapshot {
            eligible_shards@
        } else {
            before
        },
        _ => before,
    }
}

fn same_shards(a: &Vec<u64>, b: &Vec<u64>) -> (r: bool)
    ensures
        r == (a@ == b@),
{
    if a.len() != b.len() {
        return false;
    }
    let mut i: usize = 0;
    while i < a.len()
        invariant
            i <= a@.len(),
            a@.len() == b@.len(),
            forall|k: int| 0 <= k < i ==> a@[k] == b@[k],
        decreases a@.len() - i,
    {
        if a[i] != b[i] {
            return false;
        }
        i += 1;
    }
    assert(a@ =~= b@);
    true
}

impl StreamOwnership {
    fn begin(&self, change: OwnershipChange) -> (stage: ChangeStage)
        requires
            self.wf(),
            change_wf(change),
        ensures
            stage == first_stage(self.route_table.mem@, change),
            stage.wf(),
    {
        match change {
            OwnershipChange::Move { stream, expected, target_shard, operation_id } => {
                ChangeStage::PrepareMove { stream, expected, target_shard, operation_id }
            },
            OwnershipChange::AdoptOrphan { stream, source_shard, target_shard } => {
                ChangeStage::AdoptOrphan { stream, source_shard, target_shard }
            },
            OwnershipChange::ApplyPlacement { eligible_shards } => {
                ChangeStage::ApplyPlacement { eligible_shards }
            },
            OwnershipChange::ImportLegacy { table } => if self.route_table.mem.same(&table) {
                ChangeStage::Done(
                    Ok(
                        ChangeReceipt {
                            revision: self.route_table.mem.version,
                            owner: None,
                            changed: false,
                        },
                    ),
                )
            } else {
                ChangeStage::RestoreProjection
            },
        }
    }

    /// Begins a change.
    pub fn change(&self, change: OwnershipChange) -> (stage: ChangeStage)
        requires
            self.wf(),
            change_wf(change),
        ensures
            stage == (if self.initialized {
                first_stage(self.route_table.mem@, change)
            } else {
                ChangeStage::Bootstrap(change)
            }),
            stage.wf(),
    {
        if self.initialized {
            self.begin(change)
        } else {
            ChangeStage::Bootstrap(change)
        }
    }

    /// Goes on with a change after its stage was answered.
    ///
    /// A move installs the new generation at the target, then at the source, and only
    /// then makes the target the owner: for a moment neither takes writes, but never
    /// do both.
    pub fn on_answer(&mut self, stage: ChangeStage, answer: ChangeAnswer) -> (next: ChangeStage)
        requires
            old(self).wf(),
            stage.wf(),
            fits(stage, answer),
        ensures
            final(self).wf(),
            next.wf(),
            follows(
                old(self).route_table.mem@,
                old(self).eligible_shards@,
                stage,
                answer,
                next,
            ),
            final(self).route_table.mem == table_after(old(self).route_table.mem, stage, answer),
            final(self).route_table.differs_in_table(&old(self).route_table),
            final(self).confirmed_fences@ == fences_after(
                old(self).confirmed_fences@,
                stage,
                answer,
            ),
            final(self).eligible_shards@ == eligible_after(
                old(self).eligible_shards@,
                stage,
                answer,
            ),
            final(self).control_shard_id == old(self).control_shard_id,
            final(self).initialized == (old(self).initialized || (stage is Bootstrap && (
            answer matches ChangeAnswer::Committed(c) && c.applied is Ok && c.persisted is Ok))),
    {
        match answer {
            ChangeAnswer::Fenced(Err(e)) => ChangeStage::Done(Err(e)),
            ChangeAnswer::Fenced(Ok(_)) => match stage {
                ChangeStage::FenceTarget(m) => ChangeStage::FenceSource(m),
                ChangeStage::FenceSource(m) => ChangeStage::CompleteMove(m),
                ChangeStage::FenceAdopter(a) => ChangeStage::FenceOrphanage(a),
                ChangeStage::FenceOrphanage(a) => ChangeStage::PublishAdoption(a),
                other => other,
            },
            ChangeAnswer::Persisted(Err(e)) => ChangeStage::Done(Err(OwnershipError::Internal(e))),
            ChangeAnswer::Persisted(Ok(_)) => match stage {
                ChangeStage::PublishAdoption(a) => {
                    let revision: u64 = a.table.version;
                    let owner = a.owner;
                    self.route_table.mem = a.table;
                    self.confirmed_fences.insert(a.stream, (owner.shard_id, owner.generation));
                    ChangeStage::Done(
                        Ok(ChangeReceipt { revision, owner: Some(owner), changed: true }),
                    )
                },
                _ => ChangeStage::Done(
                    Err(
                        OwnershipError::UnsafeLegacyEdit(
                            String::from_str(
                                "运行时文件不能新增、删除或改写 Stream 归属；请使用 create-stream 或 migrate",
                            ),
                        ),
                    ),
                ),
            },
            ChangeAnswer::Committed(c) => match stage {
                ChangeStage::Bootstrap(change) => match self.initialize(c) {
                    Err(e) => ChangeStage::Done(Err(e)),
                    Ok(_) => self.begin(change),
                },
                ChangeStage::PrepareMove { stream, expected, target_shard, operation_id } => {
                    self.on_move_prepared(stream, expected, target_shard, operation_id, c)
                },
                ChangeStage::CompleteMove(m) => self.on_move_completed(m, c),
                ChangeStage::ApplyPlacement { eligible_shards } => self.on_placed(
                    eligible_shards,
                    c,
                ),
                ChangeStage::AdoptOrphan { stream, source_shard, target_shard } => {
                    match c.applied {
                        Err(e) => ChangeStage::Done(Err(e)),
                        Ok(a) => match a.outcome {
                            OwnershipOutcome::Owner { owner, created: _ } => {
                                ChangeStage::FenceAdopter(
                                    Adoption {
                                        stream,
                                        source_shard,
                                        target_shard,
                                        owner,
                                        table: a.table,
                                    },
                                )
                            },
                            other => {
                                ChangeStage::Done(Err(refusal("AdoptOrphan", other, a.shown)))
                            },
                        },
                    }
                },
                other => other,
            },
        }
    }

    fn on_move_prepared(
        &mut self,
        stream: String,
        expected: OwnerMatch,
        target_shard: u64,
        operation_id: u128,
        c: Committed,
    ) -> (next: ChangeStage)
        requires
            old(self).wf(),
            c.wf(),
        ensures
            final(self).wf(),
            next.wf(),
            final(self).same_setup(old(self)),
            final(self).initialized == old(self).initialized,
            final(self).confirmed_fences == old(self).confirmed_fences,
            ({
                let stage = ChangeStage::PrepareMove {
                    stream,
                    expected,
                    target_shard,
                    operation_id,
                };
                &&& follows(
                    old(self).route_table.mem@,
                    old(self).eligible_shards@,
                    stage,
                    ChangeAnswer::Committed(c),
                    next,
                )
                &&& final(self).route_table.mem == table_after(
                    old(self).route_table.mem,
                    stage,
                    ChangeAnswer::Committed(c),
                )
            }),
    {
        match c.applied {
            Err(e) => ChangeStage::Done(Err(e)),
            Ok(a) => {
                let shown = a.shown;
                match a.outcome {
                    OwnershipOutcome::Owner { owner, created } => {
                        if owner.shard_id == target_shard {
                            let revision: u64 = a.table.version;
                            match self.adopt(a.table, c.persisted) {
                                Err(e) => ChangeStage::Done(Err(e)),
                                Ok(_) => ChangeStage::Done(
                                    Ok(
                                        ChangeReceipt {
                                            revision,
                                            owner: Some(owner),
                                            changed: false,
                                        },
                                    ),
                                ),
                            }
                        } else {
                            ChangeStage::Done(
                                Err(
                                    refusal(
                                        "PrepareMove",
                                        OwnershipOutcome::Owner { owner, created },
                                        shown,
                                    ),
                                ),
                            )
                        }
                    },
                    OwnershipOutcome::MovePrepared { current, generation, operation_id: op } => {
                        ChangeStage::FenceTarget(
                            Move {
                                stream,
                                source_shard: current.shard_id,
                                target_shard,
                                generation,
                                operation_id: op,
                            },
                        )
                    },
                    other => ChangeStage::Done(Err(refusal("PrepareMove", other, shown))),
                }
            },
        }
    }

    fn on_move_completed(&mut self, m: Move, c: Committed) -> (next: ChangeStage)
        requires
            old(self).wf(),
            c.wf(),
        ensures
            final(self).wf(),
            next.wf(),
            final(self).same_setup(old(self)),
            final(self).initialized == old(self).initialized,
            follows(
                old(self).route_table.mem@,
                old(self).eligible_shards@,
                ChangeStage::CompleteMove(m),
                ChangeAnswer::Committed(c),
                next,
            ),
            final(self).route_table.mem == table_after(
                old(self).route_table.mem,
                ChangeStage::CompleteMove(m),
                ChangeAnswer::Committed(c),
            ),
            final(self).confirmed_fences@ == fences_after(
                old(self).confirmed_fences@,
                ChangeStage::CompleteMove(m),
                ChangeAnswer::Committed(c),
            ),
    {
        match c.applied {
            Err(e) => ChangeStage::Done(Err(e)),
            Ok(a) => {
                let revision: u64 = a.table.version;
                let outcome = a.outcome;
                match self.adopt(a.table, c.persisted) {
                    Err(e) => ChangeStage::Done(Err(e)),
                    Ok(_) => match outcome {
                        OwnershipOutcome::Owner { owner, created: _ } => {
                            self.confirmed_fences.insert(
                                m.stream,
                                (owner.shard_id, owner.generation),
                            );
                            ChangeStage::Done(
                                Ok(ChangeReceipt { revision, owner: Some(owner), changed: true }),
                            )
                        },
                        _ => ChangeStage::Done(
                            Err(
                                OwnershipError::Internal(
                                    join3("CompleteMove", " 返回意外结果: ", a.shown.as_str()),
                                ),
                            ),
                        ),
                    },
                }
            },
        }
    }

    fn on_placed(&mut self, eligible_shards: Vec<u64>, c: Committed) -> (next: ChangeStage)
        requires
            old(self).wf(),
            c.wf(),
            increasing(eligible_shards@),
        ensures
            final(self).wf(),
            next.wf(),
            final(self).route_table.differs_in_table(&old(self).route_table),
            final(self).initialized == old(self).initialized,
            final(self).confirmed_fences == old(self).confirmed_fences,
            final(self).control_shard_id == old(self).control_shard_id,
            ({
                let stage = ChangeStage::ApplyPlacement { eligible_shards };
                let answer = ChangeAnswer::Committed(c);
                &&& follows(
                    old(self).route_table.mem@,
                    old(self).eligible_shards@,
                    stage,
                    answer,
                    next,
                )
                &&& final(self).route_table.mem == table_after(
                    old(self).route_table.mem,
                    stage,
                    answer,
                )
                &&& final(self).eligible_shards@ == eligible_after(
                    old(self).eligible_shards@,
                    stage,
                    answer,
                )
            }),
    {
        match c.applied {
            Err(e) => ChangeStage::Done(Err(e)),
            Ok(a) => match a.outcome {
                OwnershipOutcome::Snapshot => {
                    let changed = !same_shards(&self.eligible_shards, &eligible_shards);
                    self.eligible_shards = eligible_shards;
                    let revision: u64 = a.table.version;
                    match self.adopt(a.table, c.persisted) {
                        Err(e) => ChangeStage::Done(Err(e)),
                        Ok(_) => ChangeStage::Done(
                            Ok(ChangeReceipt { revision, owner: None, changed }),
                        ),
                    }
                },
                OwnershipOutcome::Invalid { reason } => ChangeStage::Done(
                    Err(OwnershipError::Invalid(reason)),
                ),
                _ => ChangeStage::Done(
                    Err(
                        OwnershipError::Internal(
                            join3("ApplyPlacement", " 返回意外结果: ", a.shown.as_str()),
                        ),
                    ),
                ),
            },
        }
    }
}

/// A change may begin with this stage.
pub open spec fn is_start(stage: ChangeStage) -> bool {
    stage is Bootstrap || stage is PrepareMove || stage is ApplyPlacement || stage is AdoptOrphan
        || stage is RestoreProjection || stage is Done
}

/// The course of a change: each stage follows the one before it as it was answered,
/// and each table is the one before it as the answer changed it.
pub open spec fn is_course(
    stages: Seq<ChangeStage>,
    answers: Seq<ChangeAnswer>,
    tables: Seq<RouteTable>,
    eligible: Seq<Seq<u64>>,
) -> bool {
    &&& stages.len() == answers.len() + 1
    &&& tables.len() == stages.len()
    &&& eligible.len() == stages.len()
    &&& is_start(stages[0])
    &&& forall|i: int|
        0 <= i < answers.len() ==> {
            &&& #[trigger] fits(stages[i], answers[i])
            &&& follows(tables[i]@, eligible[i], stages[i], answers[i], stages[i + 1])
            &&& tables[i + 1] == table_after(tables[i], stages[i], answers[i])
        }
}

/// A move hands the stream over only after first the target and then the source have
/// taken the new generation; until it is handed over the published routes stay.
pub proof fn law_move_fences_target_then_source_before_handover(
    stages: Seq<ChangeStage>,
    answers: Seq<ChangeAnswer>,
    tables: Seq<RouteTable>,
    eligible: Seq<Seq<u64>>,
    n: int,
)
    requires
        is_course(stages, answers, tables, eligible),
        0 <= n < stages.len(),
        stages[n] is CompleteMove,
    ensures
        n >= 3,
        ({
            let m = stages[n]->CompleteMove_0;
            &&& stages[n - 1] == ChangeStage::FenceSource(m)
            &&& answers[n - 1] matches ChangeAnswer::Fenced(Ok(_))
            &&& stages[n - 2] == ChangeStage::FenceTarget(m)
            &&& answers[n - 2] matches ChangeAnswer::Fenced(Ok(_))
            &&& stages[n - 3] matches ChangeStage::PrepareMove { stream, target_shard, .. }
                && stream == m.stream && target_shard == m.target_shard
            &&& tables[n] == tables[n - 3]
        }),
{
    assert(fits(stages[n - 1], answers[n - 1]));
    assert(stages[n - 1] is FenceSource);
    assert(fits(stages[n - 2], answers[n - 2]));
    assert(stages[n - 2] is FenceTarget);
    assert(fits(stages[n - 3], answers[n - 3]));
    assert(stages[n - 3] is PrepareMove);
}

/// An adoption is published only after first the target and then the source have
/// taken its generation.
pub proof fn law_adoption_fences_target_then_source_before_publishing(
    stages: Seq<ChangeStage>,
    answers: Seq<ChangeAnswer>,
    tables: Seq<RouteTable>,
    eligible: Seq<Seq<u64>>,
    n: int,
)
    requires
        is_course(stages, answers, tables, eligible),
        0 <= n < stages.len(),
        stages[n] is PublishAdoption,
    ensures
        n >= 3,
        ({
            let a = stages[n]->PublishAdoption_0;
            &&& stages[n - 1] == ChangeStage::FenceOrphanage(a)
            &&& answers[n - 1] matches ChangeAnswer::Fenced(Ok(_))
            &&& stages[n - 2] == ChangeStage::FenceAdopter(a)
            &&& answers[n - 2] matches ChangeAnswer::Fenced(Ok(_))
            &&& stages[n - 3] is AdoptOrphan
            &&& tables[n] == tables[n - 3]
        }),
{
    assert(fits(stages[n - 1], answers[n - 1]));
    assert(stages[n - 1] is FenceOrphanage);
    assert(fits(stages[n - 2], answers[n - 2]));
    assert(stages[n - 2] is FenceAdopter);
    assert(fits(stages[n - 3], answers[n - 3]));
    assert(stages[n - 3] is AdoptOrphan);
}

/// An edit of the table on disk never reaches the projection.
pub proof fn law_edits_never_reach_the_projection(
    stages: Seq<ChangeStage>,
    answers: Seq<ChangeAnswer>,
    tables: Seq<RouteTable>,
    eligible: Seq<Seq<u64>>,
    n: int,
)
    requires
        is_course(stages, answers, tables, eligible),
        0 <= n < answers.len(),
        stages[n] is RestoreProjection,
    ensures
        tables[n + 1] == tables[n],
        stages[n + 1] matches ChangeStage::Done(Err(_)),
{
    assert(fits(stages[n], answers[n]));
}

/// The control shard as it was recorded on disk.
#[derive(Debug)]
pub enum ControlRecord {
    Missing,
    Recorded(u64),
    Corrupt(String),
    Unreadable(String),
}

/// The control shard, and whether it is yet to be recorded.
#[derive(Clone, Copy, Debug, PartialEq, Eq, Structural)]
pub struct ControlShard {
    pub shard_id: u64,
    pub to_record: bool,
}

/// Why there is no control shard among these.
pub open spec fn control_fault(shards: Seq<u64>, record: ControlRecord) -> Option<Seq<char>> {
    if shards.len() == 0 {
        Some("放置表为空，无法选择控制 Shard"@)
    } else {
        match record {
            ControlRecord::Missing => None,
            ControlRecord::Recorded(id) => if shards.contains(id) {
                None
            } else {
                Some("持久化控制 Shard "@ + decimal_text(id as nat) + " 不在当前放置表中"@)
            },
            ControlRecord::Corrupt(m) => Some("控制 Shard 元数据损坏: "@ + m@),
            ControlRecord::Unreadable(m) => Some("读取控制 Shard 元数据失败: "@ + m@),
        }
    }
}

/// Chooses the control shard: the one on record, which must still be among the
/// eligible shards; else the smallest of them.
pub fn control_shard(eligible: &Vec<u64>, record: ControlRecord) -> (r: Result<
    ControlShard,
    String,
>)
    requires
        increasing(eligible@),
    ensures
        match control_fault(eligible@, record) {
            Some(text) => r matches Err(e) && e@ == text,
            None => r == Ok::<ControlShard, String>(
                match record {
                    ControlRecord::Recorded(id) => ControlShard { shard_id: id, to_record: false },
                    _ => ControlShard { shard_id: eligible@[0], to_record: true },
                },
            ),
        },
{
    if eligible.is_empty() {
        return Err(String::from_str("放置表为空，无法选择控制 Shard"));
    }
    match record {
        ControlRecord::Missing => Ok(ControlShard { shard_id: eligible[0], to_record: true }),
        ControlRecord::Recorded(id) => if holds(eligible, id) {
            Ok(ControlShard { shard_id: id, to_record: false })
        } else {
            let n = decimal(id);
            Err(join3("持久化控制 Shard ", n.as_str(), " 不在当前放置表中"))
        },
        ControlRecord::Corrupt(m) => Err(join2("控制 Shard 元数据损坏: ", m.as_str())),
        ControlRecord::Unreadable(m) => Err(join2("读取控制 Shard 元数据失败: ", m.as_str())),
    }
}

/// A control shard that was recorded stays, also when smaller shards are added.
pub proof fn law_recorded_control_shard_stays(before: Seq<u64>, after: Seq<u64>, id: u64)
    requires
        increasing(before),
        increasing(after),
        before.len() > 0,
        id == before[0],
        forall|s: u64| #[trigger] before.contains(s) ==> after.contains(s),
    ensures
        control_fault(before, ControlRecord::Missing) is None,
        control_fault(after, ControlRecord::Recorded(id)) is None,
{
    assert(before.contains(before[0]));
    assert(after.contains(id));
}

/// The shards that the placement makes eligible, in ascending order.
pub fn configured_shards(placement: &PlacementConfig) -> (out: Vec<u64>)
    ensures
        crate::order::lists(out@, crate::config::held(placement.nodes@).to_set()),
{
    placement.all_shards()
}

/// The leader that a failed write points to.
pub open spec fn pointed_to(e: WriteError) -> Option<u64> {
    match e {
        WriteError::ForwardToLeader { leader_id, .. } => leader_id,
        _ => None,
    }
}

/// The leader that a failed write points to.
pub fn forward_node_id(e: &WriteError) -> (r: Option<u64>)
    ensures
        r == pointed_to(*e),
{
    match e {
        WriteError::ForwardToLeader { leader_id, leader_addr: _ } => *leader_id,
        _ => None,
    }
}

/// Contents of the entries' texts.
pub open spec fn entry_texts(entries: Seq<(u64, String)>) -> Seq<Seq<char>> {
    entries.map_values(|e: (u64, String)| e.1@)
}

/// The addresses to try: that of the preferred node, if it is known; then those of all
/// peers, in ascending order of ids.
pub open spec fn candidate_texts(peer_addrs: IdMap<String>, preferred: Option<u64>) -> Seq<
    Seq<char>,
> {
    (match preferred {
        Some(id) if peer_addrs@.dom().contains(id) => seq![peer_addrs@[id]@],
        _ => Seq::empty(),
    }) + entry_texts(peer_addrs.entries@)
}

/// The addresses to try, in this order: that of the node which the local shard
/// points to, if it is known; then those of all peers, in ascending order of ids.
pub fn candidates(peer_addrs: &IdMap<String>, preferred: Option<u64>) -> (out: Vec<String>)
    requires
        peer_addrs.wf(),
    ensures
        crate::text::text_views(out@) == candidate_texts(*peer_addrs, preferred),
{
    let mut out: Vec<String> = Vec::new();
    if let Some(id) = preferred {
        if let Some(addr) = peer_addrs.get(id) {
            out.push(addr.clone());
        }
    }
    let ghost head = crate::text::text_views(out@);
    let ghost all = entry_texts(peer_addrs.entries@);
    let mut i: usize = 0;
    proof {
        assert(head + all.take(0) =~= head);
    }
    while i < peer_addrs.entries.len()
        invariant
            i <= peer_addrs.entries@.len(),
            all == entry_texts(peer_addrs.entries@),
            crate::text::text_views(out@) == head + all.take(i as int),
        decreases peer_addrs.entries@.len() - i,
    {
        let ghost was = out@;
        let addr = peer_addrs.entries[i].1.clone();
        out.push(addr);
        proof {
            assert(all.take(i + 1) =~= all.take(i as int).push(addr@));
            assert(crate::text::text_views(out@) =~= crate::text::text_views(was).push(addr@));
            assert(head + all.take(i + 1) =~= (head + all.take(i as int)).push(addr@));
        }
        i += 1;
    }
    proof {
        assert(all.take(all.len() as int) =~= all);
        if preferred is Some && peer_addrs@.dom().contains(preferred->Some_0) {
            assert(head =~= seq![peer_addrs@[preferred->Some_0]@]);
        } else {
            assert(head =~= Seq::<Seq<char>>::empty());
        }
    }
    out
}

/// The error where no candidate took a commit: the last failure, if there was one.
pub fn commit_failure(last_error: Option<String>) -> (e: OwnershipError)
    ensures
        match last_error {
            Some(text) => e == OwnershipError::Unavailable(text),
            None => e matches OwnershipError::Unavailable(m) && m@ == "找不到控制 Shard leader"@,
        },
{
    match last_error {
        Some(text) => OwnershipError::Unavailable(text),
        None => OwnershipError::Unavailable(String::from_str("找不到控制 Shard leader")),
    }
}

/// The error where no candidate took a fence: the last failure, if there was one.
pub fn fence_failure(shard_id: u64, last_error: Option<String>) -> (e: OwnershipError)
    ensures
        match last_error {
            Some(text) => e == OwnershipError::Unavailable(text),
            None => e matches OwnershipError::Unavailable(m) && m@ == "找不到 Shard "@
                + decimal_text(shard_id as nat) + " leader"@,
        },
{
    match last_error {
        Some(text) => OwnershipError::Unavailable(text),
        None => {
            let n = decimal(shard_id);
            OwnershipError::Unavailable(join3("找不到 Shard ", n.as_str(), " leader"))
        },
    }
}

/// What a data shard answers to a fence, with the answer as it is printed.
#[derive(Debug)]
pub struct FenceReply {
    /// The highest generation the shard has seen, if that is what it answered.
    pub installed: Option<u64>,
    pub shown: String,
}

/// Reads the answer to a fence: the shard must have seen at least the generation.
pub fn fence_installed(generation: u64, reply: FenceReply) -> (r: Result<u64, OwnershipError>)
    ensures
        match reply.installed {
            Some(seen) if seen >= generation => r == Ok::<u64, OwnershipError>(seen),
            _ => r matches Err(OwnershipError::Internal(m)) && m@
                == "数据 Shard 返回意外 fencing 结果: "@ + reply.shown@,
        },
{
    match reply.installed {
        Some(seen) => {
            if seen >= generation {
                return Ok(seen);
            }
        },
        None => {},
    }
    Err(OwnershipError::Internal(join2("数据 Shard 返回意外 fencing 结果: ", reply.shown.as_str())))
}

/// Reads the answer to a commit; `Err` holds an answer of another kind, as printed.
pub fn commit_applied(reply: Result<OwnershipApply, String>) -> (r: Result<
    OwnershipApply,
    OwnershipError,
>)
    ensures
        match reply {
            Ok(a) => r == Ok::<OwnershipApply, OwnershipError>(a),
            Err(shown) => r matches Err(OwnershipError::Internal(m)) && m@
                == "控制 Shard 返回意外结果: "@ + shown@,
        },
{
    match reply {
        Ok(a) => Ok(a),
        Err(shown) => Err(
            OwnershipError::Internal(join2("控制 Shard 返回意外结果: ", shown.as_str())),
        ),
    }
}


/// The fence of the owner was confirmed: the same shard, in the same generation.
pub open spec fn has_fence(o: StreamOwnership, stream: Seq<char>, owner: Owner) -> bool {
    o.confirmed_fences@.dom().contains(stream) && o.confirmed_fences@[stream].0 == owner.shard_id
        && o.confirmed_fences@[stream].1 == owner.generation
}

/// The owner that the projection names for the stream.
pub open spec fn names_as_owner(o: StreamOwnership, stream: Seq<char>, owner: Owner) -> bool {
    let t = o.route_table.mem;
    &&& t.streams@.dom().contains(stream) && t.streams@[stream] == owner.shard_id
    &&& owner.generation == (if t.stream_generations@.dom().contains(stream) {
        t.stream_generations@[stream]
    } else {
        1
    })
}

/// An append to a stream goes at once to the owner that is known and whose fence was
/// confirmed; to one that is known it goes after the fence, and an unknown one is asked
/// for.  Nothing is decided before the projection is there, and nothing for no stream.
pub proof fn law_append_goes_to_a_confirmed_owner(
    o: StreamOwnership,
    stream: &str,
    stage: AppendStage,
)
    requires
        call_ensures(StreamOwnership::for_append, (&o, stream), stage),
    ensures
        stream@.len() == 0 ==> (stage matches AppendStage::Done(Err(e)) && e is Invalid),
        stream@.len() > 0 && !o.initialized ==> stage is Bootstrap,
        stream@.len() > 0 && o.initialized ==> match stage {
            AppendStage::Bootstrap => false,
            AppendStage::Ensure { last } => !last && !o.route_table.mem.streams@.dom().contains(
                stream@,
            ),
            AppendStage::Fence { owner, created, last } => !created && !last && names_as_owner(
                o,
                stream@,
                owner,
            ) && !has_fence(o, stream@, owner),
            AppendStage::Done(r) => r matches Ok(t) && !t.created_now && names_as_owner(
                o,
                stream@,
                t.owner,
            ) && has_fence(o, stream@, t.owner),
        },
{
    assert(o.route_table.mem@.streams == o.route_table.mem.streams@);
    assert(o.route_table.mem@.generations == o.route_table.mem.stream_generations@);
}

/// The projection is taken over only where the control shard answered and the table was
/// written down; then the stream is looked up in it.
pub proof fn law_projection_is_taken_over_once_written(
    this: &mut StreamOwnership,
    stream: &str,
    answer: Committed,
    stage: AppendStage,
)
    requires
        call_ensures(StreamOwnership::on_bootstrapped, (this, stream, answer), stage),
    ensures
        final(this).confirmed_fences@ == old(this).confirmed_fences@,
        answer.applied is Ok && answer.persisted is Ok ==> final(this).initialized
            && final(this).route_table.mem == answer.applied->Ok_0.table && !(stage is Bootstrap),
        answer.applied is Err || answer.persisted is Err ==> final(this).initialized == old(this).initialized && final(this).route_table.mem == old(this).route_table.mem && (
        stage matches AppendStage::Done(Err(_))),
        answer.applied is Ok && answer.persisted is Ok
            && !answer.applied->Ok_0.table.streams@.dom().contains(stream@) ==> stage == (
        AppendStage::Ensure { last: false }),
        answer.applied matches Err(e) ==> stage == AppendStage::Done(Err(e)),
{
    if let Ok(a) = answer.applied {
        assert(a.table@.streams == a.table.streams@);
    }
}

/// The owner that the control shard names is the one the append goes to, by way of its
/// fence if that was not confirmed.  A stream counts as created only where this append's
/// first question created it.  A recovery does not go back to a generation that it tried.
pub proof fn law_named_owner_is_fenced_and_used(
    this: &mut StreamOwnership,
    stream: &str,
    purpose: Purpose,
    last: bool,
    a: OwnershipApply,
    stage: AppendStage,
)
    requires
        call_ensures(
            StreamOwnership::on_ensured,
            (
                this,
                stream,
                purpose,
                last,
                Committed { applied: Ok(a), persisted: Ok::<(), String>(()) },
            ),
            stage,
        ),
    ensures
        final(this).route_table.mem == a.table,
        final(this).confirmed_fences@ == old(this).confirmed_fences@,
        a.outcome matches OwnershipOutcome::Owner { owner, created } ==> {
            let stale = purpose matches Purpose::Recover { attempted } && owner.generation
                <= attempted;
            &&& stale ==> (stage matches AppendStage::Done(Err(e)) && e is Unavailable)
            &&& !stale && has_fence(*old(this), stream@, owner) ==> (stage matches AppendStage::Done(
                Ok(t),
            ) && t.owner == owner && (t.created_now <==> created && !last && purpose is Append))
            &&& !stale && !has_fence(*old(this), stream@, owner) ==> (stage matches AppendStage::Fence {
                owner: o,
                created: c,
                last: l,
            } && o == owner && l == last && (c <==> created && !last && purpose is Append))
        },
        a.outcome matches OwnershipOutcome::Conflict { current } ==> stage == AppendStage::Done(
            Err(OwnershipError::Conflict(current)),
        ),
        a.outcome matches OwnershipOutcome::Invalid { reason } ==> stage == AppendStage::Done(
            Err(OwnershipError::Invalid(reason)),
        ),
        a.outcome is Snapshot || a.outcome is MovePrepared ==> (stage matches AppendStage::Done(
            Err(e),
        ) && e is Internal),
{
}

/// A fence that was installed for the owner lets the append go to it, and is remembered.
/// Where a later generation was found the owner is asked for once more, and the second
/// time the append is to be tried again; what failed is the answer.
pub proof fn law_fence_lets_the_append_through(
    this: &mut StreamOwnership,
    stream: &str,
    purpose: Purpose,
    target: AppendTarget,
    last: bool,
    answer: Result<u64, OwnershipError>,
    stage: AppendStage,
)
    requires
        call_ensures(
            StreamOwnership::on_fenced,
            (this, stream, purpose, target, last, answer),
            stage,
        ),
    ensures
        final(this).route_table.mem == old(this).route_table.mem,
        answer matches Err(e) ==> stage == AppendStage::Done(Err(e)) && final(this).confirmed_fences@ == old(this).confirmed_fences@,
        answer matches Ok(seen) ==> {
            &&& seen <= target.owner.generation ==> stage == AppendStage::Done(Ok(target))
                && has_fence(*final(this), stream@, target.owner)
            &&& seen > target.owner.generation && !last ==> stage == (AppendStage::Ensure {
                last: true,
            })
            &&& seen > target.owner.generation && last ==> (stage matches AppendStage::Done(
                Err(e),
            ) && e is Unavailable)
            &&& seen > target.owner.generation ==> final(this).confirmed_fences@ == old(this).confirmed_fences@
        },
{
}

/// A recovery forgets the fence of a generation that it tried, and asks for the owner, for
/// the last time.
pub proof fn law_recovery_forgets_what_it_tried(
    this: &mut StreamOwnership,
    stream: &str,
    attempted: u64,
    stage: AppendStage,
    x: Seq<char>,
)
    requires
        call_ensures(StreamOwnership::recover_fenced, (this, stream, attempted), stage),
    ensures
        stage == (AppendStage::Ensure { last: true }),
        final(this).route_table == old(this).route_table,
        final(this).confirmed_fences@.dom().contains(stream@) ==> final(this).confirmed_fences@[stream@].1 > attempted,
        old(this).confirmed_fences@.dom().contains(x) && (x != stream@ || old(this).confirmed_fences@[x].1 > attempted) ==> final(this).confirmed_fences@.dom().contains(x)
            && final(this).confirmed_fences@[x] == old(this).confirmed_fences@[x],
{
}

/// A change begins with its own first step, once the projection is there; an edited file
/// is accepted only where it says what the projection says.
pub proof fn law_change_begins_with_its_first_step(
    o: StreamOwnership,
    change: OwnershipChange,
    stage: ChangeStage,
)
    requires
        call_ensures(StreamOwnership::change, (&o, change), stage),
    ensures
        !o.initialized ==> stage == ChangeStage::Bootstrap(change),
        o.initialized ==> match change {
            OwnershipChange::Move { stream, expected, target_shard, operation_id } => stage == (
            ChangeStage::PrepareMove { stream, expected, target_shard, operation_id }),
            OwnershipChange::AdoptOrphan { stream, source_shard, target_shard } => stage == (
            ChangeStage::AdoptOrphan { stream, source_shard, target_shard }),
            OwnershipChange::ApplyPlacement { eligible_shards } => stage == (
            ChangeStage::ApplyPlacement { eligible_shards }),
            OwnershipChange::ImportLegacy { table } => if o.route_table.mem@ == table@ {
                stage matches ChangeStage::Done(Ok(r)) && !r.changed && r.owner is None
                    && r.revision == o.route_table.mem.version
            } else {
                stage is RestoreProjection
            },
        },
{
    assert(o.route_table.mem@.version == o.route_table.mem.version);
}

/// What a change does to the projection, the fences and the shards: the projection is
/// replaced only by a table that was written down; a fence is noted only when a move is
/// complete or an adoption published; the shards change only with a placement that the
/// control shard took.
pub proof fn law_change_touches_only_what_it_finished(
    this: &mut StreamOwnership,
    stage: ChangeStage,
    answer: ChangeAnswer,
    next: ChangeStage,
)
    requires
        call_ensures(StreamOwnership::on_answer, (this, stage, answer), next),
    ensures
        final(this).control_shard_id == old(this).control_shard_id,
        final(this).route_table.mem == old(this).route_table.mem || (match answer {
            ChangeAnswer::Committed(c) => c.applied is Ok && c.persisted is Ok && final(this).route_table.mem == c.applied->Ok_0.table,
            ChangeAnswer::Persisted(p) => p is Ok && (stage matches ChangeStage::PublishAdoption(a)
                && final(this).route_table.mem == a.table),
            _ => false,
        }),
        final(this).confirmed_fences@ == old(this).confirmed_fences@ || stage is CompleteMove
            || stage is PublishAdoption,
        final(this).eligible_shards@ == old(this).eligible_shards@ || (
        stage matches ChangeStage::ApplyPlacement { eligible_shards } && final(this).eligible_shards@ == eligible_shards@),
        answer matches ChangeAnswer::Fenced(_) ==> final(this).route_table.mem == old(this).route_table.mem && final(this).confirmed_fences@ == old(this).confirmed_fences@,
        stage is AdoptOrphan ==> final(this).route_table.mem == old(this).route_table.mem,
        !old(this).initialized && final(this).initialized ==> stage is Bootstrap,
{
}

/// A completed move, once written down, makes the new owner's table the projection and
/// notes its fence.
pub proof fn law_completed_move_takes_effect(
    this: &mut StreamOwnership,
    m: Move,
    a: OwnershipApply,
    owner: Owner,
    created: bool,
    next: ChangeStage,
)
    requires
        a.outcome == (OwnershipOutcome::Owner { owner, created }),
        call_ensures(
            StreamOwnership::on_answer,
            (
                this,
                ChangeStage::CompleteMove(m),
                ChangeAnswer::Committed(
                    Committed { applied: Ok(a), persisted: Ok::<(), String>(()) },
                ),
            ),
            next,
        ),
    ensures
        final(this).route_table.mem == a.table,
        has_fence(*final(this), m.stream@, owner),
        next matches ChangeStage::Done(Ok(r)) && r.changed && r.owner == Some(owner) && r.revision
            == a.table.version,
{
}

/// A published adoption makes its table the projection and notes the adopter's fence.
pub proof fn law_published_adoption_takes_effect(
    this: &mut StreamOwnership,
    a: Adoption,
    next: ChangeStage,
)
    requires
        call_ensures(
            StreamOwnership::on_answer,
            (
                this,
                ChangeStage::PublishAdoption(a),
                ChangeAnswer::Persisted(Ok::<(), String>(())),
            ),
            next,
        ),
    ensures
        final(this).route_table.mem == a.table,
        has_fence(*final(this), a.stream@, a.owner),
        next matches ChangeStage::Done(Ok(r)) && r.changed && r.owner == Some(a.owner)
            && r.revision == a.table.version,
{
}

/// A move that was prepared is fenced on the shard it goes to and then on the one it
/// leaves, in the generation that was prepared; one that is there already changes nothing.
pub proof fn law_prepared_move_is_fenced_as_prepared(
    this: &mut StreamOwnership,
    stream: String,
    expected: OwnerMatch,
    target_shard: u64,
    operation_id: u128,
    a: OwnershipApply,
    persisted: Result<(), String>,
    next: ChangeStage,
)
    requires
        call_ensures(
            StreamOwnership::on_answer,
            (
                this,
                ChangeStage::PrepareMove { stream, expected, target_shard, operation_id },
                ChangeAnswer::Committed(Committed { applied: Ok(a), persisted }),
            ),
            next,
        ),
    ensures
        a.outcome matches OwnershipOutcome::MovePrepared { current, generation, operation_id: op }
            ==> (next matches ChangeStage::FenceTarget(m) && m.stream@ == stream@
            && m.source_shard == current.shard_id && m.target_shard == target_shard
            && m.generation == generation && m.operation_id == op && final(this).route_table.mem
            == old(this).route_table.mem),
        a.outcome matches OwnershipOutcome::Owner { owner, created } ==> (owner.shard_id
            == target_shard && persisted is Ok ==> (next matches ChangeStage::Done(Ok(r))
            && !r.changed && r.owner == Some(owner) && r.revision == a.table.version)),
        a.outcome matches OwnershipOutcome::Conflict { current } ==> next == ChangeStage::Done(
            Err(OwnershipError::Conflict(current)),
        ),
{
}

/// A placement that the control shard took replaces the shards that streams go to, and
/// says whether that changed anything.
pub proof fn law_placement_replaces_the_shards(
    this: &mut StreamOwnership,
    eligible_shards: Vec<u64>,
    a: OwnershipApply,
    next: ChangeStage,
)
    requires
        a.outcome is Snapshot,
        call_ensures(
            StreamOwnership::on_answer,
            (
                this,
                ChangeStage::ApplyPlacement { eligible_shards },
                ChangeAnswer::Committed(
                    Committed { applied: Ok(a), persisted: Ok::<(), String>(()) },
                ),
            ),
            next,
        ),
    ensures
        final(this).eligible_shards@ == eligible_shards@,
        final(this).route_table.mem == a.table,
        next matches ChangeStage::Done(Ok(r)) && (r.changed <==> old(this).eligible_shards@
            != eligible_shards@) && r.owner is None && r.revision == a.table.version,
{
}

/// The control shard is the one that was recorded, if it still exists; where none was it
/// is the first shard, and is recorded.  A record that cannot be used is refused.
pub proof fn law_control_shard_is_the_recorded_one(
    eligible: Vec<u64>,
    record: ControlRecord,
    r: Result<ControlShard, String>,
)
    requires
        call_ensures(control_shard, (&eligible, record), r),
    ensures
        r is Ok <==> eligible@.len() > 0 && (match record {
            ControlRecord::Missing => true,
            ControlRecord::Recorded(id) => eligible@.contains(id),
            _ => false,
        }),
        r matches Ok(c) ==> {
            &&& record matches ControlRecord::Recorded(id) ==> c.shard_id == id && !c.to_record
            &&& record is Missing ==> c.shard_id == eligible@[0] && c.to_record
        },
{
}

/// The errors of ownership have their codes; what is unavailable, invalid or internal says
/// why.
pub proof fn law_ownership_errors_have_their_codes(e: OwnershipError, s: Status)
    requires
        call_ensures(OwnershipError::into_status, (e,), s),
    ensures
        s@.code == (match e {
            OwnershipError::Unavailable(_) => Code::Unavailable,
            OwnershipError::Conflict(_) => Code::Aborted,
            OwnershipError::Invalid(_) => Code::FailedPrecondition,
            OwnershipError::UnsafeLegacyEdit(_) => Code::FailedPrecondition,
            OwnershipError::Internal(_) => Code::Internal,
        }),
        e matches OwnershipError::Unavailable(m) ==> s@.message == m@,
        e matches OwnershipError::Invalid(m) ==> s@.message == m@,
        e matches OwnershipError::Internal(m) ==> s@.message == m@,
{
}

/// A fence counts as installed where the shard is in that generation or a later one.
pub proof fn law_fence_is_installed_from_its_generation_on(
    generation: u64,
    reply: FenceReply,
    r: Result<u64, OwnershipError>,
)
    requires
        call_ensures(fence_installed, (generation, reply), r),
    ensures
        r is Ok <==> (reply.installed matches Some(seen) && seen >= generation),
        r matches Ok(seen) ==> reply.installed == Some(seen),
        r matches Err(e) ==> e is Internal,
{
}

/// The nodes that are asked: the preferred one first, if it is known, then all, by their
/// numbers.
pub proof fn law_preferred_node_comes_first(
    peer_addrs: IdMap<String>,
    preferred: Option<u64>,
    out: Vec<String>,
    i: int,
)
    requires
        call_ensures(candidates, (&peer_addrs, preferred), out),
    ensures
        ({
            let known = preferred matches Some(id) && peer_addrs@.dom().contains(id);
            let n = peer_addrs.entries@.len();
            &&& known ==> out@.len() == n + 1 && out@[0]@ == peer_addrs@[preferred->0]@
            &&& !known ==> out@.len() == n
            &&& 0 <= i < n ==> out@[if known {
                i + 1
            } else {
                i
            }]@ == peer_addrs.entries@[i].1@
        }),
{
    let texts = candidate_texts(peer_addrs, preferred);
    let views = crate::text::text_views(out@);
    assert(views == texts);
    assert(views.len() == out@.len());
    let known = preferred matches Some(id) && peer_addrs@.dom().contains(id);
    if known {
        assert(views[0] == out@[0]@);
    }
    if 0 <= i < peer_addrs.entries@.len() {
        let k = if known {
            i + 1
        } else {
            i
        };
        assert(views[k] == out@[k]@);
        assert(texts[k] == entry_texts(peer_addrs.entries@)[i]);
    }
}


/// A failed commit names the node to go to, if it was told one; with nobody left to ask,
/// the last failure is told, and it is in any case one to be tried again.
pub proof fn law_last_failure_is_told(
    failed: WriteError,
    node: Option<u64>,
    shard_id: u64,
    last_error: Option<String>,
    committing: OwnershipError,
    fencing: OwnershipError,
)
    requires
        call_ensures(forward_node_id, (&failed,), node),
        call_ensures(commit_failure, (last_error,), committing),
        call_ensures(fence_failure, (shard_id, last_error), fencing),
    ensures
        failed matches WriteError::ForwardToLeader { leader_id, .. } ==> node == leader_id,
        !(failed is ForwardToLeader) ==> node is None,
        committing is Unavailable && fencing is Unavailable,
        last_error matches Some(text) ==> committing == OwnershipError::Unavailable(text)
            && fencing == OwnershipError::Unavailable(text),
{
}

/// A stream whose owner is confirmed is written to at once; any other is fenced first.
pub proof fn law_only_a_confirmed_owner_is_written_to(
    o: StreamOwnership,
    stream: &str,
    owner: Owner,
    created: bool,
    last: bool,
    stage: AppendStage,
)
    requires
        call_ensures(StreamOwnership::confirm, (&o, stream, owner, created, last), stage),
    ensures
        o.confirmed_fences@.dom().contains(stream@) && o.confirmed_fences@[stream@] == (
            owner.shard_id,
            owner.generation,
        ) ==> stage == AppendStage::Done(
            Ok::<AppendTarget, OwnershipError>(AppendTarget { owner, created_now: created }),
        ),
        !(o.confirmed_fences@.dom().contains(stream@) && o.confirmed_fences@[stream@] == (
            owner.shard_id,
            owner.generation,
        )) ==> stage == (AppendStage::Fence { owner, created, last }),
{
}

/// The projection is replaced by the table that the control shard gave, once that is
/// written; otherwise it stays.
pub proof fn law_refreshed_projection_is_the_given_table(
    this: &mut StreamOwnership,
    answer: Committed,
    r: Result<ChangeReceipt, OwnershipError>,
)
    requires
        call_ensures(StreamOwnership::refresh_projection, (this, answer), r),
    ensures
        r is Ok <==> answer.applied is Ok && answer.persisted is Ok,
        r is Err ==> final(this).route_table.mem == old(this).route_table.mem
            && final(this).initialized == old(this).initialized,
        r is Ok ==> (answer.applied matches Ok(a) && final(this).route_table.mem == a.table
            && final(this).initialized && r->Ok_0.revision == a.table.version),
        final(this).confirmed_fences == old(this).confirmed_fences,
        final(this).eligible_shards == old(this).eligible_shards,
{
}


/// An adoption goes to the owner that the control shard named, from the shard and to the
/// shard that were asked for, with the table that came with it; the fences come first.
pub proof fn law_orphan_is_adopted_as_answered(
    this: &mut StreamOwnership,
    stream: String,
    source_shard: u64,
    target_shard: u64,
    a: OwnershipApply,
    persisted: Result<(), String>,
    next: ChangeStage,
)
    requires
        call_ensures(
            StreamOwnership::on_answer,
            (
                this,
                ChangeStage::AdoptOrphan { stream, source_shard, target_shard },
                ChangeAnswer::Committed(Committed { applied: Ok(a), persisted }),
            ),
            next,
        ),
    ensures
        a.outcome matches OwnershipOutcome::Owner { owner, .. } ==> (
        next matches ChangeStage::FenceAdopter(d) && d.stream@ == stream@ && d.source_shard
            == source_shard && d.target_shard == target_shard && d.owner == owner && d.table
            == a.table),
        a.outcome matches OwnershipOutcome::Conflict { current } ==> next == ChangeStage::Done(
            Err(OwnershipError::Conflict(current)),
        ),
        a.outcome matches OwnershipOutcome::Invalid { reason } ==> next == ChangeStage::Done(
            Err(OwnershipError::Invalid(reason)),
        ),
        final(this).confirmed_fences@ == old(this).confirmed_fences@,
{
}

/// A fence that was taken leads on, from the shard that takes the stream to the one that
/// loses it and then to the handover; one that failed ends the change.
pub proof fn law_fences_lead_to_the_handover(
    this: &mut StreamOwnership,
    m: Move,
    target: bool,
    answer: Result<u64, OwnershipError>,
    next: ChangeStage,
)
    requires
        call_ensures(
            StreamOwnership::on_answer,
            (
                this,
                if target {
                    ChangeStage::FenceTarget(m)
                } else {
                    ChangeStage::FenceSource(m)
                },
                ChangeAnswer::Fenced(answer),
            ),
            next,
        ),
    ensures
        answer matches Err(e) ==> next == ChangeStage::Done(Err(e)),
        answer is Ok && target ==> next == ChangeStage::FenceSource(m),
        answer is Ok && !target ==> next == ChangeStage::CompleteMove(m),
{
}

} // verus!
