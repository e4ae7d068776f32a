//! One look of a consumer at its group, from reading the group to the events that it
//! gets.
//!
//! Each stage names what is to be done next; the answer leads to the stage behind it.

use vstd::prelude::*;

use crate::backlog::{CursorView, PersistentCursor, capped_sum, cursor_views};
use crate::event::Event;
use crate::maps::TextMap;
use crate::order::lists;
use crate::persistent_fetch::{
    Allowance, DeliveryCandidate, FetchResponse, Gathered, ReadPlan, allowance, candidates_of,
    claim_deadline, claimed_reply, delivers, earliest_deadline, fetch_reads, gather, has_expired,
    is_candidate, less_by, matched, next_retry, nothing_read, plan_reads, reads_on,
};
use crate::persistent_group::{Delivery, PersistentGroup, StreamProgress, is_fresh};
use crate::persistent_service::{
    GroupOutcome, ensured_progress, generation_in, group_reply, missing_streams,
    newer_generations, unexpected_reply,
};
use crate::route_table::{RouteTable, RouteTableView};
use crate::status::{Code, Status, StatusView, says};
use crate::text::{text_views, texts_increase};
use crate::versions::VersionMap;

verus! {

/// Who looks, for how much, and when.
#[derive(Debug)]
pub struct Look {
    pub consumer_id: String,
    pub max_events: u32,
    pub max_bytes: u64,
    pub now: u64,
}

/// What is read for a consumer, shard by shard.
#[derive(Debug)]
pub struct Gathering {
    pub group: PersistentGroup,
    pub plan: ReadPlan,
    /// The shard that comes next.
    pub at: usize,
    pub gathered: Gathered,
}

impl Gathering {
    pub open spec fn wf(&self) -> bool {
        self.group.wf() && self.gathered.wf() && self.at <= self.plan.requests@.len()
    }
}

/// What a look does next.
#[derive(Debug)]
pub enum LookStage {
    /// Read the group; the flag tells whether expired deliveries were taken back before.
    ReadGroup { expired: bool },
    /// Take back the deliveries that have expired by now.
    Expire,
    /// Ask for the ends of streams that the group does not know yet.
    Heads { missing: Vec<String> },
    /// Add streams to the group.
    EnsureStreams { streams: TextMap<StreamProgress> },
    /// Look at who owns the streams.
    Ownership { group: PersistentGroup },
    /// Tell the group of newer generations.
    Reconcile { generations: TextMap<u64>, routes: TextMap<u64> },
    /// Find out how many more deliveries the consumer may have.
    Credit { group: PersistentGroup, routes: TextMap<u64> },
    /// Read events of the shards.
    Read(Gathering),
    /// Claim events for the consumer until the deadline.
    Claim { candidates: Vec<DeliveryCandidate>, events: VersionMap<Event>, deadline_ms: u64 },
    Done(Result<FetchResponse, Status>),
}

/// A read of a shard.
#[derive(Debug)]
pub struct ShardRead {
    pub shard_id: u64,
    pub max_events: u32,
    pub max_bytes: u64,
}

/// A delivery of the group has expired.
pub open spec fn some_expired(group: PersistentGroup, now: u64) -> bool {
    exists|i: int|
        0 <= i < group.deliveries@.len() && (#[trigger] group.deliveries@[i]).deadline_ms <= now
}

/// The stream is new to a group that follows all streams.
pub open spec fn is_missing(group: PersistentGroup, table: RouteTableView, x: Seq<char>) -> bool {
    group.target is All && table.streams.dom().contains(x) && !group.progress@.dom().contains(x)
}

/// The group has progress of every stream that has an owner.
pub open spec fn lacks_none(group: PersistentGroup, table: RouteTableView) -> bool {
    forall|x: Seq<char>| #[trigger]
        table.streams.dom().contains(x) ==> group.progress@.dom().contains(x)
}

/// The stream has an owner of a newer generation than the group knows.
pub open spec fn is_newer(group: PersistentGroup, table: RouteTableView, x: Seq<char>) -> bool {
    group.progress@.dom().contains(x) && table.streams.dom().contains(x) && generation_in(table, x)
        > group.progress@[x].ownership_generation
}

/// Why a write to the group failed.
pub open spec fn write_fault<T>(
    outcome: GroupOutcome<T>,
    operation: Seq<char>,
    shown: Seq<char>,
) -> Option<StatusView> {
    match outcome {
        GroupOutcome::Done(_) => None,
        GroupOutcome::NotFound => Some(says(Code::NotFound, "group not found"@)),
        _ => Some(unexpected_reply(operation, shown)),
    }
}

impl Look {
    /// Begins with reading the group.
    pub fn begin() -> (stage: LookStage)
        ensures
            stage == (LookStage::ReadGroup { expired: false }),
    {
        LookStage::ReadGroup { expired: false }
    }

    /// Goes on with the group.
    pub fn on_group(
        &self,
        expired: bool,
        answer: Result<PersistentGroup, Status>,
        table: &RouteTable,
    ) -> (stage: LookStage)
        requires
            answer matches Ok(g) ==> g.wf(),
            table.wf(),
        ensures
            match answer {
                Err(s) => stage == LookStage::Done(Err(s)),
                Ok(group) => if !expired && some_expired(group, self.now) {
                    stage is Expire
                } else if exists|x: Seq<char>| is_missing(group, table@, x) {
                    stage matches LookStage::Heads { missing } && texts_increase(
                        text_views(missing@),
                    ) && forall|x: Seq<char>| #[trigger]
                        text_views(missing@).contains(x) <==> is_missing(group, table@, x)
                } else {
                    stage == LookStage::Ownership { group }
                },
            },
            stage is Ownership && answer->Ok_0.target is All ==> lacks_none(
                answer->Ok_0,
                table@,
            ),
    {
        let group = match answer {
            Ok(group) => group,
            Err(s) => return LookStage::Done(Err(s)),
        };
        if !expired && has_expired(&group.deliveries, self.now) {
            return LookStage::Expire;
        }
        let missing = missing_streams(&group, table);
        if missing.len() > 0 {
            proof {
                let x = text_views(missing@)[0];
                assert(text_views(missing@).contains(x));
                assert(is_missing(group, table@, x));
            }
            LookStage::Heads { missing }
        } else {
            proof {
                assert forall|x: Seq<char>| !is_missing(group, table@, x) by {
                    assert(!text_views(missing@).contains(x));
                }
                assert forall|x: Seq<char>|
                    group.target is All && #[trigger] table@.streams.dom().contains(
                        x,
                    ) implies group.progress@.dom().contains(x) by {
                    assert(!is_missing(group, table@, x));
                }
            }
            LookStage::Ownership { group }
        }
    }

    /// Goes on after expired deliveries were taken back.
    pub fn on_expired(answer: Result<(), Status>) -> (stage: LookStage)
        ensures
            stage == (match answer {
                Ok(_) => LookStage::ReadGroup { expired: true },
                Err(s) => LookStage::Done(Err(s)),
            }),
    {
        match answer {
            Ok(_) => LookStage::ReadGroup { expired: true },
            Err(s) => LookStage::Done(Err(s)),
        }
    }

    /// Goes on with the ends of the streams that are new to the group: it follows them
    /// from their beginning.
    pub fn on_heads(answer: Result<TextMap<(u64, u64)>, Status>) -> (stage: LookStage)
        requires
            answer matches Ok(heads) ==> heads.wf(),
        ensures
            match answer {
                Err(s) => stage == LookStage::Done(Err(s)),
                Ok(heads) => stage matches LookStage::EnsureStreams { streams } && streams.wf()
                    && streams@.dom() == heads@.dom() && forall|x: Seq<char>| #[trigger]
                    heads@.dom().contains(x) ==> is_fresh(streams@[x], 0, heads@[x].1),
            },
    {
        match answer {
            Ok(heads) => LookStage::EnsureStreams { streams: ensured_progress(&heads) },
            Err(s) => LookStage::Done(Err(s)),
        }
    }

    /// Goes on after streams were added.
    pub fn on_ensured(answer: Result<GroupOutcome<PersistentGroup>, Status>, shown: &str) -> (stage:
        LookStage)
        ensures
            match answer {
                Err(s) => stage == LookStage::Done(Err(s)),
                Ok(outcome) => match write_fault(outcome, "EnsureStreams"@, shown@) {
                    Some(fault) => stage matches LookStage::Done(Err(s)) && s@ == fault,
                    None => stage == (LookStage::Ownership { group: outcome->Done_0 }),
                },
            },
    {
        let outcome = match answer {
            Ok(outcome) => outcome,
            Err(s) => return LookStage::Done(Err(s)),
        };
        match group_reply("EnsureStreams", outcome, shown) {
            Ok(group) => LookStage::Ownership { group },
            Err(s) => LookStage::Done(Err(s)),
        }
    }

    /// Goes on with the table of the streams' owners; what is read later goes by the same
    /// table.
    pub fn on_table(group: PersistentGroup, table: &RouteTable) -> (stage: LookStage)
        requires
            group.wf(),
            table.wf(),
        ensures
            if exists|x: Seq<char>| is_newer(group, table@, x) {
                &&& stage matches LookStage::Reconcile { generations, routes }
                &&& generations.wf() && routes.wf() && routes@ == table@.streams
                &&& forall|x: Seq<char>| #[trigger]
                    generations@.dom().contains(x) <==> is_newer(group, table@, x)
                &&& forall|x: Seq<char>| #[trigger]
                    generations@.dom().contains(x) ==> generations@[x] == generation_in(table@, x)
            } else {
                &&& stage matches LookStage::Credit { group: g, routes }
                &&& g == group && routes.wf() && routes@ == table@.streams
            },
    {
        let generations = newer_generations(&group, table);
        let routes = table.streams.copy();
        if generations.entries.len() > 0 {
            proof {
                let x = generations.key(0);
                generations.lemma_entry(0);
                assert(is_newer(group, table@, x));
            }
            LookStage::Reconcile { generations, routes }
        } else {
            proof {
                assert forall|x: Seq<char>| !is_newer(group, table@, x) by {
                    assert(!generations@.dom().contains(x));
                }
            }
            LookStage::Credit { group, routes }
        }
    }

    /// Goes on after the group was told of newer generations.
    pub fn on_reconciled(
        routes: TextMap<u64>,
        answer: Result<GroupOutcome<PersistentGroup>, Status>,
        shown: &str,
    ) -> (stage: LookStage)
        ensures
            match answer {
                Err(s) => stage == LookStage::Done(Err(s)),
                Ok(outcome) => match write_fault(outcome, "ReconcileOwnership"@, shown@) {
                    Some(fault) => stage matches LookStage::Done(Err(s)) && s@ == fault,
                    None => stage == (LookStage::Credit { group: outcome->Done_0, routes }),
                },
            },
    {
        let outcome = match answer {
            Ok(outcome) => outcome,
            Err(s) => return LookStage::Done(Err(s)),
        };
        match group_reply("ReconcileOwnership", outcome, shown) {
            Ok(group) => LookStage::Credit { group, routes },
            Err(s) => LookStage::Done(Err(s)),
        }
    }

    /// Goes on with how many more deliveries the consumer may have: with none it has to
    /// wait, else reading is planned.
    pub fn on_credit(&self, group: PersistentGroup, routes: TextMap<u64>, credit: u32) -> (stage:
        LookStage)
        requires
            group.wf(),
            routes.wf(),
        ensures
            if credit == 0 {
                stage matches LookStage::Done(Ok(r)) && r.deliveries@.len() == 0 && !r.caught_up
                    && r.throttled && r.retry_after_ms == (match earliest_deadline(
                    group.deliveries@,
                    self.consumer_id@,
                ) {
                    Some(t) => less_by(t, self.now),
                    None => group.settings.ack_timeout_ms,
                })
            } else {
                let limit = if self.max_events < credit {
                    self.max_events
                } else {
                    credit
                };
                let reads = fetch_reads(group, routes@, self.consumer_id@, limit, self.now);
                &&& stage matches LookStage::Read(g)
                &&& g.wf() && g.at == 0 && g.group == group
                &&& lists(
                    g.plan.requests@.map_values(|q: (u64, Vec<PersistentCursor>)| q.0),
                    reads.map_values(|p: (u64, CursorView)| p.0).to_set(),
                )
                &&& forall|i: int|
                    0 <= i < g.plan.requests@.len() ==> cursor_views(
                        (#[trigger] g.plan.requests@[i]).1@,
                    ) == reads_on(reads, g.plan.requests@[i].0)
                &&& g.plan.next_retry == next_retry(group.pending_retries.entries@, self.now)
                &&& g.gathered.max_events == limit && g.gathered.max_bytes == self.max_bytes
                &&& g.gathered.events.entries@.len() == 0 && g.gathered.used_bytes == 0
            },
    {
        let limit: u32 = match allowance(
            &group,
            self.consumer_id.as_str(),
            credit,
            self.max_events,
            self.now,
        ) {
            Allowance::Throttled(r) => return LookStage::Done(Ok(r)),
            Allowance::Fetch(limit) => limit,
        };
        let plan = plan_reads(&group, &routes, self.consumer_id.as_str(), limit, self.now);
        let gathered = Gathered::new(limit, self.max_bytes);
        LookStage::Read(Gathering { group, plan, at: 0, gathered })
    }

    /// Goes on when the shards have been read: what is there is to be claimed; if there is
    /// nothing, the consumer is told when to come again.
    pub fn on_gathered(&self, g: Gathering) -> (stage: LookStage)
        requires
            g.wf(),
        ensures
            ({
                let e = g.gathered.events.entries@;
                if exists|i: int| 0 <= i < e.len() && (#[trigger] e[i]).value.event_id@.len() != 16 {
                    stage matches LookStage::Done(Err(s)) && s@ == says(
                        Code::InvalidArgument,
                        "event_id"@ + " 必须是 16 字节 UUID"@,
                    )
                } else if e.len() == 0 {
                    stage matches LookStage::Done(Ok(r)) && r.deliveries@.len() == 0
                        && r.caught_up == (g.plan.next_retry is None) && !r.throttled
                        && r.retry_after_ms == (match g.plan.next_retry {
                        Some(t) => less_by(t, self.now),
                        None => 0,
                    })
                } else {
                    &&& stage matches LookStage::Claim { candidates, events, deadline_ms }
                    &&& events == g.gathered.events
                    &&& deadline_ms == capped_sum(self.now, g.group.settings.ack_timeout_ms)
                    &&& candidates@.len() == e.len()
                    &&& forall|i: int|
                        0 <= i < candidates@.len() ==> is_candidate(
                            #[trigger] candidates@[i],
                            e[i],
                            g.group.pending_retries@,
                        )
                }
            }),
    {
        let candidates = match candidates_of(&g.gathered.events, &g.group.pending_retries) {
            Ok(c) => c,
            Err(s) => return LookStage::Done(Err(s)),
        };
        if candidates.len() == 0 {
            return LookStage::Done(Ok(nothing_read(g.plan.next_retry, self.now)));
        }
        let deadline_ms: u64 = claim_deadline(self.now, g.group.settings.ack_timeout_ms);
        LookStage::Claim { candidates, events: g.gathered.events, deadline_ms }
    }

    /// Ends with what was claimed.
    pub fn on_claimed(
        events: VersionMap<Event>,
        answer: Result<GroupOutcome<Vec<Delivery>>, Status>,
        shown: &str,
    ) -> (stage: LookStage)
        requires
            events.wf(),
        ensures
            match answer {
                Err(s) => stage == LookStage::Done(Err(s)),
                Ok(outcome) => match write_fault(outcome, "Claim"@, shown@) {
                    Some(fault) => stage matches LookStage::Done(Err(s)) && s@ == fault,
                    None => {
                        let got = matched(events@, outcome->Done_0@);
                        &&& stage matches LookStage::Done(Ok(r))
                        &&& !r.caught_up && !r.throttled && r.retry_after_ms == 0
                        &&& r.deliveries@.len() == got.len()
                        &&& forall|i: int|
                            0 <= i < r.deliveries@.len() ==> delivers(
                                #[trigger] r.deliveries@[i],
                                got[i].0,
                                got[i].1,
                            )
                    },
                },
            },
    {
        let outcome = match answer {
            Ok(outcome) => outcome,
            Err(s) => return LookStage::Done(Err(s)),
        };
        match group_reply("Claim", outcome, shown) {
            Ok(claims) => LookStage::Done(Ok(claimed_reply(events, claims))),
            Err(s) => LookStage::Done(Err(s)),
        }
    }
}

impl Gathering {
    /// The next shard to read, of which the cursors stand in the plan, and how much of it;
    /// `None` if all have been read or there is no room.
    pub fn next(&self) -> (r: Option<ShardRead>)
        requires
            self.wf(),
        ensures
            if self.at == self.plan.requests@.len() || self.gathered.events.entries@.len()
                == self.gathered.max_events {
                r is None
            } else {
                r == Some(
                    ShardRead {
                        shard_id: self.plan.requests@[self.at as int].0,
                        max_events: (self.gathered.max_events
                            - self.gathered.events.entries@.len()) as u32,
                        max_bytes: less_by(self.gathered.max_bytes, self.gathered.used_bytes),
                    },
                )
            },
    {
        if self.at == self.plan.requests.len() {
            return None;
        }
        match self.gathered.room() {
            None => None,
            Some((max_events, max_bytes)) => Some(
                ShardRead { shard_id: self.plan.requests[self.at].0, max_events, max_bytes },
            ),
        }
    }

    /// Takes the events of the shard, each with its size.
    pub fn on_events(self, answer: Result<Vec<(Event, u64)>, Status>) -> (r: Result<
        Gathering,
        Status,
    >)
        requires
            self.wf(),
            self.at < self.plan.requests@.len(),
            self.gathered.events.entries@.len() < self.gathered.max_events,
        ensures
            match answer {
                Err(s) => r == Err::<Gathering, Status>(s),
                Ok(read) => {
                    let was = self.gathered;
                    &&& r matches Ok(g)
                    &&& g.wf()
                    &&& g.group == self.group && g.plan == self.plan && g.at == self.at + 1
                    &&& g.gathered.max_events == was.max_events && g.gathered.max_bytes
                        == was.max_bytes
                    &&& (
                        g.gathered.events@,
                        g.gathered.events.entries@.len(),
                        g.gathered.used_bytes,
                    ) == gather(
                        was.events@,
                        was.events.entries@.len(),
                        was.used_bytes,
                        read@,
                        was.max_events,
                        was.max_bytes,
                    )
                },
            },
    {
        let read = match answer {
            Ok(read) => read,
            Err(s) => return Err(s),
        };
        let total: usize = self.plan.requests.len();
        assert(self.at < total);
        let mut gathered = self.gathered;
        gathered.absorb(read);
        Ok(Gathering { group: self.group, plan: self.plan, at: self.at + 1, gathered })
    }
}


/// A look first has deliveries that ran out taken back, once; then it takes in the streams
/// that the group lacks; then it goes on to the ownership.
pub proof fn law_expired_deliveries_and_new_streams_come_first(
    look: Look,
    expired: bool,
    answer: Result<PersistentGroup, Status>,
    table: RouteTable,
    stage: LookStage,
)
    requires
        call_ensures(Look::on_group, (&look, expired, answer, &table), stage),
    ensures
        answer matches Err(s) ==> stage == LookStage::Done(Err(s)),
        answer matches Ok(group) ==> {
            let ran_out = exists|i: int|
                0 <= i < group.deliveries@.len() && (
                #[trigger] group.deliveries@[i]).deadline_ms <= look.now;
            &&& stage is Expire <==> !expired && ran_out
            &&& stage is Expire || stage is Heads || stage == (LookStage::Ownership { group })
            &&& stage matches LookStage::Heads { missing } ==> forall|x: Seq<char>| #[trigger]
                text_views(missing@).contains(x) <==> group.target is All
                    && table@.streams.dom().contains(x) && !group.progress@.dom().contains(x)
        },
{
}

/// A group of all streams lacks the streams that have an owner and that it has no progress
/// of; a stream was handed over where it is owned in a later generation than the group
/// knows of.
pub proof fn law_lacking_and_handed_over_streams(
    group: PersistentGroup,
    table: RouteTableView,
    x: Seq<char>,
)
    ensures
        is_missing(group, table, x) <==> group.target is All && table.streams.dom().contains(x)
            && !group.progress@.dom().contains(x),
        table.generations.dom().contains(x) && table.generations[x] >= 1 ==> (is_newer(
            group,
            table,
            x,
        ) <==> group.progress@.dom().contains(x) && table.streams.dom().contains(x)
            && group.progress@[x].ownership_generation < table.generations[x]),
{
}

/// Streams that were handed over since are reconciled before anything is read; where there
/// are none the look goes on with the routes of the table.
pub proof fn law_handed_over_streams_are_reconciled_first(
    group: PersistentGroup,
    table: RouteTable,
    stage: LookStage,
    x: Seq<char>,
)
    requires
        call_ensures(Look::on_table, (group, &table), stage),
        group.progress@.dom().contains(x),
        table@.streams.dom().contains(x),
        table@.generations.dom().contains(x),
        table@.generations[x] >= 1,
    ensures
        table@.generations[x] > group.progress@[x].ownership_generation ==> (stage matches LookStage::Reconcile {
            generations,
            routes,
        } && generations@.dom().contains(x) && generations@[x] == table@.generations[x]),
        stage matches LookStage::Reconcile { generations, routes } ==> routes@ == table@.streams
            && (generations@.dom().contains(x) ==> table@.generations[x]
            > group.progress@[x].ownership_generation),
        stage matches LookStage::Credit { group: g, routes } ==> g == group && routes@
            == table@.streams,
{
    if table@.generations[x] > group.progress@[x].ownership_generation {
        assert(is_newer(group, table@, x));
    }
}

/// A consumer with credit reads for what it asks, as far as its credit goes; one without
/// is held back.
pub proof fn law_credit_bounds_what_is_read(
    look: Look,
    group: PersistentGroup,
    routes: TextMap<u64>,
    credit: u32,
    stage: LookStage,
)
    requires
        call_ensures(Look::on_credit, (&look, group, routes, credit), stage),
    ensures
        credit == 0 ==> (stage matches LookStage::Done(Ok(r)) && r.throttled && !r.caught_up
            && r.deliveries@.len() == 0),
        credit > 0 ==> {
            &&& stage matches LookStage::Read(g)
            &&& g.group == group && g.at == 0
            &&& g.gathered.max_events <= credit && g.gathered.max_events <= look.max_events
            &&& g.gathered.max_events == credit || g.gathered.max_events == look.max_events
            &&& g.gathered.max_bytes == look.max_bytes
            &&& g.gathered.events.entries@.len() == 0 && g.gathered.used_bytes == 0
        },
{
}

/// A look that read nothing is answered at once; one that read something has it claimed,
/// every event of it, to be due a time-out from now.
pub proof fn law_what_was_read_is_claimed(look: Look, g: Gathering, stage: LookStage)
    requires
        call_ensures(Look::on_gathered, (&look, g), stage),
        forall|i: int|
            0 <= i < g.gathered.events.entries@.len() ==> (
            #[trigger] g.gathered.events.entries@[i]).value.event_id@.len() == 16,
    ensures
        g.gathered.events.entries@.len() == 0 ==> (stage matches LookStage::Done(Ok(r))
            && r.deliveries@.len() == 0 && (r.caught_up <==> g.plan.next_retry is None)
            && !r.throttled),
        g.gathered.events.entries@.len() > 0 ==> {
            &&& stage matches LookStage::Claim { candidates, events, deadline_ms }
            &&& events == g.gathered.events
            &&& candidates@.len() == g.gathered.events.entries@.len()
            &&& look.now + g.group.settings.ack_timeout_ms <= u64::MAX ==> deadline_ms == look.now
                + g.group.settings.ack_timeout_ms
            &&& forall|i: int|
                0 <= i < candidates@.len() ==> (#[trigger] candidates@[i]).stream_id@
                    == g.gathered.events.entries@[i].stream@ && candidates@[i].version
                    == g.gathered.events.entries@[i].version
        },
{
}

/// Shards are read one after the other, for what the look may still take, until it may
/// take no more; each shard is read once.
pub proof fn law_shards_are_read_in_turn(
    g: Gathering,
    r: Option<ShardRead>,
    answer: Result<Vec<(Event, u64)>, Status>,
    after: Result<Gathering, Status>,
)
    requires
        g.wf(),
        call_ensures(Gathering::next, (&g,), r),
        call_ensures(Gathering::on_events, (g, answer), after),
    ensures
        r is None <==> g.at == g.plan.requests@.len() || g.gathered.events.entries@.len()
            == g.gathered.max_events,
        r matches Some(ask) ==> {
            &&& ask.shard_id == g.plan.requests@[g.at as int].0
            &&& ask.max_events + g.gathered.events.entries@.len() == g.gathered.max_events
            &&& g.gathered.used_bytes <= g.gathered.max_bytes ==> ask.max_bytes
                + g.gathered.used_bytes == g.gathered.max_bytes
            &&& g.gathered.used_bytes > g.gathered.max_bytes ==> ask.max_bytes == 0
        },
        answer matches Err(s) ==> after == Err::<Gathering, Status>(s),
        answer is Ok ==> (after matches Ok(n) && n.at == g.at + 1 && n.plan == g.plan && n.group
            == g.group),
{
}

/// An outcome of the control shard is taken where it was done; a group that is gone is not
/// found, all else is the server's fault.
pub proof fn law_only_done_outcomes_are_taken<T>(
    outcome: GroupOutcome<T>,
    operation: Seq<char>,
    shown: Seq<char>,
)
    ensures
        write_fault(outcome, operation, shown) is None <==> outcome is Done,
        outcome is NotFound ==> (write_fault(outcome, operation, shown) matches Some(s) && s.code
            == Code::NotFound),
        !(outcome is Done) && !(outcome is NotFound) ==> (write_fault(outcome, operation, shown) matches Some(
            s,
        ) && s.code == Code::Internal),
{
}


/// A look at a group goes on with the group as the answer leaves it, and ends with the
/// first answer that fails.
pub proof fn law_look_ends_with_the_first_failure(
    expired: Result<(), Status>,
    after_expiry: LookStage,
    routes: TextMap<u64>,
    reconciled: Result<GroupOutcome<PersistentGroup>, Status>,
    shown: &str,
    after_handover: LookStage,
)
    requires
        call_ensures(Look::on_expired, (expired,), after_expiry),
        call_ensures(Look::on_reconciled, (routes, reconciled, shown), after_handover),
    ensures
        expired is Ok ==> after_expiry == (LookStage::ReadGroup { expired: true }),
        expired matches Err(s) ==> after_expiry == LookStage::Done(Err(s)),
        reconciled matches Err(s) ==> after_handover == LookStage::Done(Err(s)),
        reconciled matches Ok(GroupOutcome::Done(group)) ==> after_handover == (
        LookStage::Credit { group, routes }),
        reconciled matches Ok(GroupOutcome::NotFound) ==> (after_handover matches LookStage::Done(
            Err(s),
        ) && s@.code == Code::NotFound),
{
}


/// A look at a group of all streams goes on to the ownership only when the group lacks no
/// stream that has an owner.
pub proof fn law_new_streams_are_taken_in_before_the_look_goes_on(
    look: Look,
    expired: bool,
    group: PersistentGroup,
    table: RouteTable,
    stage: LookStage,
    x: Seq<char>,
)
    requires
        call_ensures(
            Look::on_group,
            (&look, expired, Ok::<PersistentGroup, Status>(group), &table),
            stage,
        ),
        group.target is All,
        table@.streams.dom().contains(x),
        !group.progress@.dom().contains(x),
    ensures
        stage is Expire || (stage matches LookStage::Heads { missing } && text_views(
            missing@,
        ).contains(x)),
{
    assert(!lacks_none(group, table@));
}


/// Streams that are new to the group begin at their beginning, each of them and no others.
pub proof fn law_new_streams_begin_at_their_beginning(
    answer: Result<TextMap<(u64, u64)>, Status>,
    stage: LookStage,
    x: Seq<char>,
)
    requires
        call_ensures(Look::on_heads, (answer,), stage),
    ensures
        answer matches Err(s) ==> stage == LookStage::Done(Err(s)),
        answer matches Ok(heads) ==> {
            &&& stage matches LookStage::EnsureStreams { streams }
            &&& streams@.dom().contains(x) <==> heads@.dom().contains(x)
        },
{
}

} // verus!
