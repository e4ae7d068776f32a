//! A consumer's requests to its group, which go round the partitions one by one: fetching
//! events, and settling or renewing deliveries.

use vstd::prelude::*;

use crate::aggregate_delivery::{
    AggregateGroupDelivery, DeliveryRequest, GroupFetch, GroupFetchLimits, GroupSettlementResult,
    LiveDelivery, NamedDelivery, PartitionFetch, PartitionOutput, SettlementAnswer, answer_place,
    by_partition, bytes_after, delivery_place, fenced_reply, finish_results, is_result,
    is_stale_result, law_every_delivery_is_accounted_for,
    law_named_deliveries_of_the_epoch_are_asked_about,
    law_partition_begins_at_the_groups_start, law_partition_is_scanned_from_where_the_group_is,
    lemma_live_below, live_in, live_of, map_group_settlement_response, name_reading, note_results,
    open_group_partition, plan_partition_fetch, shows_delivery, sort_deliveries, stop_reply,
    stops_at, PartitionState, PartitionStep,
};
use crate::aggregate_groups::AggregateGroupDefinition;
use crate::aggregate_tokens::{AggregateTypeId, DeliveryToken, Reading, decode_delivery_token};
use crate::aggregate_types::{AggregateTypeDefinition, Placement};
use crate::order::lists;
use crate::persistent_service::SettlementStatus;
use crate::status::{Code, Status, StatusView, says};

verus! {

/// How long a fetch sleeps between two rounds.
pub const FETCH_PAUSE_MS: u64 = 20;

/// Every partition of the type has a position where the group began.
pub open spec fn has_all_starts(d: AggregateTypeDefinition, g: AggregateGroupDefinition) -> bool {
    g.partition_starts.wf() && forall|k: u64| #[trigger]
        d.placements@.dom().contains(k) ==> g.partition_starts@.dom().contains(k)
}

/// A round of a fetch: what it has, and which partition comes next.
#[derive(Debug)]
pub struct FetchRound {
    pub fetch: GroupFetch,
    pub at: usize,
}

/// What a round does next.
#[derive(Debug)]
pub enum FetchStep {
    /// Ask a partition, at its shard and in its generation.
    Ask { partition_id: u16, place: Placement, input: PartitionFetch },
    /// Nothing: the partitions are through, or the fetch is full.
    Over,
}

/// What a round came to.
#[derive(Debug)]
pub enum RoundEnd {
    Answer(FetchGroupResponse),
    /// Sleep, then begin another round.
    Again { pause_ms: u64 },
}

/// The answer to a fetch.
#[derive(Debug)]
pub struct FetchGroupResponse {
    pub deliveries: Vec<AggregateGroupDelivery>,
    pub caught_up: bool,
    pub throttled: bool,
}

/// The fetch takes no more.
pub open spec fn is_full(f: GroupFetch) -> bool {
    f.deliveries@.len() >= f.max_events || f.used_bytes >= f.max_bytes
}

/// What is asked of a partition.
pub open spec fn partition_input(
    f: GroupFetch,
    group: AggregateGroupDefinition,
    partition: u64,
    now_ms: u64,
) -> PartitionFetch {
    PartitionFetch {
        group_epoch: group.epoch,
        start_position: group.partition_starts@[partition],
        ack_timeout_ms: group.settings.ack_timeout_ms,
        now_ms,
        max_events: (f.max_events - f.deliveries@.len()) as u32,
        max_bytes: (f.max_bytes - f.used_bytes) as u64,
    }
}

impl FetchRound {
    /// The beginning of a round.
    pub fn begin(limits: &GroupFetchLimits) -> (r: FetchRound)
        ensures
            r.at == 0,
            r.fetch.max_events == limits.max_events,
            r.fetch.max_bytes == limits.max_bytes,
            r.fetch.deliveries@.len() == 0,
            r.fetch.used_bytes == 0,
            r.fetch.caught_up,
            !r.fetch.throttled,
    {
        FetchRound { fetch: GroupFetch::new(limits), at: 0 }
    }

    /// Says what comes next.  A round that ends because the fetch is full has not caught
    /// up.
    pub fn next(
        &mut self,
        definition: &AggregateTypeDefinition,
        group: &AggregateGroupDefinition,
        now_ms: u64,
    ) -> (step: FetchStep)
        requires
            definition.wf(),
            has_all_starts(*definition, *group),
        ensures
            final(self).at == old(self).at,
            final(self).fetch.max_events == old(self).fetch.max_events,
            final(self).fetch.max_bytes == old(self).fetch.max_bytes,
            final(self).fetch.deliveries == old(self).fetch.deliveries,
            final(self).fetch.used_bytes == old(self).fetch.used_bytes,
            final(self).fetch.throttled == old(self).fetch.throttled,
            ({
                let e = definition.placements.entries@;
                let through = old(self).at >= e.len();
                &&& final(self).fetch.caught_up == (old(self).fetch.caught_up && (through
                    || !is_full(old(self).fetch)))
                &&& if through || is_full(old(self).fetch) {
                    step is Over
                } else {
                    step == (FetchStep::Ask {
                        partition_id: e[old(self).at as int].0 as u16,
                        place: e[old(self).at as int].1,
                        input: partition_input(
                            old(self).fetch,
                            *group,
                            e[old(self).at as int].0,
                            now_ms,
                        ),
                    })
                }
            }),
    {
        if self.at >= definition.placements.entries.len() {
            return FetchStep::Over;
        }
        let (max_events, max_bytes) = match self.fetch.room() {
            Some(room) => room,
            None => return FetchStep::Over,
        };
        let entry = &definition.placements.entries[self.at];
        proof {
            definition.placements.lemma_entry(self.at as int);
            assert(definition.placements.key(self.at as int) == entry.0);
            assert(group.partition_starts@.dom().contains(entry.0));
        }
        let start_position: u64 = match group.partition_starts.get(entry.0) {
            Some(p) => *p,
            None => 0,
        };
        FetchStep::Ask {
            partition_id: entry.0 as u16,
            place: entry.1,
            input: PartitionFetch {
                group_epoch: group.epoch,
                start_position,
                ack_timeout_ms: group.settings.ack_timeout_ms,
                now_ms,
                max_events,
                max_bytes,
            },
        }
    }

    /// Takes what the partition gave and goes on to the next; a partition that fails
    /// fails the fetch.
    ///
    /// As long as no partition gives more than it was asked for, a fetch has no more than
    /// was asked for.
    pub fn on_output(
        self,
        group: &AggregateGroupDefinition,
        partition_id: u16,
        answer: Result<PartitionOutput, Status>,
    ) -> (r: Result<FetchRound, Status>)
        requires
            self.at < usize::MAX,
        ensures
            match answer {
                Err(s) => r == Err::<FetchRound, Status>(s),
                Ok(output) => {
                    let before = self.fetch;
                    &&& r matches Ok(n)
                    &&& n.at == self.at + 1
                    &&& n.fetch.max_events == before.max_events
                    &&& n.fetch.max_bytes == before.max_bytes
                    &&& n.fetch.caught_up == (before.caught_up && output.caught_up)
                    &&& n.fetch.throttled == (before.throttled || output.throttled)
                    &&& n.fetch.used_bytes == bytes_after(before.used_bytes, output.deliveries@)
                    &&& n.fetch.deliveries@.len() == before.deliveries@.len()
                        + output.deliveries@.len()
                    &&& forall|i: int|
                        0 <= i < before.deliveries@.len() ==> #[trigger] n.fetch.deliveries@[i]
                            == before.deliveries@[i]
                    &&& forall|i: int|
                        0 <= i < output.deliveries@.len() ==> shows_delivery(
                            #[trigger] n.fetch.deliveries@[before.deliveries@.len() + i],
                            *group,
                            partition_id,
                            output.deliveries@[i],
                        )
                    &&& before.deliveries@.len() + output.deliveries@.len() <= before.max_events
                        ==> n.fetch.deliveries@.len() <= n.fetch.max_events
                },
            },
    {
        let output = match answer {
            Ok(output) => output,
            Err(s) => return Err(s),
        };
        let mut fetch = self.fetch;
        match fetch.absorb(group, partition_id, output) {
            Ok(_) => Ok(FetchRound { fetch, at: self.at + 1 }),
            Err(s) => Err(s),
        }
    }

    /// Ends a round: the fetch is answered if it has something to deliver, has to hold
    /// back, has caught up, or does not wait any longer.
    pub fn end(self, wait_ms: u64, waited_long_enough: bool) -> (e: RoundEnd)
        ensures
            e == (if self.fetch.deliveries@.len() > 0 || self.fetch.throttled
                || self.fetch.caught_up || wait_ms == 0 || waited_long_enough {
                RoundEnd::Answer(
                    FetchGroupResponse {
                        deliveries: self.fetch.deliveries,
                        caught_up: self.fetch.caught_up,
                        throttled: self.fetch.throttled,
                    },
                )
            } else {
                RoundEnd::Again { pause_ms: FETCH_PAUSE_MS }
            }),
    {
        if self.fetch.is_done(wait_ms, waited_long_enough) {
            RoundEnd::Answer(
                FetchGroupResponse {
                    deliveries: self.fetch.deliveries,
                    caught_up: self.fetch.caught_up,
                    throttled: self.fetch.throttled,
                },
            )
        } else {
            RoundEnd::Again { pause_ms: FETCH_PAUSE_MS }
        }
    }
}

/// A request about deliveries on its way round the partitions.
#[derive(Debug)]
pub struct Settling {
    pub named: Vec<NamedDelivery>,
    /// The deliveries to ask about, by partition.
    pub groups: Vec<(u64, Vec<LiveDelivery>)>,
    pub results: Vec<Option<GroupSettlementResult>>,
    /// The partition that comes next.
    pub at: usize,
}

/// A partition to ask.
#[derive(Clone, Copy, Debug, PartialEq, Eq, Structural)]
pub struct SettleAsk {
    pub partition_id: u64,
    pub place: Placement,
    pub start_position: u64,
}

/// One of the deliveries of the partitions from `at` on is number `i` of the request.
pub open spec fn is_asked(groups: Seq<(u64, Vec<LiveDelivery>)>, at: int, i: int) -> bool {
    exists|g: int, k: int|
        at <= g < groups.len() && 0 <= k < (#[trigger] groups[g]).1@.len() && (
        #[trigger] groups[g].1@[k]).index == i
}

/// The answer to settlements and renewals is an error.
pub open spec fn settle_fault(
    answer: SettlementAnswer,
    renew: bool,
    shown: Seq<char>,
) -> Option<StatusView> {
    match answer {
        SettlementAnswer::Settled(_) if !renew => None,
        SettlementAnswer::Renewed(_) if renew => None,
        SettlementAnswer::StaleEpoch { .. } => Some(
            says(Code::FailedPrecondition, "消费者组 epoch 已过期"@),
        ),
        SettlementAnswer::Fenced { current_generation } => Some(fenced_reply(current_generation)),
        SettlementAnswer::Invalid { reason } => Some(says(Code::InvalidArgument, reason@)),
        _ => Some(says(Code::Internal, "消费者组结算返回意外结果: "@ + shown)),
    }
}

/// What became of the deliveries, where that is the answer.
pub open spec fn statuses_of(answer: SettlementAnswer) -> Seq<SettlementStatus> {
    match answer {
        SettlementAnswer::Settled(v) => v@,
        SettlementAnswer::Renewed(v) => v@,
        _ => Seq::empty(),
    }
}

/// `now` is `was` with what a partition says of its deliveries.
pub open spec fn noted(
    was: Seq<Option<GroupSettlementResult>>,
    now: Seq<Option<GroupSettlementResult>>,
    named: Seq<NamedDelivery>,
    asked: Seq<LiveDelivery>,
    statuses: Seq<SettlementStatus>,
    renewed: Option<u64>,
) -> bool {
    &&& now.len() == was.len()
    &&& forall|i: int|
        0 <= i < named.len() ==> match answer_place(asked, asked.len() as int, i) {
            Some(k) => is_result(#[trigger] now[i], named[i], statuses[k], renewed),
            None => now[i] == was[i],
        }
}

impl Settling {
    /// Each delivery has its result, under its name, or is still to be asked about.
    pub open spec fn wf(&self) -> bool {
        &&& self.results@.len() == self.named@.len()
        &&& self.at <= self.groups@.len()
        &&& forall|g: int, k: int|
            0 <= g < self.groups@.len() && 0 <= k < (#[trigger] self.groups@[g]).1@.len() ==> (
            #[trigger] self.groups@[g].1@[k]).index < self.named@.len()
        &&& forall|i: int|
            0 <= i < self.named@.len() ==> match #[trigger] self.results@[i] {
                Some(x) => x.delivery_id@ == self.named@[i].delivery_id@,
                None => is_asked(self.groups@, self.at as int, i),
            }
    }

    /// Begins a request about deliveries: those of another epoch are stale at once, the
    /// others go to their partitions.
    pub fn begin(
        named: Vec<NamedDelivery>,
        aggregate_type: &AggregateTypeId,
        group_name: &str,
        epoch: u64,
    ) -> (r: Result<Settling, Status>)
        ensures
            match r {
                Ok(s) => {
                    let live = live_of(named@, aggregate_type@, group_name@, epoch);
                    &&& s.wf() && s.at == 0 && s.named == named
                    &&& forall|i: int|
                        0 <= i < named@.len() ==> !stops_at(
                            #[trigger] named@[i],
                            aggregate_type@,
                            group_name@,
                            epoch,
                        )
                    &&& lists(
                        s.groups@.map_values(|g: (u64, Vec<LiveDelivery>)| g.0),
                        live.map_values(|d: LiveDelivery| d.partition_id as u64).to_set(),
                    )
                    &&& forall|g: int|
                        0 <= g < s.groups@.len() ==> (#[trigger] s.groups@[g]).1@ == live_in(
                            live,
                            s.groups@[g].0,
                        )
                    &&& forall|i: int|
                        0 <= i < named@.len() ==> if (name_reading(
                            (#[trigger] named@[i]).delivery_id@,
                            aggregate_type@,
                            group_name@,
                        ) matches Reading::Reads(t) && t.epoch == epoch) {
                            s.results@[i] is None
                        } else {
                            is_stale_result(s.results@[i], named@[i])
                        }
                },
                Err(s) => exists|i: int|
                    0 <= i < named@.len() && stops_at(
                        #[trigger] named@[i],
                        aggregate_type@,
                        group_name@,
                        epoch,
                    ) && stop_reply(s, named@[i], aggregate_type@, group_name@) && forall|j: int|
                        0 <= j < i ==> !stops_at(
                            #[trigger] named@[j],
                            aggregate_type@,
                            group_name@,
                            epoch,
                        ),
            },
    {
        let q: DeliveryRequest = match sort_deliveries(&named, aggregate_type, group_name, epoch) {
            Ok(q) => q,
            Err(s) => return Err(s),
        };
        let total: usize = named.len();
        let groups = by_partition(&q.live);
        let s = Settling { named, groups, results: q.results, at: 0 };
        proof {
            let id = aggregate_type@;
            let live = live_of(s.named@, id, group_name@, epoch);
            assert(s.named@.len() == total);
            lemma_live_below(s.named@, id, group_name@, epoch);
            assert forall|g: int, k: int|
                0 <= g < s.groups@.len() && 0 <= k < (#[trigger] s.groups@[g]).1@.len() implies (
            #[trigger] s.groups@[g].1@[k]).index < s.named@.len() by {
                let d = s.groups@[g].1@[k];
                lemma_filter_from(live, s.groups@[g].0, k);
                let m = choose|m: int| 0 <= m < live.len() && live[m] == d;
                assert(live[m].index < s.named@.len());
            }
            assert forall|i: int| 0 <= i < s.named@.len() implies match #[trigger] s.results@[i] {
                Some(x) => x.delivery_id@ == s.named@[i].delivery_id@,
                None => is_asked(s.groups@, 0, i),
            } by {
                assert(!stops_at(s.named@[i], id, group_name@, epoch));
                if s.results@[i] is None {
                    law_every_delivery_is_accounted_for(s.named@, id, group_name@, epoch, i);
                    let m = choose|m: int| 0 <= m < live.len() && (#[trigger] live[m]).index == i;
                    lemma_in_its_group(live, s.groups@, m);
                }
            }
        }
        Ok(s)
    }

    /// Says which partition is asked next; `None` if all have been.  The deliveries that it
    /// is asked about stand in `groups`.
    pub fn next(&self, definition: &AggregateTypeDefinition, group: &AggregateGroupDefinition) -> (r:
        Result<Option<SettleAsk>, Status>)
        requires
            self.wf(),
            definition.wf(),
            has_all_starts(*definition, *group),
        ensures
            if self.at == self.groups@.len() {
                r == Ok::<Option<SettleAsk>, Status>(None)
            } else {
                let partition = self.groups@[self.at as int].0;
                if definition.placements@.dom().contains(partition) {
                    r == Ok::<Option<SettleAsk>, Status>(
                        Some(
                            SettleAsk {
                                partition_id: partition,
                                place: definition.placements@[partition],
                                start_position: group.partition_starts@[partition],
                            },
                        ),
                    )
                } else {
                    r matches Err(s) && s@ == says(
                        Code::InvalidArgument,
                        "delivery token partition 非法"@,
                    )
                }
            },
    {
        if self.at == self.groups.len() {
            return Ok(None);
        }
        let partition_id: u64 = self.groups[self.at].0;
        let place = match delivery_place(definition, partition_id) {
            Ok(place) => place,
            Err(s) => return Err(s),
        };
        let start_position: u64 = match group.partition_starts.get(partition_id) {
            Some(p) => *p,
            None => 0,
        };
        Ok(Some(SettleAsk { partition_id, place, start_position }))
    }

    /// Takes what the partition answered and goes on to the next; `renewed` is the new
    /// deadline where the deliveries are renewed.  A partition says of every delivery what
    /// became of it.
    pub fn on_answer(
        self,
        answer: Result<SettlementAnswer, Status>,
        renewed: Option<u64>,
        shown: &str,
    ) -> (r: Result<Settling, Status>)
        requires
            self.wf(),
            self.at < self.groups@.len(),
            answer matches Ok(a) ==> (settle_fault(a, renewed is Some, shown@) is None
                ==> statuses_of(a).len() >= self.groups@[self.at as int].1@.len()),
        ensures
            match answer {
                Err(s) => r == Err::<Settling, Status>(s),
                Ok(a) => match settle_fault(a, renewed is Some, shown@) {
                    Some(fault) => r matches Err(s) && s@ == fault,
                    None => {
                        &&& r matches Ok(n)
                        &&& n.wf()
                        &&& n.at == self.at + 1
                        &&& n.named == self.named
                        &&& n.groups == self.groups
                        &&& noted(
                            self.results@,
                            n.results@,
                            self.named@,
                            self.groups@[self.at as int].1@,
                            statuses_of(a),
                            renewed,
                        )
                    },
                },
            },
    {
        let a = match answer {
            Ok(a) => a,
            Err(s) => return Err(s),
        };
        let ghost told = statuses_of(a);
        let statuses = match map_group_settlement_response(a, renewed.is_some(), shown) {
            Ok(v) => v,
            Err(s) => return Err(s),
        };
        assert(statuses@ == told);
        let ghost before = self;
        let mut results = self.results;
        let at: usize = self.at;
        let total: usize = self.groups.len();
        assert(at < total);
        let ghost asked = self.groups@[at as int].1@;
        proof {
            assert forall|i: int| 0 <= i < asked.len() implies (#[trigger] asked[i]).index
                < self.named@.len() by {
                assert(self.groups@[at as int].1@[i].index < self.named@.len());
            }
        }
        note_results(&mut results, &self.named, &self.groups[at].1, &statuses, renewed);
        let n = Settling { named: self.named, groups: self.groups, results, at: at + 1 };
        proof {
            assert forall|i: int| 0 <= i < n.named@.len() implies match #[trigger] n.results@[i] {
                Some(x) => x.delivery_id@ == n.named@[i].delivery_id@,
                None => is_asked(n.groups@, at + 1, i),
            } by {
                assert(match before.results@[i] {
                    Some(x) => x.delivery_id@ == before.named@[i].delivery_id@,
                    None => is_asked(before.groups@, at as int, i),
                });
                match answer_place(asked, asked.len() as int, i) {
                    Some(k) => {
                        assert(is_result(n.results@[i], n.named@[i], statuses@[k], renewed));
                    },
                    None => {
                        assert(n.results@[i] == before.results@[i]);
                        if n.results@[i] is None {
                            let (g, k) = choose|g: int, k: int|
                                at <= g < before.groups@.len() && 0 <= k < (
                                #[trigger] before.groups@[g]).1@.len() && (
                                #[trigger] before.groups@[g].1@[k]).index == i;
                            if g == at {
                                lemma_answer_place(asked, asked.len() as int, k);
                            }
                            assert(n.groups@[g].1@[k].index == i);
                        }
                    },
                }
            }
        }
        Ok(n)
    }

    /// The results, one for each delivery of the request and in its order.
    pub fn finish(self) -> (out: Vec<GroupSettlementResult>)
        requires
            self.wf(),
            self.at == self.groups@.len(),
        ensures
            out@.len() == self.named@.len(),
            forall|i: int|
                0 <= i < out@.len() ==> Some(#[trigger] out@[i]) == self.results@[i]
                    && out@[i].delivery_id@ == self.named@[i].delivery_id@,
    {
        proof {
            assert forall|i: int| 0 <= i < self.results@.len() implies (
            #[trigger] self.results@[i]) is Some by {
                if self.results@[i] is None {
                    assert(is_asked(self.groups@, self.at as int, i));
                }
            }
        }
        let ghost results = self.results@;
        let out = finish_results(self.results);
        proof {
            assert forall|i: int| 0 <= i < out@.len() implies Some(#[trigger] out@[i])
                == self.results@[i] && out@[i].delivery_id@ == self.named@[i].delivery_id@ by {
                assert(Some(out@[i]) == results[i]);
                assert(match self.results@[i] {
                    Some(x) => x.delivery_id@ == self.named@[i].delivery_id@,
                    None => is_asked(self.groups@, self.at as int, i),
                });
            }
        }
        out
    }
}

/// What a partition is asked about stands among all deliveries.
proof fn lemma_filter_from(live: Seq<LiveDelivery>, partition: u64, k: int)
    requires
        0 <= k < live_in(live, partition).len(),
    ensures
        exists|m: int| 0 <= m < live.len() && live[m] == live_in(live, partition)[k],
    decreases live.len(),
{
    reveal(Seq::filter);
    if live.len() > 0 {
        let rest = live.drop_last();
        let f = |d: LiveDelivery| d.partition_id == partition;
        if k < live_in(rest, partition).len() {
            lemma_filter_from(rest, partition, k);
            let m = choose|m: int| 0 <= m < rest.len() && rest[m] == live_in(rest, partition)[k];
            assert(live[m] == live_in(live, partition)[k]);
        } else {
            assert(live[live.len() - 1] == live_in(live, partition)[k]);
        }
    }
}

/// What stands among all deliveries is what its partition is asked about.
proof fn lemma_filter_to(live: Seq<LiveDelivery>, m: int)
    requires
        0 <= m < live.len(),
    ensures
        live_in(live, live[m].partition_id as u64).contains(live[m]),
    decreases live.len(),
{
    reveal(Seq::filter);
    let partition = live[m].partition_id as u64;
    let rest = live.drop_last();
    let all = live_in(live, partition);
    let before = live_in(rest, partition);
    if m < live.len() - 1 {
        lemma_filter_to(rest, m);
        let k = choose|k: int| 0 <= k < before.len() && before[k] == live[m];
        assert(all[k] == live[m]);
    } else {
        assert(all == before.push(live[m]));
        assert(all[before.len() as int] == live[m]);
    }
}

proof fn lemma_in_its_group(
    live: Seq<LiveDelivery>,
    groups: Seq<(u64, Vec<LiveDelivery>)>,
    m: int,
)
    requires
        0 <= m < live.len(),
        lists(
            groups.map_values(|g: (u64, Vec<LiveDelivery>)| g.0),
            live.map_values(|d: LiveDelivery| d.partition_id as u64).to_set(),
        ),
        forall|g: int|
            0 <= g < groups.len() ==> (#[trigger] groups[g]).1@ == live_in(live, groups[g].0),
    ensures
        is_asked(groups, 0, live[m].index as int),
{
    let partition = live[m].partition_id as u64;
    let ids = live.map_values(|d: LiveDelivery| d.partition_id as u64);
    let keys = groups.map_values(|g: (u64, Vec<LiveDelivery>)| g.0);
    assert(ids[m] == partition);
    assert(ids.contains(partition));
    assert(ids.to_set().contains(partition));
    assert(keys.contains(partition));
    let g = choose|g: int| 0 <= g < keys.len() && keys[g] == partition;
    assert(groups[g].0 == partition);
    lemma_filter_to(live, m);
    let k = choose|k: int|
        0 <= k < live_in(live, partition).len() && live_in(live, partition)[k] == live[m];
    assert(groups[g].1@[k].index == live[m].index);
}

/// A delivery that was asked about has its answer.
proof fn lemma_answer_place(asked: Seq<LiveDelivery>, n: int, k: int)
    requires
        0 <= k < n <= asked.len(),
    ensures
        answer_place(asked, n, asked[k].index as int) is Some,
    decreases n,
{
    if asked[n - 1].index != asked[k].index {
        lemma_answer_place(asked, n - 1, k);
    }
}


/// Every partition that a fetch asks is asked with exactly the position that was recorded
/// for it when the group was created, under the group's epoch, for what the fetch may
/// still take.  Partitions are asked in turn until the fetch is full.
pub proof fn law_partitions_are_asked_from_their_recorded_start(
    this: &mut FetchRound,
    definition: AggregateTypeDefinition,
    group: AggregateGroupDefinition,
    now_ms: u64,
    step: FetchStep,
)
    requires
        definition.wf(),
        call_ensures(FetchRound::next, (this, &definition, &group, now_ms), step),
    ensures
        ({
            let e = definition.placements.entries@;
            let f = old(this).fetch;
            let at = old(this).at as int;
            let room = f.deliveries@.len() < f.max_events && f.used_bytes < f.max_bytes;
            match step {
                FetchStep::Over => at >= e.len() || !room,
                FetchStep::Ask { partition_id, place, input } => {
                    &&& at < e.len() && room
                    &&& partition_id == e[at].0 && place == e[at].1
                    &&& input.start_position == group.partition_starts@[partition_id as u64]
                    &&& input.group_epoch == group.epoch
                    &&& input.ack_timeout_ms == group.settings.ack_timeout_ms
                    &&& input.now_ms == now_ms
                    &&& input.max_events == f.max_events - f.deliveries@.len()
                    &&& input.max_bytes == f.max_bytes - f.used_bytes
                },
            }
        }),
        final(this).fetch.deliveries@ == old(this).fetch.deliveries@ && final(this).at
            == old(this).at,
        final(this).fetch.caught_up <==> old(this).fetch.caught_up && (step is Ask || old(this).at as int >= definition.placements.entries@.len()),
{
    let e = definition.placements.entries@;
    if (old(this).at as int) < e.len() {
        definition.placements.lemma_entry(old(this).at as int);
        assert(definition.placements@.dom().contains(e[old(this).at as int].0));
    }
}

/// A group that has not looked at a partition yet, in its epoch, has it scanned from the
/// position that was recorded for it and is never given an event before that one.
pub proof fn law_no_event_before_the_start_is_delivered(
    this: &mut FetchRound,
    definition: AggregateTypeDefinition,
    group: AggregateGroupDefinition,
    now_ms: u64,
    partition_id: u16,
    place: Placement,
    input: PartitionFetch,
    found: Option<PartitionState>,
    state: PartitionState,
    head: u64,
    credit: u32,
    from: u64,
    limit: u64,
)
    requires
        definition.wf(),
        call_ensures(
            FetchRound::next,
            (this, &definition, &group, now_ms),
            FetchStep::Ask { partition_id, place, input },
        ),
        found matches Some(f) ==> f.epoch < group.epoch,
        call_ensures(open_group_partition, (found, &input), Ok::<PartitionState, Status>(state)),
        call_ensures(
            plan_partition_fetch,
            (&state, head, credit, input.max_events),
            PartitionStep::Scan { from, limit },
        ),
    ensures
        from == group.partition_starts@[partition_id as u64],
        from < head,
{
    let step = FetchStep::Ask { partition_id, place, input };
    law_partitions_are_asked_from_their_recorded_start(this, definition, group, now_ms, step);
    law_partition_begins_at_the_groups_start(found, input, Ok::<PartitionState, Status>(state));
    law_partition_is_scanned_from_where_the_group_is(
        state,
        head,
        credit,
        input.max_events,
        PartitionStep::Scan { from, limit },
    );
}

/// A round that found something, was held back, has nothing left to find, or may wait no
/// longer is the answer; any other is tried again after a pause.
pub proof fn law_round_ends_or_is_tried_again(
    round: FetchRound,
    wait_ms: u64,
    waited_long_enough: bool,
    e: RoundEnd,
)
    requires
        call_ensures(FetchRound::end, (round, wait_ms, waited_long_enough), e),
    ensures
        match e {
            RoundEnd::Answer(a) => {
                &&& round.fetch.deliveries@.len() > 0 || round.fetch.throttled
                    || round.fetch.caught_up || wait_ms == 0 || waited_long_enough
                &&& a.deliveries@ == round.fetch.deliveries@
                &&& a.caught_up == round.fetch.caught_up && a.throttled == round.fetch.throttled
            },
            RoundEnd::Again { pause_ms } => {
                &&& round.fetch.deliveries@.len() == 0 && !round.fetch.throttled
                    && !round.fetch.caught_up && wait_ms > 0 && !waited_long_enough
                &&& pause_ms == 20
            },
        },
{
}

/// A settlement asks each partition in turn, where it is placed and from the position that
/// was recorded for it; a partition that the type does not have is refused.
pub proof fn law_settlement_asks_where_the_partition_is(
    s: Settling,
    definition: AggregateTypeDefinition,
    group: AggregateGroupDefinition,
    r: Result<Option<SettleAsk>, Status>,
)
    requires
        call_ensures(Settling::next, (&s, &definition, &group), r),
        s.at <= s.groups@.len(),
    ensures
        s.at == s.groups@.len() <==> r == Ok::<Option<SettleAsk>, Status>(None),
        r matches Ok(Some(ask)) ==> {
            let p = s.groups@[s.at as int].0;
            &&& ask.partition_id == p
            &&& definition.placements@.dom().contains(p) && ask.place
                == definition.placements@[p]
            &&& ask.start_position == group.partition_starts@[p]
        },
        r matches Err(e) ==> e@.code == Code::InvalidArgument
            && !definition.placements@.dom().contains(s.groups@[s.at as int].0),
{
}

/// A partition's answer is taken only if it is of the kind that was asked for.
pub proof fn law_answer_of_the_other_kind_is_refused(
    a: SettlementAnswer,
    renew: bool,
    shown: Seq<char>,
)
    ensures
        settle_fault(a, renew, shown) is None <==> (a is Settled && !renew) || (a is Renewed
            && renew),
        settle_fault(a, renew, shown) matches Some(s) ==> s.code == (match a {
            SettlementAnswer::StaleEpoch { .. } => Code::FailedPrecondition,
            SettlementAnswer::Fenced { .. } => Code::Unavailable,
            SettlementAnswer::Invalid { .. } => Code::InvalidArgument,
            _ => Code::Internal,
        }),
        a matches SettlementAnswer::Invalid { reason } ==> (settle_fault(a, renew, shown) matches Some(
            s,
        ) && s.message == reason@),
        a matches SettlementAnswer::Settled(v) ==> statuses_of(a) == v@,
        a matches SettlementAnswer::Renewed(v) ==> statuses_of(a) == v@,
{
}


/// A round goes on with the next partition and holds what it had and what this partition
/// gave, in that order; it is caught up only if every partition was.
pub proof fn law_round_takes_in_the_partitions_answer(
    round: FetchRound,
    group: AggregateGroupDefinition,
    partition_id: u16,
    answer: Result<PartitionOutput, Status>,
    r: Result<FetchRound, Status>,
    i: int,
)
    requires
        call_ensures(FetchRound::on_output, (round, &group, partition_id, answer), r),
    ensures
        r is Ok <==> answer is Ok,
        answer matches Err(s) ==> r == Err::<FetchRound, Status>(s),
        answer matches Ok(output) ==> (r matches Ok(n) && {
            &&& n.at == round.at + 1
            &&& n.fetch.deliveries@.len() == round.fetch.deliveries@.len()
                + output.deliveries@.len()
            &&& 0 <= i < round.fetch.deliveries@.len() ==> n.fetch.deliveries@[i]
                == round.fetch.deliveries@[i]
            &&& n.fetch.caught_up <==> round.fetch.caught_up && output.caught_up
            &&& n.fetch.throttled <==> round.fetch.throttled || output.throttled
            &&& 0 <= i < output.deliveries@.len() ==> {
                let d = n.fetch.deliveries@[round.fetch.deliveries@.len() + i];
                let (claim, e) = output.deliveries@[i];
                &&& d.attempt == claim.attempt && d.deadline_ms == claim.deadline_ms && d.replayed
                    == claim.replayed
                &&& d.event.aggregate_id@ == e.aggregate_id@ && d.event.aggregate_version
                    == e.aggregate_version && d.event.data@ == e.data@ && d.event.metadata@
                    == e.metadata@
            }
        }),
{
    if let Ok(output) = answer {
        if 0 <= i < output.deliveries@.len() {
            let n = r->Ok_0;
            assert(shows_delivery(
                n.fetch.deliveries@[round.fetch.deliveries@.len() + i],
                group,
                partition_id,
                output.deliveries@[i],
            ));
        }
    }
}

/// Every delivery named in a request gets its result, in the order of the request.
pub proof fn law_every_named_delivery_gets_its_result(
    round: Settling,
    out: Vec<GroupSettlementResult>,
    i: int,
)
    requires
        call_ensures(Settling::finish, (round,), out),
        0 <= i < round.named@.len(),
    ensures
        out@.len() == round.named@.len(),
        out@[i].delivery_id@ == round.named@[i].delivery_id@,
        round.results@[i] == Some(out@[i]),
{
}


/// A delivery of an older epoch is answered at once, as a lease that is stale; every other
/// one waits for its partition.  A name that cannot be read refuses the request.
pub proof fn law_stale_deliveries_are_answered_at_once(
    named: Vec<NamedDelivery>,
    aggregate_type: AggregateTypeId,
    group_name: &str,
    epoch: u64,
    s: Settling,
    i: int,
    t: Result<DeliveryToken, Status>,
)
    requires
        call_ensures(
            Settling::begin,
            (named, &aggregate_type, group_name, epoch),
            Ok::<Settling, Status>(s),
        ),
        0 <= i < named@.len(),
        call_ensures(
            decode_delivery_token,
            (&named@[i].delivery_id, &aggregate_type, group_name),
            t,
        ),
    ensures
        s.at == 0 && s.named == named,
        t matches Ok(token) && {
            &&& token.group_epoch == epoch ==> s.results@[i] is None && named@[i].acceptable
            &&& token.group_epoch != epoch ==> (s.results@[i] matches Some(x) && x.delivery_id@
                == named@[i].delivery_id@ && x.status == SettlementStatus::StaleLease
                && x.deadline_ms == 0)
        },
{
    assert(named.len() == named@.len());
    assert(!stops_at(named@[i], aggregate_type@, group_name@, epoch));
    law_named_deliveries_of_the_epoch_are_asked_about(
        named@,
        aggregate_type,
        group_name,
        epoch,
        i,
        t,
    );
}

/// What a partition answers of a delivery is noted for that delivery, and nothing is
/// changed for the deliveries that it was not asked about.
pub proof fn law_each_answer_is_noted_for_its_delivery(
    s: Settling,
    statuses: Vec<SettlementStatus>,
    renewed: Option<u64>,
    shown: &str,
    n: Settling,
    k: int,
    i: int,
)
    requires
        s.wf(),
        s.at < s.groups@.len(),
        call_ensures(
            Settling::on_answer,
            (
                s,
                Ok::<SettlementAnswer, Status>(
                    if renewed is Some {
                        SettlementAnswer::Renewed(statuses)
                    } else {
                        SettlementAnswer::Settled(statuses)
                    },
                ),
                renewed,
                shown,
            ),
            Ok::<Settling, Status>(n),
        ),
        0 <= k < s.groups@[s.at as int].1@.len(),
        forall|m: int|
            k < m < s.groups@[s.at as int].1@.len() ==> (
            #[trigger] s.groups@[s.at as int].1@[m]).index != s.groups@[s.at as int].1@[k].index,
        0 <= i < s.named@.len(),
        forall|m: int|
            0 <= m < s.groups@[s.at as int].1@.len() ==> (
            #[trigger] s.groups@[s.at as int].1@[m]).index != i,
    ensures
        ({
            let at = s.groups@[s.at as int].1@[k].index as int;
            &&& n.at == s.at + 1 && n.named == s.named && n.groups == s.groups
            &&& n.results@[at] matches Some(x)
            &&& x.delivery_id@ == s.named@[at].delivery_id@
            &&& x.status == statuses@[k]
            &&& x.deadline_ms == (if renewed is Some && statuses@[k] == SettlementStatus::Applied {
                renewed->0
            } else {
                0
            })
            &&& n.results@[i] == s.results@[i]
        }),
{
    let asked = s.groups@[s.at as int].1@;
    let at = asked[k].index as int;
    assert(at < s.named@.len());
    lemma_place_of_last(asked, asked.len() as int, k);
    lemma_no_place(asked, asked.len() as int, i);
    assert(n.results@[at] == n.results@[at]);
    assert(n.results@[i] == n.results@[i]);
}

proof fn lemma_place_of_last(asked: Seq<LiveDelivery>, n: int, k: int)
    requires
        0 <= k < n <= asked.len(),
        forall|m: int| k < m < n ==> (#[trigger] asked[m]).index != asked[k].index,
    ensures
        answer_place(asked, n, asked[k].index as int) == Some(k),
    decreases n,
{
    if n > k + 1 {
        assert(asked[n - 1].index != asked[k].index);
        lemma_place_of_last(asked, n - 1, k);
    }
}

proof fn lemma_no_place(asked: Seq<LiveDelivery>, n: int, index: int)
    requires
        n <= asked.len(),
        forall|m: int| 0 <= m < n ==> (#[trigger] asked[m]).index != index,
    ensures
        answer_place(asked, n, index) is None,
    decreases n,
{
    if n > 0 {
        assert(asked[n - 1].index != index);
        lemma_no_place(asked, n - 1, index);
    }
}

} // verus!
