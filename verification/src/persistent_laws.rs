//! What a consumer of a group can count on: which streams a fetch reads, from where, and
//! what becomes of the events it reads.

use vstd::prelude::*;

use crate::backlog::{CursorView, PersistentCursor, cursor_views};
use crate::maps::TextMap;
use crate::order::{lemma_filter_has, lists};
use crate::event::Event;
use crate::ids::big_endian;
use crate::persistent_fetch::{
    Allowance, DeliveryCandidate, FetchResponse, Gathered, ReadPlan, Scan, allowance, beyond,
    candidates_of, claim_deadline, claimed_reply, delivers, due_reads, earliest_deadline,
    fetch_reads, gather, given_versions, is_candidate, is_open, is_read,
    law_scan_reads_beyond_settled_and_given, matched, next_retry, nothing_read, plan_reads,
    progress_names, reads_on, resume_at, scan_of, scan_order, scan_reads, stream_read,
};
use crate::persistent_flow::{Gathering, Look, LookStage};
use crate::persistent_group::{Delivery, PendingRetry, PersistentGroup, StreamProgress};
use crate::persistent_service::GroupOutcome;
use crate::status::Status;
use crate::text::{lemma_text_order_total, text_before, texts_increase};
use crate::versions::{Entry, VersionMap};

verus! {

/// The plan asks this shard for the stream, from this version on, for this many events.
pub open spec fn asks(
    requests: Seq<(u64, Vec<PersistentCursor>)>,
    shard: u64,
    stream: Seq<char>,
    from_version: u64,
    max_count: u32,
) -> bool {
    exists|i: int, m: int|
        0 <= i < requests.len() && 0 <= m < requests[i].1@.len() && requests[i].0 == shard && (
        #[trigger] requests[i].1@[m]).stream_id@ == stream && requests[i].1@[m].from_version
            == from_version && requests[i].1@[m].max_count == max_count
}

/// The plan asks some shard for the stream.
pub open spec fn asks_for(requests: Seq<(u64, Vec<PersistentCursor>)>, stream: Seq<char>) -> bool {
    exists|i: int, m: int|
        0 <= i < requests.len() && 0 <= m < requests[i].1@.len() && (
        #[trigger] requests[i].1@[m]).stream_id@ == stream
}

/// How many reads a plan asks for.
pub open spec fn asked_count(requests: Seq<(u64, Vec<PersistentCursor>)>) -> nat
    decreases requests.len(),
{
    if requests.len() == 0 {
        0
    } else {
        asked_count(requests.drop_last()) + requests.last().1@.len()
    }
}

proof fn lemma_reads_on(reads: Seq<(u64, CursorView)>, shard: u64, c: CursorView)
    ensures
        reads_on(reads, shard).contains(c) <==> reads.contains((shard, c)),
    decreases reads.len(),
{
    if reads.len() > 0 {
        let rest = reads.drop_last();
        let was = reads_on(rest, shard);
        let now = reads_on(reads, shard);
        lemma_reads_on(rest, shard, c);
        if was.contains(c) {
            let k = choose|k: int| 0 <= k < was.len() && was[k] == c;
            assert(now[k] == c);
            let m = choose|m: int| 0 <= m < rest.len() && rest[m] == (shard, c);
            assert(reads[m] == (shard, c));
        }
        if now.contains(c) && !was.contains(c) {
            let k = choose|k: int| 0 <= k < now.len() && now[k] == c;
            if k < was.len() {
                assert(was[k] == c);
            }
            assert(reads[reads.len() - 1] == (shard, c));
        }
        if reads.contains((shard, c)) && !was.contains(c) {
            let m = choose|m: int| 0 <= m < reads.len() && reads[m] == (shard, c);
            if m < rest.len() {
                assert(rest[m] == (shard, c));
            }
            assert(now[was.len() as int] == c);
        }
    }
}

/// The reads of these shards together.
spec fn count_on(reads: Seq<(u64, CursorView)>, ids: Seq<u64>) -> nat
    decreases ids.len(),
{
    if ids.len() == 0 {
        0
    } else {
        count_on(reads, ids.drop_last()) + reads_on(reads, ids.last()).len()
    }
}

proof fn lemma_count_step(reads: Seq<(u64, CursorView)>, ids: Seq<u64>)
    requires
        reads.len() > 0,
        forall|i: int, j: int| 0 <= i < j < ids.len() ==> ids[i] < ids[j],
    ensures
        count_on(reads, ids) == count_on(reads.drop_last(), ids) + (if ids.contains(
            reads.last().0,
        ) {
            1nat
        } else {
            0nat
        }),
    decreases ids.len(),
{
    if ids.len() > 0 {
        let rest = ids.drop_last();
        let shard = reads.last().0;
        assert forall|i: int, j: int| 0 <= i < j < rest.len() implies rest[i] < rest[j] by {
            assert(ids[i] < ids[j]);
        }
        lemma_count_step(reads, rest);
        let n = ids.len() - 1;
        if rest.contains(shard) {
            let i = choose|i: int| 0 <= i < rest.len() && rest[i] == shard;
            assert(ids[i] < ids[n]);
            assert(ids[i] == shard);
        }
        if ids.contains(shard) && !rest.contains(shard) {
            let i = choose|i: int| 0 <= i < ids.len() && ids[i] == shard;
            if i < n {
                assert(rest[i] == shard);
            }
        }
        if ids.last() == shard {
            assert(ids[n] == shard);
        }
    }
}

proof fn lemma_count_all(reads: Seq<(u64, CursorView)>, ids: Seq<u64>)
    requires
        forall|i: int, j: int| 0 <= i < j < ids.len() ==> ids[i] < ids[j],
        forall|k: int| 0 <= k < reads.len() ==> ids.contains((#[trigger] reads[k]).0),
    ensures
        count_on(reads, ids) == reads.len(),
    decreases reads.len(),
{
    if reads.len() > 0 {
        let rest = reads.drop_last();
        assert forall|k: int| 0 <= k < rest.len() implies ids.contains((#[trigger] rest[k]).0) by {
            assert(rest[k] == reads[k]);
        }
        lemma_count_all(rest, ids);
        lemma_count_step(reads, ids);
        assert(ids.contains(reads[reads.len() - 1].0));
    } else {
        lemma_count_none(ids);
        assert(reads =~= Seq::<(u64, CursorView)>::empty());
    }
}

proof fn lemma_count_none(ids: Seq<u64>)
    ensures
        count_on(Seq::empty(), ids) == 0,
    decreases ids.len(),
{
    if ids.len() > 0 {
        lemma_count_none(ids.drop_last());
    }
}

proof fn lemma_asked_count(
    reads: Seq<(u64, CursorView)>,
    requests: Seq<(u64, Vec<PersistentCursor>)>,
    ids: Seq<u64>,
)
    requires
        ids.len() == requests.len(),
        forall|i: int| 0 <= i < requests.len() ==> ids[i] == (#[trigger] requests[i]).0,
        forall|i: int|
            0 <= i < requests.len() ==> cursor_views((#[trigger] requests[i]).1@) == reads_on(
                reads,
                requests[i].0,
            ),
    ensures
        asked_count(requests) == count_on(reads, ids),
    decreases requests.len(),
{
    if requests.len() > 0 {
        let rest = requests.drop_last();
        let n = requests.len() - 1;
        assert forall|i: int| 0 <= i < rest.len() implies ids.drop_last()[i] == (
        #[trigger] rest[i]).0 && cursor_views(rest[i].1@) == reads_on(reads, rest[i].0) by {
            assert(rest[i] == requests[i]);
        }
        lemma_asked_count(reads, rest, ids.drop_last());
        assert(cursor_views(requests[n].1@) == reads_on(reads, requests[n].0));
        assert(cursor_views(requests[n].1@).len() == requests[n].1@.len());
    }
}

/// A plan asks for exactly these reads.
proof fn lemma_plan(
    group: PersistentGroup,
    routes: TextMap<u64>,
    consumer_id: &str,
    max_events: u32,
    now: u64,
    plan: ReadPlan,
)
    requires
        call_ensures(plan_reads, (&group, &routes, consumer_id, max_events, now), plan),
    ensures
        ({
            let reads = fetch_reads(group, routes@, consumer_id@, max_events, now);
            &&& asked_count(plan.requests@) == reads.len()
            &&& forall|shard: u64, c: CursorView| #[trigger]
                reads.contains((shard, c)) <==> asks(
                    plan.requests@,
                    shard,
                    c.stream,
                    c.from_version,
                    c.max_count,
                )
        }),
{
    let reads = fetch_reads(group, routes@, consumer_id@, max_events, now);
    let requests = plan.requests@;
    let ids = requests.map_values(|g: (u64, Vec<PersistentCursor>)| g.0);
    let shards = reads.map_values(|p: (u64, CursorView)| p.0);
    assert(lists(ids, shards.to_set()));
    assert forall|k: int| 0 <= k < reads.len() implies ids.contains((#[trigger] reads[k]).0) by {
        assert(shards[k] == reads[k].0);
        assert(shards.contains(reads[k].0));
        assert(shards.to_set().contains(reads[k].0));
    }
    lemma_count_all(reads, ids);
    lemma_asked_count(reads, requests, ids);
    assert forall|shard: u64, c: CursorView| #[trigger]
        reads.contains((shard, c)) <==> asks(
            requests,
            shard,
            c.stream,
            c.from_version,
            c.max_count,
        ) by {
        lemma_reads_on(reads, shard, c);
        if reads.contains((shard, c)) {
            let k = choose|k: int| 0 <= k < reads.len() && reads[k] == (shard, c);
            assert(ids.contains(reads[k].0));
            let i = choose|i: int| 0 <= i < ids.len() && ids[i] == shard;
            assert(requests[i].0 == shard);
            let views = cursor_views(requests[i].1@);
            assert(views == reads_on(reads, shard));
            let m = choose|m: int| 0 <= m < views.len() && views[m] == c;
            assert(requests[i].1@[m]@ == c);
            assert(requests[i].1@[m].stream_id@ == c.stream);
        }
        if asks(requests, shard, c.stream, c.from_version, c.max_count) {
            let (i, m) = choose|i: int, m: int|
                0 <= i < requests.len() && 0 <= m < requests[i].1@.len() && requests[i].0 == shard
                    && (#[trigger] requests[i].1@[m]).stream_id@ == c.stream
                    && requests[i].1@[m].from_version == c.from_version
                    && requests[i].1@[m].max_count == c.max_count;
            let views = cursor_views(requests[i].1@);
            assert(views == reads_on(reads, requests[i].0));
            assert(views[m] == requests[i].1@[m]@);
            assert(views[m] == c);
            assert(views.contains(c));
        }
    }
}

/// A retry of the stream is due.
pub open spec fn has_due_retry(group: PersistentGroup, stream: Seq<char>, now: u64) -> bool {
    exists|i: int|
        0 <= i < group.pending_retries.entries@.len() && (
        #[trigger] group.pending_retries.entries@[i]).stream@ == stream
            && group.pending_retries.entries@[i].value.not_before_ms <= now
}

/// The stream's next version waits for a retry.
pub open spec fn next_waits_for_retry(group: PersistentGroup, stream: Seq<char>) -> bool {
    exists|i: int|
        0 <= i < group.pending_retries.entries@.len() && (
        #[trigger] group.pending_retries.entries@[i]).stream@ == stream
            && group.pending_retries.entries@[i].version == group.progress@[stream].next_version
}

/// Another consumer holds the stream, and its lease has not run out.
pub open spec fn is_held_by_another(
    group: PersistentGroup,
    stream: Seq<char>,
    consumer: Seq<char>,
    now: u64,
) -> bool {
    group.progress@[stream].lease matches Some(l) && l.consumer_id@ != consumer && now
        < l.deadline_ms
}

proof fn lemma_due(
    retries: Seq<Entry<PendingRetry>>,
    routes: Map<Seq<char>, u64>,
    now: u64,
    shard: u64,
    c: CursorView,
)
    ensures
        due_reads(retries, routes, now).contains((shard, c)) <==> routes.dom().contains(c.stream)
            && shard == routes[c.stream] && c.max_count == 1 && exists|i: int|
            0 <= i < retries.len() && (#[trigger] retries[i]).stream@ == c.stream
                && retries[i].version == c.from_version && retries[i].value.not_before_ms <= now,
    decreases retries.len(),
{
    let now_due = due_reads(retries, routes, now);
    if retries.len() > 0 {
        let rest = retries.drop_last();
        let n = retries.len() - 1;
        let was = due_reads(rest, routes, now);
        let r = retries.last();
        assert(r == retries[n]);
        lemma_due(rest, routes, now, shard, c);
        if was.contains((shard, c)) {
            let k = choose|k: int| 0 <= k < was.len() && was[k] == (shard, c);
            assert(now_due[k] == (shard, c));
            let i = choose|i: int|
                0 <= i < rest.len() && (#[trigger] rest[i]).stream@ == c.stream && rest[i].version
                    == c.from_version && rest[i].value.not_before_ms <= now;
            assert(retries[i] == rest[i]);
        }
        if now_due.contains((shard, c)) && !was.contains((shard, c)) {
            let k = choose|k: int| 0 <= k < now_due.len() && now_due[k] == (shard, c);
            if k < was.len() {
                assert(was[k] == (shard, c));
            }
            assert(retries[n].stream@ == c.stream);
        }
        if routes.dom().contains(c.stream) && shard == routes[c.stream] && c.max_count == 1
            && exists|i: int|
            0 <= i < retries.len() && (#[trigger] retries[i]).stream@ == c.stream
                && retries[i].version == c.from_version && retries[i].value.not_before_ms <= now {
            let i = choose|i: int|
                0 <= i < retries.len() && (#[trigger] retries[i]).stream@ == c.stream
                    && retries[i].version == c.from_version && retries[i].value.not_before_ms
                    <= now;
            if i < n {
                assert(rest[i] == retries[i]);
            } else {
                assert(now_due[was.len() as int] == (shard, c));
            }
        }
    } else {
        assert(now_due =~= Seq::<(u64, CursorView)>::empty());
    }
}

proof fn lemma_scan(s: Scan, streams: Seq<Seq<char>>, shard: u64, c: CursorView)
    ensures
        scan_reads(s, streams).contains((shard, c)) ==> streams.contains(c.stream) && is_open(
            s,
            c.stream,
        ) && (shard, c) == stream_read(s, c.stream),
        scan_reads(s, streams).len() < s.room ==> forall|x: Seq<char>|
            streams.contains(x) && is_open(s, x) ==> scan_reads(s, streams).contains(
                #[trigger] stream_read(s, x),
            ),
        scan_reads(s, streams).len() <= s.room,
    decreases streams.len(),
{
    let now = scan_reads(s, streams);
    if streams.len() > 0 {
        let rest = streams.drop_last();
        let n = streams.len() - 1;
        let was = scan_reads(s, rest);
        lemma_scan(s, rest, shard, c);
        assert(streams.last() == streams[n]);
        if now.contains((shard, c)) {
            let k = choose|k: int| 0 <= k < now.len() && now[k] == (shard, c);
            if k < was.len() {
                assert(was[k] == (shard, c));
                let m = choose|m: int| 0 <= m < rest.len() && rest[m] == c.stream;
                assert(streams[m] == c.stream);
            } else {
                assert(streams[n] == c.stream);
            }
        }
        if now.len() < s.room {
            assert(was.len() < s.room);
            assert forall|x: Seq<char>|
                streams.contains(x) && is_open(s, x) implies now.contains(
                #[trigger] stream_read(s, x),
            ) by {
                let m = choose|m: int| 0 <= m < streams.len() && streams[m] == x;
                if m < n {
                    assert(rest[m] == x);
                    assert(rest.contains(x));
                    let k = choose|k: int| 0 <= k < was.len() && was[k] == stream_read(s, x);
                    assert(now[k] == stream_read(s, x));
                } else {
                    assert(now[was.len() as int] == stream_read(s, x));
                }
            }
        }
    } else {
        assert(now =~= Seq::<(u64, CursorView)>::empty());
    }
}

proof fn lemma_scan_order(names: Seq<Seq<char>>, after: Option<Seq<char>>, x: Seq<char>)
    ensures
        scan_order(names, after).contains(x) <==> names.contains(x),
{
    if let Some(a) = after {
        let behind = |y: Seq<char>| text_before(a, y);
        let others = |y: Seq<char>| !text_before(a, y);
        lemma_filter_has(names, behind, x);
        lemma_filter_has(names, others, x);
        let p = names.filter(behind);
        let q = names.filter(others);
        let all = scan_order(names, after);
        assert(all == p + q);
        if p.contains(x) {
            let k = choose|k: int| 0 <= k < p.len() && p[k] == x;
            assert(all[k] == x);
        }
        if q.contains(x) {
            let k = choose|k: int| 0 <= k < q.len() && q[k] == x;
            assert(all[p.len() + k] == x);
        }
        if all.contains(x) {
            let k = choose|k: int| 0 <= k < all.len() && all[k] == x;
            if k < p.len() {
                assert(p[k] == x);
            } else {
                assert(q[k - p.len()] == x);
            }
        }
    }
}

proof fn lemma_names(group: PersistentGroup, x: Seq<char>)
    requires
        group.wf(),
    ensures
        progress_names(group.progress).contains(x) <==> group.progress@.dom().contains(x),
{
    let names = progress_names(group.progress);
    if names.contains(x) {
        let k = choose|k: int| 0 <= k < names.len() && names[k] == x;
        group.progress.lemma_entry(k);
        assert(group.progress.key(k) == x);
    }
    if group.progress@.dom().contains(x) {
        let k = group.progress.index(x);
        assert(0 <= k < group.progress.entries@.len() && group.progress.key(k) == x);
        assert(names[k] == x);
    }
}

/// The stream is due.
proof fn lemma_is_due(group: PersistentGroup, routes: Map<Seq<char>, u64>, now: u64, x: Seq<char>)
    ensures
        is_read(due_reads(group.pending_retries.entries@, routes, now), x) <==> has_due_retry(
            group,
            x,
            now,
        ) && routes.dom().contains(x),
{
    let retries = group.pending_retries.entries@;
    let due = due_reads(retries, routes, now);
    if is_read(due, x) {
        let i = choose|i: int| 0 <= i < due.len() && (#[trigger] due[i]).1.stream == x;
        lemma_due(retries, routes, now, due[i].0, due[i].1);
        assert(due.contains((due[i].0, due[i].1)));
        let k = choose|k: int|
            0 <= k < retries.len() && (#[trigger] retries[k]).stream@ == x && retries[k].version
                == due[i].1.from_version && retries[k].value.not_before_ms <= now;
        assert(retries[k].stream@ == x);
    }
    if has_due_retry(group, x, now) && routes.dom().contains(x) {
        let k = choose|k: int|
            0 <= k < retries.len() && (#[trigger] retries[k]).stream@ == x
                && retries[k].value.not_before_ms <= now;
        let c = CursorView { stream: x, from_version: retries[k].version, max_count: 1 };
        lemma_due(retries, routes, now, routes[x], c);
        assert(due.contains((routes[x], c)));
        let i = choose|i: int| 0 <= i < due.len() && due[i] == (routes[x], c);
        assert(due[i].1.stream == x);
    }
}

/// A routed stream that no due retry reads and whose next version does not wait for a
/// retry is read whenever its lease is absent, has run out or belongs to the fetching
/// consumer, unless the fetch is full; it is passed over for its lease only where another
/// consumer holds one that has not run out.
pub proof fn law_only_anothers_lease_holds_a_stream_back(
    group: PersistentGroup,
    routes: TextMap<u64>,
    consumer_id: &str,
    max_events: u32,
    now: u64,
    plan: ReadPlan,
    stream: Seq<char>,
)
    requires
        group.wf(),
        routes.wf(),
        call_ensures(plan_reads, (&group, &routes, consumer_id, max_events, now), plan),
        group.progress@.dom().contains(stream),
        !has_due_retry(group, stream, now),
    ensures
        routes@.dom().contains(stream) && !next_waits_for_retry(group, stream)
            && !is_held_by_another(group, stream, consumer_id@, now) && asked_count(plan.requests@)
            < max_events ==> exists|from_version: u64, max_count: u32| #[trigger]
            asks(plan.requests@, routes@[stream], stream, from_version, max_count),
        is_held_by_another(group, stream, consumer_id@, now) ==> !asks_for(plan.requests@, stream),
        next_waits_for_retry(group, stream) ==> !asks_for(plan.requests@, stream),
        !routes@.dom().contains(stream) ==> !asks_for(plan.requests@, stream),
{
    let s = scan_of(group, routes@, consumer_id@, max_events, now);
    let names = progress_names(group.progress);
    let after = match group.scan_after {
        Some(a) => Some(a@),
        None => None,
    };
    let order = scan_order(names, after);
    let reads = fetch_reads(group, routes@, consumer_id@, max_events, now);
    let scanned = scan_reads(s, order);
    assert(reads == s.due + scanned);
    lemma_plan(group, routes, consumer_id, max_events, now, plan);
    lemma_is_due(group, routes@, now, stream);
    lemma_names(group, stream);
    lemma_scan_order(names, after, stream);
    let next = group.progress@[stream].next_version;
    assert(group.pending_retries@.dom().contains((stream, next)) <==> next_waits_for_retry(
        group,
        stream,
    )) by {
        let m = group.pending_retries;
        if m@.dom().contains((stream, next)) {
            let i = m.index((stream, next));
            assert(0 <= i < m.entries@.len() && m.key(i) == (stream, next));
            assert(m.entries@[i].stream@ == stream);
        }
        if next_waits_for_retry(group, stream) {
            let i = choose|i: int|
                0 <= i < m.entries@.len() && (#[trigger] m.entries@[i]).stream@ == stream
                    && m.entries@[i].version == next;
            m.lemma_entry(i);
            assert(m.key(i) == (stream, next));
        }
    }
    let read = stream_read(s, stream);
    lemma_scan(s, order, read.0, read.1);
    if routes@.dom().contains(stream) && !next_waits_for_retry(group, stream)
        && !is_held_by_another(group, stream, consumer_id@, now) && asked_count(plan.requests@)
        < max_events {
        assert(is_open(s, stream));
        assert(scanned.len() < s.room);
        assert(scanned.contains(read));
        let k = choose|k: int| 0 <= k < scanned.len() && scanned[k] == read;
        assert(reads[s.due.len() + k] == read);
        assert(reads.contains((read.0, read.1)));
        assert(asks(
            plan.requests@,
            routes@[stream],
            stream,
            read.1.from_version,
            read.1.max_count,
        ));
    }
    if asks_for(plan.requests@, stream) {
        let requests = plan.requests@;
        let (i, m) = choose|i: int, m: int|
            0 <= i < requests.len() && 0 <= m < requests[i].1@.len() && (
            #[trigger] requests[i].1@[m]).stream_id@ == stream;
        let c = requests[i].1@[m]@;
        assert(asks(requests, requests[i].0, c.stream, c.from_version, c.max_count)) by {
            assert(requests[i].1@[m].stream_id@ == c.stream);
        }
        assert(reads.contains((requests[i].0, c)));
        let k = choose|k: int| 0 <= k < reads.len() && reads[k] == (requests[i].0, c);
        if k < s.due.len() {
            assert(s.due[k].1.stream == stream);
            assert(is_read(s.due, stream));
            lemma_due(
                group.pending_retries.entries@,
                routes@,
                now,
                s.due[k].0,
                s.due[k].1,
            );
            assert(s.due.contains((s.due[k].0, s.due[k].1)));
        } else {
            assert(scanned[k - s.due.len()] == (requests[i].0, c));
            lemma_scan(s, order, requests[i].0, c);
            assert(is_open(s, stream));
        }
    }
}

/// Every retry that is due, of a stream that is routed, is read again: that one event, of
/// the shard its stream is on.
pub proof fn law_due_retries_are_read(
    group: PersistentGroup,
    routes: TextMap<u64>,
    consumer_id: &str,
    max_events: u32,
    now: u64,
    plan: ReadPlan,
    i: int,
)
    requires
        call_ensures(plan_reads, (&group, &routes, consumer_id, max_events, now), plan),
        0 <= i < group.pending_retries.entries@.len(),
        group.pending_retries.entries@[i].value.not_before_ms <= now,
        routes@.dom().contains(group.pending_retries.entries@[i].stream@),
    ensures
        asks(
            plan.requests@,
            routes@[group.pending_retries.entries@[i].stream@],
            group.pending_retries.entries@[i].stream@,
            group.pending_retries.entries@[i].version,
            1,
        ),
{
    let retries = group.pending_retries.entries@;
    let r = retries[i];
    let c = CursorView { stream: r.stream@, from_version: r.version, max_count: 1 };
    let shard = routes@[r.stream@];
    lemma_plan(group, routes, consumer_id, max_events, now, plan);
    lemma_due(retries, routes@, now, shard, c);
    let due = due_reads(retries, routes@, now);
    let reads = fetch_reads(group, routes@, consumer_id@, max_events, now);
    let k = choose|k: int| 0 <= k < due.len() && due[k] == (shard, c);
    assert(reads[k] == (shard, c));
    assert(reads.contains((shard, c)));
}

proof fn lemma_given_only(deliveries: Seq<Delivery>, stream: Seq<char>, k: int)
    requires
        0 <= k < given_versions(deliveries, stream).len(),
    ensures
        exists|i: int|
            0 <= i < deliveries.len() && (#[trigger] deliveries[i]).stream_id@ == stream
                && deliveries[i].version == given_versions(deliveries, stream)[k],
    decreases deliveries.len(),
{
    let rest = deliveries.drop_last();
    let was = given_versions(rest, stream);
    if k < was.len() {
        lemma_given_only(rest, stream, k);
        let i = choose|i: int|
            0 <= i < rest.len() && (#[trigger] rest[i]).stream_id@ == stream && rest[i].version
                == was[k];
        assert(deliveries[i] == rest[i]);
    } else {
        assert(deliveries[deliveries.len() - 1] == deliveries.last());
    }
}

proof fn lemma_beyond_is(base: u64, versions: Seq<u64>)
    ensures
        beyond(base, versions) == base || exists|i: int|
            0 <= i < versions.len() && (beyond(base, versions) == #[trigger] versions[i] + 1 || (
            versions[i] == u64::MAX && beyond(base, versions) == u64::MAX)),
    decreases versions.len(),
{
    if versions.len() > 0 {
        let rest = versions.drop_last();
        lemma_beyond_is(base, rest);
        let n = versions.len() - 1;
        assert(versions[n] == versions.last());
        if beyond(base, versions) == beyond(base, rest) && beyond(base, rest) != base {
            let i = choose|i: int|
                0 <= i < rest.len() && (beyond(base, rest) == #[trigger] rest[i] + 1 || (rest[i]
                    == u64::MAX && beyond(base, rest) == u64::MAX));
            assert(versions[i] == rest[i]);
        }
    }
}

/// The scan goes on from the version: none that is settled or given lies at or beyond it,
/// and it is the group's next one or the one behind a version that is settled or given.
pub open spec fn goes_on_at(
    p: StreamProgress,
    deliveries: Seq<Delivery>,
    stream: Seq<char>,
    v: u64,
) -> bool {
    &&& v >= p.next_version
    &&& forall|i: int|
        0 <= i < p.resolved_gaps@.len() ==> v > #[trigger] p.resolved_gaps@[i]
            || p.resolved_gaps@[i] == u64::MAX
    &&& forall|i: int|
        0 <= i < deliveries.len() && (#[trigger] deliveries[i]).stream_id@ == stream ==> v
            > deliveries[i].version || deliveries[i].version == u64::MAX
    &&& {
        ||| v == p.next_version
        ||| v == u64::MAX
        ||| exists|i: int| 0 <= i < p.resolved_gaps@.len() && v == #[trigger] p.resolved_gaps@[i] + 1
        ||| exists|i: int|
            0 <= i < deliveries.len() && (#[trigger] deliveries[i]).stream_id@ == stream && v
                == deliveries[i].version + 1
    }
}

/// How many retries are due, of streams that are routed.
pub open spec fn due_count(group: PersistentGroup, routes: Map<Seq<char>, u64>, now: u64) -> nat {
    group.pending_retries.entries@.filter(
        |e: Entry<PendingRetry>| e.value.not_before_ms <= now && routes.dom().contains(e.stream@),
    ).len()
}

proof fn lemma_due_count(
    retries: Seq<Entry<PendingRetry>>,
    routes: Map<Seq<char>, u64>,
    now: u64,
)
    ensures
        due_reads(retries, routes, now).len() == retries.filter(
            |e: Entry<PendingRetry>|
                e.value.not_before_ms <= now && routes.dom().contains(e.stream@),
        ).len(),
    decreases retries.len(),
{
    reveal(Seq::filter);
    if retries.len() > 0 {
        lemma_due_count(retries.drop_last(), routes, now);
    }
}

/// Whatever a fetch reads is read on the shard that the stream is routed to; and it is
/// either one event that is due again, or a stream of the group that is read on from
/// behind all that is settled and given, for no more than thirty-two events.
pub proof fn law_every_read_is_a_retry_or_goes_on(
    group: PersistentGroup,
    routes: TextMap<u64>,
    consumer_id: &str,
    max_events: u32,
    now: u64,
    plan: ReadPlan,
    shard: u64,
    stream: Seq<char>,
    from_version: u64,
    max_count: u32,
)
    requires
        group.wf(),
        call_ensures(plan_reads, (&group, &routes, consumer_id, max_events, now), plan),
        asks(plan.requests@, shard, stream, from_version, max_count),
    ensures
        routes@.dom().contains(stream) && shard == routes@[stream],
        ({
            ||| max_count == 1 && exists|i: int|
                0 <= i < group.pending_retries.entries@.len() && (
                #[trigger] group.pending_retries.entries@[i]).stream@ == stream
                    && group.pending_retries.entries@[i].version == from_version
                    && group.pending_retries.entries@[i].value.not_before_ms <= now
            ||| {
                &&& group.progress@.dom().contains(stream)
                &&& !has_due_retry(group, stream, now)
                &&& goes_on_at(
                    group.progress@[stream],
                    group.deliveries@,
                    stream,
                    from_version,
                )
                &&& 1 <= max_count <= 32 && max_count <= max_events
                &&& asked_count(plan.requests@) <= max_events
                &&& max_count == 32 || max_count + due_count(group, routes@, now) == max_events
            }
        }),
{
    let s = scan_of(group, routes@, consumer_id@, max_events, now);
    let names = progress_names(group.progress);
    let after = match group.scan_after {
        Some(a) => Some(a@),
        None => None,
    };
    let order = scan_order(names, after);
    let reads = fetch_reads(group, routes@, consumer_id@, max_events, now);
    let scanned = scan_reads(s, order);
    let retries = group.pending_retries.entries@;
    let c = CursorView { stream, from_version, max_count };
    lemma_plan(group, routes, consumer_id, max_events, now, plan);
    assert(reads.contains((shard, c)));
    let k = choose|k: int| 0 <= k < reads.len() && reads[k] == (shard, c);
    if k < s.due.len() {
        assert(s.due[k] == (shard, c));
        lemma_due(retries, routes@, now, shard, c);
        assert(s.due.contains((shard, c)));
    } else {
        assert(scanned[k - s.due.len()] == (shard, c));
        assert(scanned.contains((shard, c)));
        lemma_scan(s, order, shard, c);
        lemma_scan_order(names, after, stream);
        lemma_names(group, stream);
        lemma_is_due(group, routes@, now, stream);
        let p = group.progress@[stream];
        law_scan_reads_beyond_settled_and_given(p, group.deliveries@, stream);
        let given = given_versions(group.deliveries@, stream);
        let all = p.resolved_gaps@ + given;
        lemma_beyond_is(p.next_version, all);
        let v = resume_at(p, group.deliveries@, stream);
        assert(v == from_version);
        if v != p.next_version && v != u64::MAX {
            let i = choose|i: int| 0 <= i < all.len() && v == #[trigger] all[i] + 1;
            if i < p.resolved_gaps@.len() {
                assert(v == p.resolved_gaps@[i] + 1);
            } else {
                assert(all[i] == given[i - p.resolved_gaps@.len()]);
                lemma_given_only(group.deliveries@, stream, i - p.resolved_gaps@.len());
            }
        }
        lemma_due_count(retries, routes@, now);
    }
}

/// The next retry that is waited for is the earliest of those that are not due.
pub proof fn law_next_retry_is_the_earliest_not_due(
    group: PersistentGroup,
    routes: TextMap<u64>,
    consumer_id: &str,
    max_events: u32,
    now: u64,
    plan: ReadPlan,
)
    requires
        call_ensures(plan_reads, (&group, &routes, consumer_id, max_events, now), plan),
    ensures
        ({
            let retries = group.pending_retries.entries@;
            match plan.next_retry {
                None => forall|i: int|
                    0 <= i < retries.len() ==> (#[trigger] retries[i]).value.not_before_ms <= now,
                Some(t) => t > now && (exists|i: int|
                    0 <= i < retries.len() && (#[trigger] retries[i]).value.not_before_ms == t)
                    && forall|i: int|
                    0 <= i < retries.len() ==> (#[trigger] retries[i]).value.not_before_ms <= now
                        || retries[i].value.not_before_ms >= t,
            }
        }),
{
    lemma_next_retry(group.pending_retries.entries@, now);
}

proof fn lemma_next_retry(retries: Seq<Entry<PendingRetry>>, now: u64)
    ensures
        match next_retry(retries, now) {
            None => forall|i: int|
                0 <= i < retries.len() ==> (#[trigger] retries[i]).value.not_before_ms <= now,
            Some(t) => t > now && (exists|i: int|
                0 <= i < retries.len() && (#[trigger] retries[i]).value.not_before_ms == t)
                && forall|i: int|
                0 <= i < retries.len() ==> (#[trigger] retries[i]).value.not_before_ms <= now
                    || retries[i].value.not_before_ms >= t,
        },
    decreases retries.len(),
{
    if retries.len() > 0 {
        let rest = retries.drop_last();
        let n = retries.len() - 1;
        lemma_next_retry(rest, now);
        assert(retries.last() == retries[n]);
        assert forall|i: int| 0 <= i < n implies rest[i] == #[trigger] retries[i] by {}
        if let Some(t) = next_retry(rest, now) {
            let i = choose|i: int|
                0 <= i < rest.len() && (#[trigger] rest[i]).value.not_before_ms == t;
            assert(retries[i].value.not_before_ms == t);
        }
        if let Some(t) = next_retry(retries, now) {
            assert forall|i: int| 0 <= i < retries.len() implies (
            #[trigger] retries[i]).value.not_before_ms <= now || retries[i].value.not_before_ms
                >= t by {
                if i < n {
                    assert(rest[i] == retries[i]);
                }
            }
        } else {
            assert forall|i: int| 0 <= i < retries.len() implies (
            #[trigger] retries[i]).value.not_before_ms <= now by {
                if i < n {
                    assert(rest[i] == retries[i]);
                }
            }
        }
    }
}

/// Where a scan ended before, the streams behind its end have their turn first; all the
/// streams of the group have their turn.
pub proof fn law_scan_begins_behind_where_it_ended(
    names: Seq<Seq<char>>,
    after: Seq<char>,
    i: int,
    j: int,
    x: Seq<char>,
)
    ensures
        scan_order(names, Some(after)).contains(x) <==> names.contains(x),
        scan_order(names, None) == names,
        0 <= i < j < scan_order(names, Some(after)).len() && text_before(
            after,
            scan_order(names, Some(after))[j],
        ) ==> text_before(after, scan_order(names, Some(after))[i]),
{
    lemma_scan_order(names, Some(after), x);
    let behind = |y: Seq<char>| text_before(after, y);
    let others = |y: Seq<char>| !text_before(after, y);
    let p = names.filter(behind);
    let q = names.filter(others);
    let all = scan_order(names, Some(after));
    assert(all == p + q);
    if 0 <= i < j < all.len() && text_before(after, all[j]) {
        if i < p.len() {
            lemma_filter_has(names, behind, p[i]);
            assert(p.contains(p[i]));
        }
        if j >= p.len() {
            lemma_filter_has(names, others, q[j - p.len()]);
            assert(q.contains(q[j - p.len()]));
            assert(all[j] == q[j - p.len()]);
        }
    }
}

/// A stream that can be read is never passed over for one that has its turn later.
pub proof fn law_streams_are_read_in_turn(s: Scan, order: Seq<Seq<char>>, i: int, j: int)
    requires
        0 <= i < j < order.len(),
        is_open(s, order[i]),
        scan_reads(s, order.take(j + 1)).len() > scan_reads(s, order.take(j)).len(),
    ensures
        scan_reads(s, order).contains(stream_read(s, order[i])),
{
    let upto = order.take(j);
    assert(order.take(j + 1).drop_last() =~= upto);
    assert(scan_reads(s, upto).len() < s.room);
    let read = stream_read(s, order[i]);
    lemma_scan(s, upto, read.0, read.1);
    assert(upto[i] == order[i]);
    assert(upto.contains(order[i]));
    lemma_scan_grows(s, order, j, read);
}

proof fn lemma_scan_grows(s: Scan, order: Seq<Seq<char>>, j: int, read: (u64, CursorView))
    requires
        0 <= j <= order.len(),
        scan_reads(s, order.take(j)).contains(read),
    ensures
        scan_reads(s, order).contains(read),
    decreases order.len() - j,
{
    if j == order.len() {
        assert(order.take(j) =~= order);
    } else {
        let was = scan_reads(s, order.take(j));
        let now = scan_reads(s, order.take(j + 1));
        assert(order.take(j + 1).drop_last() =~= order.take(j));
        let k = choose|k: int| 0 <= k < was.len() && was[k] == read;
        assert(now[k] == read);
        lemma_scan_grows(s, order, j + 1, read);
    }
}


proof fn lemma_earliest(deliveries: Seq<Delivery>, consumer: Seq<char>)
    ensures
        match earliest_deadline(deliveries, consumer) {
            None => forall|i: int|
                0 <= i < deliveries.len() ==> (#[trigger] deliveries[i]).consumer_id@ != consumer,
            Some(t) => (exists|i: int|
                0 <= i < deliveries.len() && (#[trigger] deliveries[i]).consumer_id@ == consumer
                    && deliveries[i].deadline_ms == t) && forall|i: int|
                0 <= i < deliveries.len() && (#[trigger] deliveries[i]).consumer_id@ == consumer
                    ==> t <= deliveries[i].deadline_ms,
        },
    decreases deliveries.len(),
{
    if deliveries.len() > 0 {
        let rest = deliveries.drop_last();
        let n = deliveries.len() - 1;
        lemma_earliest(rest, consumer);
        assert(deliveries.last() == deliveries[n]);
        assert forall|i: int| 0 <= i < n implies rest[i] == #[trigger] deliveries[i] by {}
        if let Some(t) = earliest_deadline(rest, consumer) {
            let i = choose|i: int|
                0 <= i < rest.len() && (#[trigger] rest[i]).consumer_id@ == consumer
                    && rest[i].deadline_ms == t;
            assert(deliveries[i] == rest[i]);
        }
        if let Some(t) = earliest_deadline(deliveries, consumer) {
            assert forall|i: int|
                0 <= i < deliveries.len() && (#[trigger] deliveries[i]).consumer_id@
                    == consumer implies t <= deliveries[i].deadline_ms by {
                if i < n {
                    assert(rest[i] == deliveries[i]);
                }
            }
        }
    }
}

/// A consumer with credit may take what it asks for, as far as its credit goes.  One
/// without is held back until its first delivery runs out, or for a whole time-out where
/// it has none.
pub proof fn law_consumer_without_credit_is_held_back(
    group: PersistentGroup,
    consumer_id: &str,
    credit: u32,
    max_events: u32,
    now: u64,
    a: Allowance,
)
    requires
        call_ensures(allowance, (&group, consumer_id, credit, max_events, now), a),
    ensures
        match a {
            Allowance::Fetch(n) => credit > 0 && n <= credit && n <= max_events && (n == credit
                || n == max_events),
            Allowance::Throttled(r) => {
                &&& credit == 0
                &&& r.deliveries@.len() == 0 && !r.caught_up && r.throttled
                &&& forall|i: int|
                    0 <= i < group.deliveries@.len() && (
                    #[trigger] group.deliveries@[i]).consumer_id@ == consumer_id@
                        ==> r.retry_after_ms == 0 || now + r.retry_after_ms
                        <= group.deliveries@[i].deadline_ms
                &&& (exists|i: int|
                    0 <= i < group.deliveries@.len() && (
                    #[trigger] group.deliveries@[i]).consumer_id@ == consumer_id@) ==> (exists|
                    i: int,
                |
                    0 <= i < group.deliveries@.len() && (
                    #[trigger] group.deliveries@[i]).consumer_id@ == consumer_id@ && (now
                        + r.retry_after_ms == group.deliveries@[i].deadline_ms || (now
                        >= group.deliveries@[i].deadline_ms && r.retry_after_ms == 0)))
                &&& (forall|i: int|
                    0 <= i < group.deliveries@.len() ==> (
                    #[trigger] group.deliveries@[i]).consumer_id@ != consumer_id@)
                    ==> r.retry_after_ms == group.settings.ack_timeout_ms
            },
        },
{
    lemma_earliest(group.deliveries@, consumer_id@);
}

/// A fetch that read nothing says that all is caught up, unless a retry is waited for;
/// then it says how long.  What is claimed is due a time-out from now.
pub proof fn law_waits_are_told(
    next: Option<u64>,
    now: u64,
    r: FetchResponse,
    ack_timeout_ms: u64,
    t: u64,
)
    requires
        call_ensures(nothing_read, (next, now), r),
        call_ensures(claim_deadline, (now, ack_timeout_ms), t),
    ensures
        r.deliveries@.len() == 0,
        !r.throttled,
        r.caught_up <==> next is None,
        next is None ==> r.retry_after_ms == 0,
        next matches Some(at) ==> (at >= now ==> now + r.retry_after_ms == at),
        next matches Some(at) ==> (at < now ==> r.retry_after_ms == 0),
        now + ack_timeout_ms <= u64::MAX ==> t == now + ack_timeout_ms,
        now + ack_timeout_ms > u64::MAX ==> t == u64::MAX,
{
}

/// The sizes of the first `n` events together.
pub open spec fn size_of_first(read: Seq<(Event, u64)>, n: int) -> nat
    decreases n,
{
    if n <= 0 {
        0
    } else {
        size_of_first(read, n - 1) + read[n - 1].1 as nat
    }
}

/// One of the first `n` events is of this stream and version.
pub open spec fn is_among_first(read: Seq<(Event, u64)>, n: int, key: (Seq<char>, u64)) -> bool {
    exists|k: int|
        0 <= k < n && (#[trigger] read[k]).0.stream_id@ == key.0 && read[k].0.version == key.1
}

/// The event is one of the first `n` that were read, under this stream and version.
pub open spec fn is_given(
    read: Seq<(Event, u64)>,
    n: int,
    key: (Seq<char>, u64),
    e: Event,
) -> bool {
    exists|k: int|
        0 <= k < n && (#[trigger] read[k]).0 == e && e.stream_id@ == key.0 && e.version == key.1
}

/// The first `n` events were taken in, and no more: what was there before stays, the sizes
/// count, no event but the very first breaks the limit of bytes, and there was a reason to
/// stop.
pub open spec fn takes_first(
    have: Map<(Seq<char>, u64), Event>,
    held: nat,
    used: u64,
    read: Seq<(Event, u64)>,
    max_events: u32,
    max_bytes: u64,
    after: (Map<(Seq<char>, u64), Event>, nat, u64),
    n: int,
) -> bool {
    &&& 0 <= n <= read.len()
    &&& forall|key: (Seq<char>, u64)| #[trigger]
        after.0.dom().contains(key) <==> have.dom().contains(key) || is_among_first(read, n, key)
    &&& forall|key: (Seq<char>, u64)|
        have.dom().contains(key) && !is_among_first(read, n, key) ==> #[trigger] after.0[key]
            == have[key]
    &&& forall|key: (Seq<char>, u64)|
        is_among_first(read, n, key) ==> is_given(read, n, key, #[trigger] after.0[key])
    &&& used + size_of_first(read, n) <= u64::MAX ==> after.2 == used + size_of_first(read, n)
    &&& used + size_of_first(read, n) > u64::MAX ==> after.2 == u64::MAX
    &&& n > 0 && (held > 0 || n > 1) ==> after.2 <= max_bytes
    &&& n == read.len() || after.1 >= max_events || (after.1 > 0 && after.2 + read[n].1 > max_bytes)
    &&& held <= after.1 <= held + n
    &&& n > 0 ==> after.1 > 0
}

proof fn lemma_size_of_rest(read: Seq<(Event, u64)>, n: int)
    requires
        1 <= n <= read.len(),
    ensures
        size_of_first(read, n) == read[0].1 + size_of_first(read.skip(1), n - 1),
    decreases n,
{
    if n > 1 {
        lemma_size_of_rest(read, n - 1);
        assert(read.skip(1)[n - 2] == read[n - 1]);
    } else {
        assert(size_of_first(read, 0) == 0);
        assert(size_of_first(read.skip(1), 0) == 0);
    }
}

proof fn lemma_among_rest(read: Seq<(Event, u64)>, n: int, key: (Seq<char>, u64))
    requires
        1 <= n <= read.len(),
    ensures
        is_among_first(read, n, key) <==> (read[0].0.stream_id@ == key.0 && read[0].0.version
            == key.1) || is_among_first(read.skip(1), n - 1, key),
{
    let rest = read.skip(1);
    if is_among_first(read, n, key) {
        let k = choose|k: int|
            0 <= k < n && (#[trigger] read[k]).0.stream_id@ == key.0 && read[k].0.version == key.1;
        if k > 0 {
            assert(rest[k - 1] == read[k]);
        }
    }
    if is_among_first(rest, n - 1, key) {
        let k = choose|k: int|
            0 <= k < n - 1 && (#[trigger] rest[k]).0.stream_id@ == key.0 && rest[k].0.version
                == key.1;
        assert(read[k + 1] == rest[k]);
    }
}

proof fn lemma_gather(
    have: Map<(Seq<char>, u64), Event>,
    held: nat,
    used: u64,
    read: Seq<(Event, u64)>,
    max_events: u32,
    max_bytes: u64,
) -> (n: int)
    requires
        held == 0 ==> forall|key: (Seq<char>, u64)| !#[trigger] have.dom().contains(key),
    ensures
        takes_first(
            have,
            held,
            used,
            read,
            max_events,
            max_bytes,
            gather(have, held, used, read, max_events, max_bytes),
            n,
        ),
    decreases read.len(),
{
    let after = gather(have, held, used, read, max_events, max_bytes);
    assert(size_of_first(read, 0) == 0);
    if read.len() == 0 {
        0
    } else {
        let (e, bytes) = read[0];
        let sum = crate::backlog::capped_sum(used, bytes);
        let key = (e.stream_id@, e.version);
        if held > 0 && sum > max_bytes {
            0
        } else {
            let more = have.insert(key, e);
            let m = if have.dom().contains(key) {
                held
            } else {
                held + 1
            };
            let rest = read.skip(1);
            if m >= max_events {
                assert forall|q: (Seq<char>, u64)|
                    #![trigger is_among_first(read, 1, q)]
                    is_among_first(read, 1, q) <==> q == key by {
                    lemma_among_rest(read, 1, q);
                }
                lemma_size_of_rest(read, 1);
                assert(size_of_first(rest, 0) == 0);
                assert(after == (more, m, sum));
                assert(read[0].0 == e);
                assert(is_given(read, 1, key, e));
                1
            } else {
                let k = lemma_gather(more, m, sum, rest, max_events, max_bytes);
                let n = k + 1;
                lemma_size_of_rest(read, n);
                assert forall|q: (Seq<char>, u64)|
                    #![trigger is_among_first(read, n, q)]
                    is_among_first(read, n, q) <==> q == key || is_among_first(rest, k, q) by {
                    lemma_among_rest(read, n, q);
                }
                if n < read.len() {
                    assert(rest[k] == read[n]);
                }
                if k == 0 {
                    assert(size_of_first(rest, 0) == 0);
                }
                assert forall|q: (Seq<char>, u64)| is_among_first(read, n, q) implies is_given(
                    read,
                    n,
                    q,
                    #[trigger] after.0[q],
                ) by {
                    if is_among_first(rest, k, q) {
                        let x = after.0[q];
                        assert(is_given(rest, k, q, x));
                        let i = choose|i: int|
                            0 <= i < k && (#[trigger] rest[i]).0 == x && x.stream_id@ == q.0
                                && x.version == q.1;
                        assert(read[i + 1] == rest[i]);
                    } else {
                        assert(q == key);
                        assert(after.0[q] == more[q]);
                        assert(read[0].0 == e);
                    }
                }
                n
            }
        }
    }
}

/// What is read for a fetch is taken in from the front, until the fetch holds as many
/// events as it may or the next one would break its limit of bytes; only the very first
/// event may be larger than that by itself.
pub proof fn law_events_are_taken_in_until_the_fetch_is_full(
    this: &mut Gathered,
    read: Vec<(Event, u64)>,
)
    requires
        old(this).wf(),
        call_ensures(Gathered::absorb, (this, read), ()),
    ensures
        final(this).events.entries@.len() <= final(this).max_events,
        final(this).max_events == old(this).max_events,
        final(this).max_bytes == old(this).max_bytes,
        exists|n: int| #[trigger]
            takes_first(
                old(this).events@,
                old(this).events.entries@.len(),
                old(this).used_bytes,
                read@,
                old(this).max_events,
                old(this).max_bytes,
                (
                    final(this).events@,
                    final(this).events.entries@.len(),
                    final(this).used_bytes,
                ),
                n,
            ),
{
    let n = lemma_gather(
        old(this).events@,
        old(this).events.entries@.len(),
        old(this).used_bytes,
        read@,
        old(this).max_events,
        old(this).max_bytes,
    );
}

/// The room that is left for a fetch: events and bytes, and none where it holds all the
/// events it may.
pub proof fn law_room_is_what_is_left(g: Gathered, r: Option<(u32, u64)>)
    requires
        g.wf(),
        call_ensures(Gathered::room, (&g,), r),
    ensures
        r is None <==> g.events.entries@.len() == g.max_events,
        r matches Some(room) ==> room.0 + g.events.entries@.len() == g.max_events,
        r matches Some(room) ==> (g.used_bytes <= g.max_bytes ==> room.1 + g.used_bytes
            == g.max_bytes),
        r matches Some(room) ==> (g.used_bytes > g.max_bytes ==> room.1 == 0),
{
}

/// The reply's delivery is of this claim and shows this event.
pub open spec fn is_delivery_of(
    d: crate::persistent_fetch::PersistentDelivery,
    claim: Delivery,
    e: Event,
) -> bool {
    &&& d.delivery_id@.len() == 16 && big_endian(d.delivery_id@) == claim.delivery_id
    &&& d.attempt == claim.attempt
    &&& d.lease_deadline_ms == claim.deadline_ms
    &&& d.group_epoch == claim.group_epoch
    &&& d.replayed == claim.replayed
    &&& d.event.stream_id@ == e.stream_id@ && d.event.version == e.version
    &&& d.event.event_id@ == e.event_id@ && d.event.event_type@ == e.event_type@
    &&& d.event.data@ == e.data@ && d.event.metadata@ == e.metadata@ && d.event.hlc == e.hlc
}

proof fn lemma_matched(
    have: Map<(Seq<char>, u64), Event>,
    claims: Seq<Delivery>,
)
    ensures
        matched(have, claims).len() <= claims.len(),
        forall|i: int|
            0 <= i < matched(have, claims).len() ==> {
                let (c, e) = #[trigger] matched(have, claims)[i];
                &&& claims.contains(c)
                &&& have.dom().contains((c.stream_id@, c.version))
                &&& e == have[(c.stream_id@, c.version)]
            },
        (forall|i: int|
            0 <= i < claims.len() ==> have.dom().contains(
                ((#[trigger] claims[i]).stream_id@, claims[i].version),
            )) && (forall|i: int, j: int|
            0 <= i < j < claims.len() ==> (claims[i].stream_id@, claims[i].version) != (
                claims[j].stream_id@,
                claims[j].version,
            )) ==> matched(have, claims).len() == claims.len() && forall|i: int|
            0 <= i < claims.len() ==> (#[trigger] matched(have, claims)[i]).0 == claims[i],
    decreases claims.len(),
{
    if claims.len() > 0 {
        let c = claims[0];
        let key = (c.stream_id@, c.version);
        let rest = claims.skip(1);
        let got = matched(have, claims);
        assert forall|x: Delivery| #[trigger] rest.contains(x) implies claims.contains(x) by {
            let k = choose|k: int| 0 <= k < rest.len() && rest[k] == x;
            assert(claims[k + 1] == x);
        }
        assert(claims.contains(c));
        if have.dom().contains(key) {
            let left = have.remove(key);
            lemma_matched(left, rest);
            let more = matched(left, rest);
            assert(got == seq![(c, have[key])] + more);
            assert forall|i: int| 0 <= i < got.len() implies ({
                let (d, e) = #[trigger] got[i];
                &&& claims.contains(d)
                &&& have.dom().contains((d.stream_id@, d.version))
                &&& e == have[(d.stream_id@, d.version)]
            }) by {
                if i > 0 {
                    assert(got[i] == more[i - 1]);
                    assert(rest.contains(more[i - 1].0));
                    assert(left.dom().contains((more[i - 1].0.stream_id@, more[i - 1].0.version)));
                }
            }
            if (forall|i: int|
                0 <= i < claims.len() ==> have.dom().contains(
                    ((#[trigger] claims[i]).stream_id@, claims[i].version),
                )) && (forall|i: int, j: int|
                0 <= i < j < claims.len() ==> (claims[i].stream_id@, claims[i].version) != (
                    claims[j].stream_id@,
                    claims[j].version,
                )) {
                assert forall|i: int| 0 <= i < rest.len() implies left.dom().contains(
                    ((#[trigger] rest[i]).stream_id@, rest[i].version),
                ) by {
                    assert(rest[i] == claims[i + 1]);
                    assert((claims[0].stream_id@, claims[0].version) != (
                        claims[i + 1].stream_id@,
                        claims[i + 1].version,
                    ));
                }
                assert forall|i: int, j: int| 0 <= i < j < rest.len() implies (
                    rest[i].stream_id@,
                    rest[i].version,
                ) != (rest[j].stream_id@, rest[j].version) by {
                    assert((claims[i + 1].stream_id@, claims[i + 1].version) != (
                        claims[j + 1].stream_id@,
                        claims[j + 1].version,
                    ));
                }
                assert forall|i: int| 0 <= i < claims.len() implies (#[trigger] got[i]).0
                    == claims[i] by {
                    if i > 0 {
                        assert(got[i] == more[i - 1]);
                        assert(rest[i - 1] == claims[i]);
                    }
                }
            }
        } else {
            lemma_matched(have, rest);
            assert forall|i: int| 0 <= i < got.len() implies ({
                let (d, e) = #[trigger] got[i];
                &&& claims.contains(d)
                &&& have.dom().contains((d.stream_id@, d.version))
                &&& e == have[(d.stream_id@, d.version)]
            }) by {
                assert(rest.contains(got[i].0));
            }
        }
    }
}

/// Every delivery of a reply is one that was claimed and shows the event that was read for
/// it; and where every claim is of another event and each event was read, every claim is
/// delivered, in the order of the claims.
pub proof fn law_claims_are_delivered_with_their_events(
    events: VersionMap<Event>,
    claims: Vec<Delivery>,
    r: FetchResponse,
)
    requires
        call_ensures(claimed_reply, (events, claims), r),
    ensures
        !r.caught_up && !r.throttled && r.retry_after_ms == 0,
        forall|i: int|
            0 <= i < r.deliveries@.len() ==> is_delivery_of_some(
                #[trigger] r.deliveries@[i],
                claims@,
                events@,
            ),
        (forall|i: int|
            0 <= i < claims@.len() ==> events@.dom().contains(
                ((#[trigger] claims@[i]).stream_id@, claims@[i].version),
            )) && (forall|i: int, j: int|
            0 <= i < j < claims@.len() ==> (claims@[i].stream_id@, claims@[i].version) != (
                claims@[j].stream_id@,
                claims@[j].version,
            )) ==> r.deliveries@.len() == claims@.len() && forall|i: int|
            0 <= i < claims@.len() ==> is_delivery_of(
                #[trigger] r.deliveries@[i],
                claims@[i],
                events@[(claims@[i].stream_id@, claims@[i].version)],
            ),
{
    lemma_matched(events@, claims@);
    let got = matched(events@, claims@);
    assert forall|i: int| 0 <= i < r.deliveries@.len() implies is_delivery_of(
        #[trigger] r.deliveries@[i],
        got[i].0,
        got[i].1,
    ) by {
        assert(delivers(r.deliveries@[i], got[i].0, got[i].1));
    }
    assert forall|i: int| 0 <= i < r.deliveries@.len() implies is_delivery_of_some(
        #[trigger] r.deliveries@[i],
        claims@,
        events@,
    ) by {
        let c = got[i].0;
        assert(claims@.contains(c));
        let k = choose|k: int| 0 <= k < claims@.len() && claims@[k] == c;
        assert(is_delivery_of(
            r.deliveries@[i],
            claims@[k],
            events@[(claims@[k].stream_id@, claims@[k].version)],
        ));
    }
}

/// The reply's delivery is of one of the claims and shows the event that was read for it.
pub open spec fn is_delivery_of_some(
    d: crate::persistent_fetch::PersistentDelivery,
    claims: Seq<Delivery>,
    events: Map<(Seq<char>, u64), Event>,
) -> bool {
    exists|k: int|
        0 <= k < claims.len() && events.dom().contains(
            ((#[trigger] claims[k]).stream_id@, claims[k].version),
        ) && is_delivery_of(d, claims[k], events[(claims[k].stream_id@, claims[k].version)])
}

/// Every event that was read becomes a candidate under its stream, version and id; it is a
/// replayed one exactly where a retry of it says so.
pub proof fn law_every_event_read_becomes_a_candidate(
    events: VersionMap<Event>,
    retries: Map<(Seq<char>, u64), PendingRetry>,
    c: DeliveryCandidate,
    i: int,
)
    requires
        0 <= i < events.entries@.len(),
        is_candidate(c, events.entries@[i], retries),
    ensures
        c.stream_id@ == events.entries@[i].stream@,
        c.version == events.entries@[i].version,
        c.event_id == big_endian(events.entries@[i].value.event_id@),
        c.replayed <==> retries.dom().contains((c.stream_id@, c.version)) && retries[(
            c.stream_id@,
            c.version,
        )].replayed,
{
}


/// What a shard gave is taken in from the front, as far as the look may take it.
pub proof fn law_what_a_shard_gives_is_taken_in(
    g: Gathering,
    read: Vec<(Event, u64)>,
    after: Gathering,
)
    requires
        g.wf(),
        call_ensures(
            Gathering::on_events,
            (g, Ok::<Vec<(Event, u64)>, Status>(read)),
            Ok::<Gathering, Status>(after),
        ),
    ensures
        after.gathered.max_events == g.gathered.max_events,
        after.gathered.max_bytes == g.gathered.max_bytes,
        exists|n: int| #[trigger]
            takes_first(
                g.gathered.events@,
                g.gathered.events.entries@.len(),
                g.gathered.used_bytes,
                read@,
                g.gathered.max_events,
                g.gathered.max_bytes,
                (
                    after.gathered.events@,
                    after.gathered.events.entries@.len(),
                    after.gathered.used_bytes,
                ),
                n,
            ),
{
    let n = lemma_gather(
        g.gathered.events@,
        g.gathered.events.entries@.len(),
        g.gathered.used_bytes,
        read@,
        g.gathered.max_events,
        g.gathered.max_bytes,
    );
}


/// A look that claimed ends with the reply to its claims: each delivery is one that was
/// claimed and shows the event that was read for it, and every claim is delivered where
/// each is of another event that was read.
pub proof fn law_claims_end_the_look(
    events: VersionMap<Event>,
    claims: Vec<Delivery>,
    shown: &str,
    stage: LookStage,
)
    requires
        call_ensures(
            Look::on_claimed,
            (events, Ok::<GroupOutcome<Vec<Delivery>>, Status>(GroupOutcome::Done(claims)), shown),
            stage,
        ),
    ensures
        stage matches LookStage::Done(Ok(r)) && {
            &&& !r.caught_up && !r.throttled && r.retry_after_ms == 0
            &&& forall|i: int|
                0 <= i < r.deliveries@.len() ==> is_delivery_of_some(
                    #[trigger] r.deliveries@[i],
                    claims@,
                    events@,
                )
            &&& (forall|i: int|
                0 <= i < claims@.len() ==> events@.dom().contains(
                    ((#[trigger] claims@[i]).stream_id@, claims@[i].version),
                )) && (forall|i: int, j: int|
                0 <= i < j < claims@.len() ==> (claims@[i].stream_id@, claims@[i].version) != (
                    claims@[j].stream_id@,
                    claims@[j].version,
                )) ==> r.deliveries@.len() == claims@.len()
        },
{
    let r = stage->Done_0->Ok_0;
    let got = matched(events@, claims@);
    lemma_matched(events@, claims@);
    assert forall|i: int| 0 <= i < r.deliveries@.len() implies is_delivery_of_some(
        #[trigger] r.deliveries@[i],
        claims@,
        events@,
    ) by {
        let c = got[i].0;
        assert(delivers(r.deliveries@[i], c, got[i].1));
        assert(claims@.contains(c));
        let k = choose|k: int| 0 <= k < claims@.len() && claims@[k] == c;
        assert(is_delivery_of(
            r.deliveries@[i],
            claims@[k],
            events@[(claims@[k].stream_id@, claims@[k].version)],
        ));
    }
}


/// Stream `x` has its turn before stream `y`: behind the end of the last scan before all
/// others, and by their names among themselves.
pub open spec fn has_turn_before(after: Option<Seq<char>>, x: Seq<char>, y: Seq<char>) -> bool {
    match after {
        None => text_before(x, y),
        Some(a) => if text_before(a, x) && !text_before(a, y) {
            true
        } else if !text_before(a, x) && text_before(a, y) {
            false
        } else {
            text_before(x, y)
        },
    }
}

proof fn lemma_filter_increases(
    names: Seq<Seq<char>>,
    keep: spec_fn(Seq<char>) -> bool,
    a: int,
    b: int,
)
    requires
        texts_increase(names),
        0 <= a < b < names.filter(keep).len(),
    ensures
        text_before(names.filter(keep)[a], names.filter(keep)[b]),
    decreases names.len(),
{
    reveal(Seq::filter);
    if names.len() > 0 {
        let rest = names.drop_last();
        let was = rest.filter(keep);
        let n = names.len() - 1;
        assert(texts_increase(rest)) by {
            assert forall|i: int, j: int| 0 <= i < j < rest.len() implies text_before(
                #[trigger] rest[i],
                #[trigger] rest[j],
            ) by {
                assert(text_before(names[i], names[j]));
            }
        }
        if b < was.len() {
            lemma_filter_increases(rest, keep, a, b);
        } else {
            assert(was.contains(was[a]));
            lemma_filter_has(rest, keep, was[a]);
            let i = choose|i: int| 0 <= i < rest.len() && rest[i] == was[a];
            assert(text_before(names[i], names[n]));
        }
    }
}

proof fn lemma_in_turn(names: Seq<Seq<char>>, after: Option<Seq<char>>, i: int, j: int)
    requires
        texts_increase(names),
        0 <= i < j < scan_order(names, after).len(),
    ensures
        has_turn_before(after, scan_order(names, after)[i], scan_order(names, after)[j]),
{
    if let Some(a) = after {
        let behind = |y: Seq<char>| text_before(a, y);
        let others = |y: Seq<char>| !text_before(a, y);
        let p = names.filter(behind);
        let q = names.filter(others);
        let n = p.len();
        if i < n {
            assert(p.contains(p[i]));
            lemma_filter_has(names, behind, p[i]);
        } else {
            assert(q.contains(q[i - n]));
            lemma_filter_has(names, others, q[i - n]);
        }
        if j < n {
            assert(p.contains(p[j]));
            lemma_filter_has(names, behind, p[j]);
            lemma_filter_increases(names, behind, i, j);
        } else {
            assert(q.contains(q[j - n]));
            lemma_filter_has(names, others, q[j - n]);
            if i >= n {
                lemma_filter_increases(names, others, i - n, j - n);
            }
        }
    }
}

proof fn lemma_full_scan(s: Scan, order: Seq<Seq<char>>, j: int)
    requires
        0 <= j <= order.len(),
        scan_reads(s, order.take(j)).len() >= s.room,
    ensures
        scan_reads(s, order) == scan_reads(s, order.take(j)),
    decreases order.len() - j,
{
    if j == order.len() {
        assert(order.take(j) =~= order);
    } else {
        assert(order.take(j + 1).drop_last() =~= order.take(j));
        lemma_full_scan(s, order, j + 1);
    }
}

/// No stream that can be read is passed over for one that has its turn after it: first
/// those behind the end of the last scan, then the others, each by their names.
pub proof fn law_no_stream_is_passed_over_for_a_later_one(
    group: PersistentGroup,
    routes: TextMap<u64>,
    consumer_id: &str,
    max_events: u32,
    now: u64,
    plan: ReadPlan,
    x: Seq<char>,
    y: Seq<char>,
)
    requires
        group.wf(),
        call_ensures(plan_reads, (&group, &routes, consumer_id, max_events, now), plan),
        group.progress@.dom().contains(x),
        group.progress@.dom().contains(y),
        has_turn_before(
            match group.scan_after {
                Some(a) => Some(a@),
                None => None,
            },
            x,
            y,
        ),
        routes@.dom().contains(x),
        !has_due_retry(group, x, now),
        !next_waits_for_retry(group, x),
        !is_held_by_another(group, x, consumer_id@, now),
        !has_due_retry(group, y, now),
        asks_for(plan.requests@, y),
    ensures
        asks_for(plan.requests@, x),
{
    let s = scan_of(group, routes@, consumer_id@, max_events, now);
    let names = progress_names(group.progress);
    let after = match group.scan_after {
        Some(a) => Some(a@),
        None => None,
    };
    let order = scan_order(names, after);
    let reads = fetch_reads(group, routes@, consumer_id@, max_events, now);
    let scanned = scan_reads(s, order);
    lemma_plan(group, routes, consumer_id, max_events, now, plan);
    lemma_is_due(group, routes@, now, x);
    lemma_is_due(group, routes@, now, y);
    lemma_names(group, x);
    lemma_names(group, y);
    lemma_scan_order(names, after, x);
    lemma_scan_order(names, after, y);
    assert(texts_increase(names)) by {
        assert forall|i: int, j: int| 0 <= i < j < names.len() implies text_before(
            #[trigger] names[i],
            #[trigger] names[j],
        ) by {
            assert(group.progress.wf());
            assert(names[i] == group.progress.key(i) && names[j] == group.progress.key(j));
        }
    }
    lemma_open_is(group, routes@, consumer_id@, max_events, now, x);
    let i = choose|i: int| 0 <= i < order.len() && order[i] == x;
    let j = choose|j: int| 0 <= j < order.len() && order[j] == y;
    lemma_text_order_total(x, y);
    if j < i {
        lemma_in_turn(names, after, j, i);
    }
    assert(i < j);
    let requests = plan.requests@;
    let (g, m) = choose|g: int, m: int|
        0 <= g < requests.len() && 0 <= m < requests[g].1@.len() && (
        #[trigger] requests[g].1@[m]).stream_id@ == y;
    let c = requests[g].1@[m]@;
    assert(asks(requests, requests[g].0, c.stream, c.from_version, c.max_count)) by {
        assert(requests[g].1@[m].stream_id@ == c.stream);
    }
    assert(reads.contains((requests[g].0, c)));
    let k = choose|k: int| 0 <= k < reads.len() && reads[k] == (requests[g].0, c);
    if k < s.due.len() {
        assert(s.due[k].1.stream == y);
        assert(is_read(s.due, y));
    }
    assert(scanned[k - s.due.len()] == (requests[g].0, c));
    assert(scanned.contains((requests[g].0, c)));
    let upto = order.take(j);
    let read = stream_read(s, x);
    if scan_reads(s, upto).len() >= s.room {
        lemma_full_scan(s, order, j);
        lemma_scan(s, upto, requests[g].0, c);
        assert(upto.contains(y));
        let t = choose|t: int| 0 <= t < upto.len() && upto[t] == y;
        lemma_in_turn(names, after, t, j);
        assert(order[t] == y);
        lemma_text_order_total(y, y);
    }
    lemma_scan(s, upto, read.0, read.1);
    assert(upto[i] == x);
    assert(upto.contains(x));
    assert(scan_reads(s, upto).contains(stream_read(s, x)));
    lemma_scan_grows(s, order, j, read);
    let n = choose|n: int| 0 <= n < scanned.len() && scanned[n] == read;
    assert(reads[s.due.len() + n] == read);
    assert(reads.contains((read.0, read.1)));
    assert(asks(requests, read.0, read.1.stream, read.1.from_version, read.1.max_count));
    let (u, v) = choose|u: int, v: int|
        0 <= u < requests.len() && 0 <= v < requests[u].1@.len() && requests[u].0 == read.0 && (
        #[trigger] requests[u].1@[v]).stream_id@ == read.1.stream && requests[u].1@[v].from_version
            == read.1.from_version && requests[u].1@[v].max_count == read.1.max_count;
    assert(requests[u].1@[v].stream_id@ == x);
}

/// A stream can be read where it is routed and nothing speaks against it.
proof fn lemma_open_is(
    group: PersistentGroup,
    routes: Map<Seq<char>, u64>,
    consumer: Seq<char>,
    max_events: u32,
    now: u64,
    x: Seq<char>,
)
    requires
        group.wf(),
        group.progress@.dom().contains(x),
        routes.dom().contains(x),
        !has_due_retry(group, x, now),
        !next_waits_for_retry(group, x),
        !is_held_by_another(group, x, consumer, now),
    ensures
        is_open(scan_of(group, routes, consumer, max_events, now), x),
{
    lemma_is_due(group, routes, now, x);
    let next = group.progress@[x].next_version;
    let m = group.pending_retries;
    if m@.dom().contains((x, next)) {
        let i = m.index((x, next));
        assert(0 <= i < m.entries@.len() && m.key(i) == (x, next));
        assert(m.entries@[i].stream@ == x);
    }
}


/// Candidates are named after the events that were read, each after its own and in their
/// order, and only if every one of the events has an id.
pub proof fn law_candidates_are_named_after_their_events(
    events: VersionMap<Event>,
    retries: VersionMap<PendingRetry>,
    r: Result<Vec<DeliveryCandidate>, Status>,
    i: int,
)
    requires
        call_ensures(candidates_of, (&events, &retries), r),
        0 <= i < events.entries@.len(),
    ensures
        events.entries@[i].value.event_id@.len() != 16 ==> r is Err,
        r matches Ok(out) ==> {
            &&& out@.len() == events.entries@.len()
            &&& out@[i].stream_id@ == events.entries@[i].stream@
            &&& out@[i].version == events.entries@[i].version
            &&& out@[i].event_id == big_endian(events.entries@[i].value.event_id@)
            &&& out@[i].replayed <==> retries@.dom().contains((out@[i].stream_id@, out@[i].version))
                && retries@[(out@[i].stream_id@, out@[i].version)].replayed
        },
{
    if let Ok(out) = r {
        assert(is_candidate(out@[i], events.entries@[i], retries@));
    }
}

} // verus!
