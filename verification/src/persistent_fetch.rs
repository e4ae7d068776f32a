//! Fetching: which events a consumer of a group gets next.

use vstd::prelude::*;

use crate::backlog::{CursorView, PersistentCursor, capped_sum, cursor_views};
use crate::event::{Event, SubscriptionEvent, projects, public_subscription_event};
use crate::ids::{big_endian, id_bytes, parse_id, uuid_random};
use crate::maps::TextMap;
use crate::order::{distinct, lists};
use crate::persistent_group::{Delivery, PendingRetry, PersistentGroup, StreamProgress};
use crate::status::{Code, Status, says};
use crate::text::{same_text, text_before, text_less};
use crate::versions::{Entry, VersionMap};

verus! {

/// Most events of one stream in one fetch.
pub const MAX_EVENTS_PER_STREAM_PER_FETCH: u32 = 32;

/// The reads for the retries that are due, in the order of the retries; a stream
/// without a route is left out.
pub open spec fn due_reads(
    retries: Seq<Entry<PendingRetry>>,
    routes: Map<Seq<char>, u64>,
    now: u64,
) -> Seq<(u64, CursorView)>
    decreases retries.len(),
{
    if retries.len() == 0 {
        Seq::empty()
    } else {
        let rest = due_reads(retries.drop_last(), routes, now);
        let r = retries.last();
        if r.value.not_before_ms > now || !routes.dom().contains(r.stream@) {
            rest
        } else {
            rest.push(
                (
                    routes[r.stream@],
                    CursorView { stream: r.stream@, from_version: r.version, max_count: 1 },
                ),
            )
        }
    }
}

/// When the next retry that is not yet due will be.
pub open spec fn next_retry(retries: Seq<Entry<PendingRetry>>, now: u64) -> Option<u64>
    decreases retries.len(),
{
    if retries.len() == 0 {
        None
    } else {
        let rest = next_retry(retries.drop_last(), now);
        let at = retries.last().value.not_before_ms;
        if at <= now {
            rest
        } else {
            match rest {
                Some(t) if t < at => Some(t),
                _ => Some(at),
            }
        }
    }
}

/// One of the reads is of the stream.
pub open spec fn is_read(reads: Seq<(u64, CursorView)>, stream: Seq<char>) -> bool {
    exists|i: int| 0 <= i < reads.len() && (#[trigger] reads[i]).1.stream == stream
}

/// The versions of the stream that consumers have been given.
pub open spec fn given_versions(deliveries: Seq<Delivery>, stream: Seq<char>) -> Seq<u64>
    decreases deliveries.len(),
{
    if deliveries.len() == 0 {
        Seq::empty()
    } else {
        let rest = given_versions(deliveries.drop_last(), stream);
        if deliveries.last().stream_id@ == stream {
            rest.push(deliveries.last().version)
        } else {
            rest
        }
    }
}

/// The smallest version that is not below `base` and beyond each of `versions` (the
/// largest version has none beyond it).
pub open spec fn beyond(base: u64, versions: Seq<u64>) -> u64
    decreases versions.len(),
{
    if versions.len() == 0 {
        base
    } else {
        let rest = beyond(base, versions.drop_last());
        let next = capped_sum(versions.last(), 1);
        if next > rest {
            next
        } else {
            rest
        }
    }
}

/// Where reading a stream goes on: beyond all that is settled or given.
pub open spec fn resume_at(p: StreamProgress, deliveries: Seq<Delivery>, stream: Seq<char>) -> u64 {
    beyond(p.next_version, p.resolved_gaps@ + given_versions(deliveries, stream))
}

/// What a scan over the streams of a group goes by.
pub struct Scan {
    pub progress: Map<Seq<char>, StreamProgress>,
    pub retries: Map<(Seq<char>, u64), PendingRetry>,
    pub deliveries: Seq<Delivery>,
    pub routes: Map<Seq<char>, u64>,
    pub due: Seq<(u64, CursorView)>,
    pub consumer: Seq<char>,
    pub now: u64,
    /// How many streams may be read.
    pub room: u32,
}

/// The stream is read: no due retry reads it, no other consumer holds it, its next
/// version is not waiting to be retried, and it has a route.
pub open spec fn is_open(s: Scan, stream: Seq<char>) -> bool {
    let p = s.progress[stream];
    &&& !is_read(s.due, stream)
    &&& !(p.lease matches Some(l) && l.consumer_id@ != s.consumer && l.deadline_ms > s.now)
    &&& !s.retries.dom().contains((stream, p.next_version))
    &&& s.routes.dom().contains(stream)
}

/// The read of a stream.
pub open spec fn stream_read(s: Scan, stream: Seq<char>) -> (u64, CursorView) {
    (
        s.routes[stream],
        CursorView {
            stream,
            from_version: resume_at(s.progress[stream], s.deliveries, stream),
            max_count: if s.room < 1 {
                1
            } else if s.room < MAX_EVENTS_PER_STREAM_PER_FETCH {
                s.room
            } else {
                MAX_EVENTS_PER_STREAM_PER_FETCH
            },
        },
    )
}

/// The reads of the open streams among `streams`, up to the room there is.
pub open spec fn scan_reads(s: Scan, streams: Seq<Seq<char>>) -> Seq<(u64, CursorView)>
    decreases streams.len(),
{
    if streams.len() == 0 {
        Seq::empty()
    } else {
        let rest = scan_reads(s, streams.drop_last());
        if rest.len() < s.room && is_open(s, streams.last()) {
            rest.push(stream_read(s, streams.last()))
        } else {
            rest
        }
    }
}

/// The order of a scan: first the streams behind the one where the last scan ended,
/// then the others.
pub open spec fn scan_order(names: Seq<Seq<char>>, after: Option<Seq<char>>) -> Seq<Seq<char>> {
    match after {
        None => names,
        Some(a) => names.filter(|x: Seq<char>| text_before(a, x)) + names.filter(
            |x: Seq<char>| !text_before(a, x),
        ),
    }
}

/// The names of the streams, in ascending order.
pub open spec fn progress_names(p: TextMap<StreamProgress>) -> Seq<Seq<char>> {
    p.entries@.map_values(|e: (String, StreamProgress)| e.0@)
}

/// The scan of a group for a consumer.
pub open spec fn scan_of(
    group: PersistentGroup,
    routes: Map<Seq<char>, u64>,
    consumer: Seq<char>,
    max_events: u32,
    now: u64,
) -> Scan {
    let due = due_reads(group.pending_retries.entries@, routes, now);
    Scan {
        progress: group.progress@,
        retries: group.pending_retries@,
        deliveries: group.deliveries@,
        routes,
        due,
        consumer,
        now,
        room: if due.len() >= max_events {
            0
        } else {
            (max_events - due.len()) as u32
        },
    }
}

/// All reads of a fetch: those for the retries that are due, then those of the scan.
pub open spec fn fetch_reads(
    group: PersistentGroup,
    routes: Map<Seq<char>, u64>,
    consumer: Seq<char>,
    max_events: u32,
    now: u64,
) -> Seq<(u64, CursorView)> {
    let s = scan_of(group, routes, consumer, max_events, now);
    s.due + scan_reads(
        s,
        scan_order(
            progress_names(group.progress),
            match group.scan_after {
                Some(a) => Some(a@),
                None => None,
            },
        ),
    )
}

/// The reads that go to a shard, in order.
pub open spec fn reads_on(reads: Seq<(u64, CursorView)>, shard: u64) -> Seq<CursorView>
    decreases reads.len(),
{
    if reads.len() == 0 {
        Seq::empty()
    } else {
        let rest = reads_on(reads.drop_last(), shard);
        if reads.last().0 == shard {
            rest.push(reads.last().1)
        } else {
            rest
        }
    }
}

/// Contents of a list of reads.
pub open spec fn read_views(v: Seq<(u64, PersistentCursor)>) -> Seq<(u64, CursorView)> {
    v.map_values(|p: (u64, PersistentCursor)| (p.0, p.1@))
}

fn reads_stream(reads: &Vec<(u64, PersistentCursor)>, stream: &str) -> (r: bool)
    ensures
        r == is_read(read_views(reads@), stream@),
{
    let mut i: usize = 0;
    while i < reads.len()
        invariant
            i <= reads@.len(),
            forall|k: int|
                0 <= k < i ==> (#[trigger] read_views(reads@)[k]).1.stream != stream@,
        decreases reads@.len() - i,
    {
        assert(read_views(reads@)[i as int].1.stream == reads@[i as int].1.stream_id@);
        if same_text(reads[i].1.stream_id.as_str(), stream) {
            return true;
        }
        i += 1;
    }
    false
}

fn resume_version(p: &StreamProgress, deliveries: &Vec<Delivery>, stream: &str) -> (v: u64)
    ensures
        v == resume_at(*p, deliveries@, stream@),
{
    let mut v: u64 = p.next_version;
    let ghost gaps = p.resolved_gaps@;
    let ghost given = given_versions(deliveries@, stream@);
    let mut i: usize = 0;
    proof {
        assert(gaps.take(0) =~= Seq::<u64>::empty());
    }
    while i < p.resolved_gaps.len()
        invariant
            i <= gaps.len(),
            gaps == p.resolved_gaps@,
            v == beyond(p.next_version, gaps.take(i as int)),
        decreases gaps.len() - i,
    {
        proof {
            assert(gaps.take(i + 1).drop_last() =~= gaps.take(i as int));
        }
        let next: u64 = p.resolved_gaps[i].saturating_add(1);
        if next > v {
            v = next;
        }
        i += 1;
    }
    let mut i: usize = 0;
    proof {
        assert(gaps.take(gaps.len() as int) =~= gaps);
        assert(deliveries@.take(0) =~= Seq::<Delivery>::empty());
        assert(gaps + given_versions(deliveries@.take(0), stream@) =~= gaps);
    }
    while i < deliveries.len()
        invariant
            i <= deliveries@.len(),
            v == beyond(
                p.next_version,
                gaps + given_versions(deliveries@.take(i as int), stream@),
            ),
        decreases deliveries@.len() - i,
    {
        proof {
            assert(deliveries@.take(i + 1).drop_last() =~= deliveries@.take(i as int));
        }
        if same_text(deliveries[i].stream_id.as_str(), stream) {
            let next: u64 = deliveries[i].version.saturating_add(1);
            proof {
                let rest = gaps + given_versions(deliveries@.take(i as int), stream@);
                let all = gaps + given_versions(deliveries@.take(i + 1), stream@);
                assert(all.drop_last() =~= rest);
                assert(all.last() == deliveries@[i as int].version);
            }
            if next > v {
                v = next;
            }
        }
        i += 1;
    }
    proof {
        assert(deliveries@.take(deliveries@.len() as int) =~= deliveries@);
    }
    v
}

/// The reads of a fetch by shard, shards in ascending order, and when the next retry
/// that is not yet due will be.
#[derive(Debug)]
pub struct ReadPlan {
    pub requests: Vec<(u64, Vec<PersistentCursor>)>,
    pub next_retry: Option<u64>,
}

fn scan_one(
    group: &PersistentGroup,
    routes: &TextMap<u64>,
    due: &Vec<(u64, PersistentCursor)>,
    consumer_id: &str,
    now: u64,
    room: u32,
    i: usize,
    Ghost(s): Ghost<Scan>,
) -> (r: Option<(u64, PersistentCursor)>)
    requires
        group.wf(),
        routes.wf(),
        i < group.progress.entries@.len(),
        s.progress == group.progress@,
        s.retries == group.pending_retries@,
        s.deliveries == group.deliveries@,
        s.routes == routes@,
        s.due == read_views(due@),
        s.consumer == consumer_id@,
        s.now == now,
        s.room == room,
    ensures
        ({
            let name = group.progress.entries@[i as int].0@;
            match r {
                Some(pair) => is_open(s, name) && (pair.0, pair.1@) == stream_read(s, name),
                None => !is_open(s, name),
            }
        }),
{
    let stream = group.progress.entries[i].0.as_str();
    let p = &group.progress.entries[i].1;
    proof {
        group.progress.lemma_entry(i as int);
        assert(group.progress.key(i as int) == stream@);
    }
    if reads_stream(due, stream) {
        return None;
    }
    let held_elsewhere = match &p.lease {
        Some(l) => l.deadline_ms > now && !same_text(l.consumer_id.as_str(), consumer_id),
        None => false,
    };
    if held_elsewhere {
        return None;
    }
    if group.pending_retries.get(stream, p.next_version).is_some() {
        return None;
    }
    match routes.get(stream) {
        None => None,
        Some(shard) => {
            let from_version: u64 = resume_version(p, &group.deliveries, stream);
            let max_count: u32 = if room < 1 {
                1
            } else if room < MAX_EVENTS_PER_STREAM_PER_FETCH {
                room
            } else {
                MAX_EVENTS_PER_STREAM_PER_FETCH
            };
            Some(
                (
                    *shard,
                    PersistentCursor { stream_id: String::from_str(stream), from_version, max_count },
                ),
            )
        },
    }
}

fn group_reads(reads: &Vec<(u64, PersistentCursor)>) -> (groups: Vec<
    (u64, Vec<PersistentCursor>),
>)
    ensures
        lists(
            groups@.map_values(|g: (u64, Vec<PersistentCursor>)| g.0),
            read_views(reads@).map_values(|p: (u64, CursorView)| p.0).to_set(),
        ),
        forall|i: int|
            0 <= i < groups@.len() ==> cursor_views((#[trigger] groups@[i]).1@) == reads_on(
                read_views(reads@),
                groups@[i].0,
            ),
{
    let ghost views = read_views(reads@);
    let mut ids: Vec<u64> = Vec::new();
    let mut i: usize = 0;
    while i < reads.len()
        invariant
            i <= reads@.len(),
            ids@.len() == i,
            forall|k: int| 0 <= k < i ==> #[trigger] ids@[k] == reads@[k].0,
        decreases reads@.len() - i,
    {
        ids.push(reads[i].0);
        i += 1;
    }
    assert(ids@ =~= views.map_values(|p: (u64, CursorView)| p.0));
    let shards = distinct(&ids);
    let mut groups: Vec<(u64, Vec<PersistentCursor>)> = Vec::new();
    let mut k: usize = 0;
    while k < shards.len()
        invariant
            k <= shards@.len(),
            views == read_views(reads@),
            groups@.len() == k,
            forall|j: int| 0 <= j < k ==> (#[trigger] groups@[j]).0 == shards@[j],
            forall|j: int|
                0 <= j < k ==> cursor_views((#[trigger] groups@[j]).1@) == reads_on(
                    views,
                    shards@[j],
                ),
        decreases shards@.len() - k,
    {
        let shard = shards[k];
        let mut out: Vec<PersistentCursor> = Vec::new();
        let mut n: usize = 0;
        proof {
            assert(cursor_views(out@) =~= reads_on(views.take(0), shard));
        }
        while n < reads.len()
            invariant
                n <= reads@.len(),
                views == read_views(reads@),
                cursor_views(out@) == reads_on(views.take(n as int), shard),
            decreases reads@.len() - n,
        {
            proof {
                assert(views.take(n + 1).drop_last() =~= views.take(n as int));
                assert(views.take(n + 1).last() == (reads@[n as int].0, reads@[n as int].1@));
            }
            if reads[n].0 == shard {
                let ghost was = out@;
                let c = PersistentCursor {
                    stream_id: reads[n].1.stream_id.clone(),
                    from_version: reads[n].1.from_version,
                    max_count: reads[n].1.max_count,
                };
                out.push(c);
                assert(cursor_views(out@) =~= cursor_views(was).push(c@));
            }
            n += 1;
        }
        proof {
            assert(views.take(views.len() as int) =~= views);
        }
        groups.push((shard, out));
        k += 1;
    }
    assert(groups@.map_values(|g: (u64, Vec<PersistentCursor>)| g.0) =~= shards@);
    groups
}

/// Decides what to read for a fetch: first the retries that are due, then open
/// streams, beginning behind the stream where the last scan ended.
pub fn plan_reads(
    group: &PersistentGroup,
    routes: &TextMap<u64>,
    consumer_id: &str,
    max_events: u32,
    now: u64,
) -> (plan: ReadPlan)
    requires
        group.wf(),
        routes.wf(),
    ensures
        ({
            let reads = fetch_reads(*group, routes@, consumer_id@, max_events, now);
            &&& lists(
                plan.requests@.map_values(|g: (u64, Vec<PersistentCursor>)| g.0),
                reads.map_values(|p: (u64, CursorView)| p.0).to_set(),
            )
            &&& forall|i: int|
                0 <= i < plan.requests@.len() ==> cursor_views((#[trigger] plan.requests@[i]).1@)
                    == reads_on(reads, plan.requests@[i].0)
        }),
        plan.next_retry == next_retry(group.pending_retries.entries@, now),
{
    let ghost retries = group.pending_retries.entries@;
    let mut due: Vec<(u64, PersistentCursor)> = Vec::new();
    let mut next: Option<u64> = None;
    let mut i: usize = 0;
    proof {
        assert(retries.take(0) =~= Seq::<Entry<PendingRetry>>::empty());
        assert(read_views(due@) =~= Seq::<(u64, CursorView)>::empty());
    }
    while i < group.pending_retries.entries.len()
        invariant
            i <= retries.len(),
            retries == group.pending_retries.entries@,
            routes.wf(),
            read_views(due@) == due_reads(retries.take(i as int), routes@, now),
            next == next_retry(retries.take(i as int), now),
        decreases retries.len() - i,
    {
        let r = &group.pending_retries.entries[i];
        proof {
            assert(retries.take(i + 1).drop_last() =~= retries.take(i as int));
            assert(retries.take(i + 1).last() == *r);
        }
        if r.value.not_before_ms > now {
            next = match next {
                Some(t) => if t < r.value.not_before_ms {
                    Some(t)
                } else {
                    Some(r.value.not_before_ms)
                },
                None => Some(r.value.not_before_ms),
            };
        } else {
            if let Some(shard) = routes.get(r.stream.as_str()) {
                let ghost was = due@;
                let c = PersistentCursor {
                    stream_id: r.stream.clone(),
                    from_version: r.version,
                    max_count: 1,
                };
                let pair = (*shard, c);
                due.push(pair);
                assert(read_views(due@) =~= read_views(was).push((pair.0, pair.1@)));
            }
        }
        i += 1;
    }
    proof {
        assert(retries.take(retries.len() as int) =~= retries);
    }
    let ghost due_views = read_views(due@);
    let room: u32 = if due.len() >= max_events as usize {
        0
    } else {
        max_events - due.len() as u32
    };
    let ghost s = scan_of(*group, routes@, consumer_id@, max_events, now);
    let ghost names = progress_names(group.progress);
    let mut scanned: Vec<(u64, PersistentCursor)> = Vec::new();
    // A pass over the names picks those that it is the turn of: all of them where no
    // scan ended before; else first those behind, then the others.
    let ghost mut order: Seq<Seq<char>> = Seq::empty();
    let mut pass: usize = 0;
    let passes: usize = if group.scan_after.is_some() {
        2
    } else {
        1
    };
    proof {
        assert(read_views(scanned@) =~= scan_reads(s, order));
    }
    while pass < passes
        invariant
            pass <= passes,
            passes == (if group.scan_after is Some {
                2usize
            } else {
                1usize
            }),
            group.wf(),
            routes.wf(),
            s == scan_of(*group, routes@, consumer_id@, max_events, now),
            s.due == read_views(due@),
            s.room == room,
            names == progress_names(group.progress),
            read_views(scanned@) == scan_reads(s, order),
            order == (match group.scan_after {
                None => if pass == 0 {
                    Seq::empty()
                } else {
                    names
                },
                Some(a) => if pass == 0 {
                    Seq::empty()
                } else if pass == 1 {
                    names.filter(|x: Seq<char>| text_before(a@, x))
                } else {
                    names.filter(|x: Seq<char>| text_before(a@, x)) + names.filter(
                        |x: Seq<char>| !text_before(a@, x),
                    )
                },
            }),
        decreases passes - pass,
    {
        let ghost start = order;
        let ghost turn = |x: Seq<char>|
            match group.scan_after {
                None => true,
                Some(a) => (pass == 0) == text_before(a@, x),
            };
        let mut k: usize = 0;
        proof {
            reveal(Seq::filter);
            assert(names.take(0) =~= Seq::<Seq<char>>::empty());
            assert(start + names.take(0).filter(turn) =~= start);
        }
        while k < group.progress.entries.len()
            invariant
                k <= group.progress.entries@.len(),
                group.wf(),
                routes.wf(),
                s == scan_of(*group, routes@, consumer_id@, max_events, now),
                s.due == read_views(due@),
                s.room == room,
                names == progress_names(group.progress),
                turn == (|x: Seq<char>|
                    match group.scan_after {
                        None => true,
                        Some(a) => (pass == 0) == text_before(a@, x),
                    }),
                order == start + names.take(k as int).filter(turn),
                read_views(scanned@) == scan_reads(s, order),
            decreases group.progress.entries@.len() - k,
        {
            let its_turn = match &group.scan_after {
                None => true,
                Some(a) => (pass == 0) == text_less(
                    a.as_str(),
                    group.progress.entries[k].0.as_str(),
                ),
            };
            let ghost name = group.progress.entries@[k as int].0@;
            let ghost before = order;
            proof {
                reveal(Seq::filter);
                assert(names.take(k + 1).drop_last() =~= names.take(k as int));
                assert(names.take(k + 1).last() == name);
                assert(its_turn == turn(name));
            }
            if its_turn {
                proof {
                    order = before.push(name);
                    assert(order.drop_last() =~= before);
                    assert(start + names.take(k + 1).filter(turn) =~= order);
                }
                if (scanned.len() as u64) < room as u64 {
                    let read = scan_one(
                        group,
                        routes,
                        &due,
                        consumer_id,
                        now,
                        room,
                        k,
                        Ghost(s),
                    );
                    if let Some(pair) = read {
                        let ghost was = scanned@;
                        scanned.push(pair);
                        assert(read_views(scanned@) =~= read_views(was).push((pair.0, pair.1@)));
                    }
                }
            } else {
                proof {
                    assert(start + names.take(k + 1).filter(turn) =~= order);
                }
            }
            k += 1;
        }
        proof {
            assert(names.take(names.len() as int) =~= names);
            match &group.scan_after {
                None => {
                    lemma_filter_all(names, turn);
                    assert(order =~= names);
                },
                Some(a) => {
                    if pass == 0 {
                        assert(turn =~= (|x: Seq<char>| text_before(a@, x)));
                        assert(order =~= names.filter(|x: Seq<char>| text_before(a@, x)));
                    } else {
                        assert(turn =~= (|x: Seq<char>| !text_before(a@, x)));
                    }
                },
            }
        }
        pass += 1;
    }
    let ghost first = due@;
    let mut reads = due;
    let ghost second = scanned@;
    reads.append(&mut scanned);
    proof {
        assert(read_views(reads@) =~= read_views(first) + read_views(second));
    }
    ReadPlan { requests: group_reads(&reads), next_retry: next }
}

proof fn lemma_filter_all(s: Seq<Seq<char>>, f: spec_fn(Seq<char>) -> bool)
    requires
        forall|x: Seq<char>| #[trigger] f(x),
    ensures
        s.filter(f) == s,
    decreases s.len(),
{
    reveal(Seq::filter);
    if s.len() > 0 {
        lemma_filter_all(s.drop_last(), f);
        assert(s =~= s.drop_last().push(s.last()));
    } else {
        assert(s.filter(f) =~= s);
    }
}

proof fn lemma_beyond(base: u64, versions: Seq<u64>)
    ensures
        beyond(base, versions) >= base,
        forall|i: int|
            0 <= i < versions.len() ==> beyond(base, versions) > #[trigger] versions[i]
                || versions[i] == u64::MAX,
    decreases versions.len(),
{
    if versions.len() > 0 {
        let rest = versions.drop_last();
        lemma_beyond(base, rest);
        assert forall|i: int| 0 <= i < versions.len() implies beyond(base, versions)
            > #[trigger] versions[i] || versions[i] == u64::MAX by {
            if i < rest.len() {
                assert(rest[i] == versions[i]);
            }
        }
    }
}

proof fn lemma_given(deliveries: Seq<Delivery>, i: int)
    requires
        0 <= i < deliveries.len(),
    ensures
        given_versions(deliveries, deliveries[i].stream_id@).contains(deliveries[i].version),
    decreases deliveries.len(),
{
    let stream = deliveries[i].stream_id@;
    let rest = given_versions(deliveries.drop_last(), stream);
    let all = given_versions(deliveries, stream);
    if i == deliveries.len() - 1 {
        assert(all[rest.len() as int] == deliveries[i].version);
    } else {
        assert(deliveries.drop_last()[i] == deliveries[i]);
        lemma_given(deliveries.drop_last(), i);
        let k = choose|k: int| 0 <= k < rest.len() && rest[k] == deliveries[i].version;
        assert(all[k] == deliveries[i].version);
    }
}

/// A scan reads a stream only from beyond what the group has settled and what its
/// consumers have been given.  (Nothing lies beyond the largest version.)
pub proof fn law_scan_reads_beyond_settled_and_given(
    p: StreamProgress,
    deliveries: Seq<Delivery>,
    stream: Seq<char>,
)
    ensures
        resume_at(p, deliveries, stream) >= p.next_version,
        forall|i: int|
            0 <= i < p.resolved_gaps@.len() ==> resume_at(p, deliveries, stream)
                > #[trigger] p.resolved_gaps@[i] || p.resolved_gaps@[i] == u64::MAX,
        forall|i: int|
            0 <= i < deliveries.len() && (#[trigger] deliveries[i]).stream_id@ == stream
                ==> resume_at(p, deliveries, stream) > deliveries[i].version
                || deliveries[i].version == u64::MAX,
{
    let gaps = p.resolved_gaps@;
    let given = given_versions(deliveries, stream);
    let all = gaps + given;
    lemma_beyond(p.next_version, all);
    assert forall|i: int| 0 <= i < gaps.len() implies resume_at(p, deliveries, stream)
        > #[trigger] gaps[i] || gaps[i] == u64::MAX by {
        assert(all[i] == gaps[i]);
    }
    assert forall|i: int|
        0 <= i < deliveries.len() && (#[trigger] deliveries[i]).stream_id@ == stream implies
        resume_at(p, deliveries, stream) > deliveries[i].version || deliveries[i].version
        == u64::MAX by {
        lemma_given(deliveries, i);
        let k = choose|k: int| 0 <= k < given.len() && given[k] == deliveries[i].version;
        assert(all[gaps.len() + k] == given[k]);
    }
}

/// Events that were read for a fetch.
#[derive(Debug)]
pub struct Gathered {
    pub max_events: u32,
    pub max_bytes: u64,
    pub events: VersionMap<Event>,
    pub used_bytes: u64,
}

/// What a fetch that holds `n` events of `used` bytes keeps of further ones, each with
/// its size: the events by stream and version, how many they are, and their bytes.
pub open spec fn gather(
    have: Map<(Seq<char>, u64), Event>,
    n: nat,
    used: u64,
    read: Seq<(Event, u64)>,
    max_events: u32,
    max_bytes: u64,
) -> (Map<(Seq<char>, u64), Event>, nat, u64)
    decreases read.len(),
{
    if read.len() == 0 {
        (have, n, used)
    } else {
        let (e, bytes) = read[0];
        let sum = capped_sum(used, bytes);
        let key = (e.stream_id@, e.version);
        if n > 0 && sum > max_bytes {
            (have, n, used)
        } else {
            let more = have.insert(key, e);
            let m = if have.dom().contains(key) {
                n
            } else {
                n + 1
            };
            if m >= max_events {
                (more, m, sum)
            } else {
                gather(more, m, sum, read.skip(1), max_events, max_bytes)
            }
        }
    }
}

impl Gathered {
    pub open spec fn wf(&self) -> bool {
        self.events.wf() && self.events.entries@.len() <= self.max_events
    }

    /// Nothing read yet.
    pub fn new(max_events: u32, max_bytes: u64) -> (g: Gathered)
        ensures
            g.wf(),
            g.max_events == max_events,
            g.max_bytes == max_bytes,
            g.events@ == Map::<(Seq<char>, u64), Event>::empty(),
            g.events.entries@.len() == 0,
            g.used_bytes == 0,
    {
        Gathered { max_events, max_bytes, events: VersionMap::new(), used_bytes: 0 }
    }

    /// How many events and bytes the next read may give; `None` if the fetch is full.
    pub fn room(&self) -> (r: Option<(u32, u64)>)
        requires
            self.wf(),
        ensures
            r == (if self.events.entries@.len() == self.max_events {
                None
            } else {
                Some(
                    (
                        (self.max_events - self.events.entries@.len()) as u32,
                        if self.used_bytes >= self.max_bytes {
                            0u64
                        } else {
                            (self.max_bytes - self.used_bytes) as u64
                        },
                    ),
                )
            }),
    {
        let left: u32 = self.max_events - self.events.entries.len() as u32;
        if left == 0 {
            None
        } else {
            Some((left, self.max_bytes.saturating_sub(self.used_bytes)))
        }
    }

    /// Takes the events of a read as far as they fit, each with its encoded size.
    pub fn absorb(&mut self, read: Vec<(Event, u64)>)
        requires
            old(self).wf(),
            old(self).events.entries@.len() < old(self).max_events,
        ensures
            final(self).wf(),
            final(self).max_events == old(self).max_events,
            final(self).max_bytes == old(self).max_bytes,
            (final(self).events@, final(self).events.entries@.len(), final(self).used_bytes)
                == gather(
                old(self).events@,
                old(self).events.entries@.len(),
                old(self).used_bytes,
                read@,
                old(self).max_events,
                old(self).max_bytes,
            ),
    {
        let ghost goal = gather(
            self.events@,
            self.events.entries@.len(),
            self.used_bytes,
            read@,
            self.max_events,
            self.max_bytes,
        );
        proof {
            assert(read@.skip(0) =~= read@);
        }
        for pair in it: read
            invariant
                it.seq() == read@,
                self.wf(),
                self.events.entries@.len() < self.max_events,
                self.max_events == old(self).max_events,
                self.max_bytes == old(self).max_bytes,
                goal == gather(
                    old(self).events@,
                    old(self).events.entries@.len(),
                    old(self).used_bytes,
                    read@,
                    old(self).max_events,
                    old(self).max_bytes,
                ),
                goal == gather(
                    self.events@,
                    self.events.entries@.len(),
                    self.used_bytes,
                    read@.skip(it.index() as int),
                    self.max_events,
                    self.max_bytes,
                ),
        {
            let ghost n = it.index() as int;
            let (event, bytes) = pair;
            let sum = self.used_bytes.saturating_add(bytes);
            proof {
                assert(read@.skip(n)[0] == (event, bytes));
                assert(read@.skip(n).skip(1) =~= read@.skip(n + 1));
            }
            if self.events.entries.len() > 0 && sum > self.max_bytes {
                return;
            }
            self.used_bytes = sum;
            let stream = event.stream_id.clone();
            let version: u64 = event.version;
            self.events.insert(stream, version, event);
            if self.events.entries.len() as u32 >= self.max_events {
                return;
            }
        }
        proof {
            assert(read@.skip(read@.len() as int).len() == 0);
        }
    }
}

/// An event that a consumer may be given.
#[derive(Debug)]
pub struct DeliveryCandidate {
    pub delivery_id: u128,
    pub stream_id: String,
    pub version: u64,
    pub event_id: u128,
    pub replayed: bool,
}

/// Makes candidates of the events, in the order of streams and versions.  Each gets
/// an identifier of its own, which is random: nothing is said of it.
pub fn candidates_of(events: &VersionMap<Event>, retries: &VersionMap<PendingRetry>) -> (r: Result<
    Vec<DeliveryCandidate>,
    Status,
>)
    requires
        events.wf(),
        retries.wf(),
    ensures
        r is Ok <==> forall|i: int|
            0 <= i < events.entries@.len() ==> (
            #[trigger] events.entries@[i]).value.event_id@.len() == 16,
        match r {
            Ok(out) => out@.len() == events.entries@.len() && forall|i: int|
                0 <= i < out@.len() ==> is_candidate(
                    #[trigger] out@[i],
                    events.entries@[i],
                    retries@,
                ),
            Err(s) => s@ == says(Code::InvalidArgument, "event_id"@ + " 必须是 16 字节 UUID"@),
        },
{
    let mut out: Vec<DeliveryCandidate> = Vec::new();
    let mut i: usize = 0;
    while i < events.entries.len()
        invariant
            i <= events.entries@.len(),
            retries.wf(),
            out@.len() == i,
            forall|k: int|
                0 <= k < i ==> is_candidate(#[trigger] out@[k], events.entries@[k], retries@),
            forall|k: int|
                0 <= k < i ==> (#[trigger] events.entries@[k]).value.event_id@.len() == 16,
        decreases events.entries@.len() - i,
    {
        let e = &events.entries[i];
        let event_id = match parse_uuid(&e.value.event_id, "event_id") {
            Ok(id) => id,
            Err(s) => return Err(s),
        };
        let replayed = match retries.get(e.stream.as_str(), e.version) {
            Some(r) => r.replayed,
            None => false,
        };
        out.push(
            DeliveryCandidate {
                delivery_id: uuid_random(),
                stream_id: e.stream.clone(),
                version: e.version,
                event_id,
                replayed,
            },
        );
        i += 1;
    }
    Ok(out)
}

/// The candidate stands for the event; it is a replay if a retry says so.
pub open spec fn is_candidate(
    c: DeliveryCandidate,
    e: Entry<Event>,
    retries: Map<(Seq<char>, u64), PendingRetry>,
) -> bool {
    &&& c.stream_id@ == e.stream@
    &&& c.version == e.version
    &&& c.event_id == big_endian(e.value.event_id@)
    &&& c.replayed == (retries.dom().contains((e.stream@, e.version)) && retries[(
        e.stream@,
        e.version,
    )].replayed)
}

/// Reads an identifier; `field` names it in the reply where it is not sixteen bytes.
pub fn parse_uuid(bytes: &Vec<u8>, field: &str) -> (r: Result<u128, Status>)
    ensures
        r is Ok <==> bytes@.len() == 16,
        match r {
            Ok(id) => id == big_endian(bytes@),
            Err(s) => s@ == says(Code::InvalidArgument, field@ + " 必须是 16 字节 UUID"@),
        },
{
    match parse_id(bytes) {
        Some(id) => Ok(id),
        None => Err(
            Status::new(
                Code::InvalidArgument,
                crate::text::join2(field, " 必须是 16 字节 UUID"),
            ),
        ),
    }
}

/// The reply to a fetch.
#[derive(Debug)]
pub struct FetchResponse {
    pub deliveries: Vec<PersistentDelivery>,
    pub caught_up: bool,
    pub throttled: bool,
    pub retry_after_ms: u64,
}

/// A delivered event.
#[derive(Debug)]
pub struct PersistentDelivery {
    pub delivery_id: Vec<u8>,
    pub event: SubscriptionEvent,
    pub attempt: u32,
    pub lease_deadline_ms: u64,
    pub group_epoch: u64,
    pub replayed: bool,
}

/// `a - b`, but not below 0.
pub open spec fn less_by(a: u64, b: u64) -> u64 {
    if a >= b {
        (a - b) as u64
    } else {
        0
    }
}

/// The earliest deadline of what the consumer has been given.
pub open spec fn earliest_deadline(deliveries: Seq<Delivery>, consumer: Seq<char>) -> Option<u64>
    decreases deliveries.len(),
{
    if deliveries.len() == 0 {
        None
    } else {
        let rest = earliest_deadline(deliveries.drop_last(), consumer);
        let d = deliveries.last();
        if d.consumer_id@ != consumer {
            rest
        } else {
            match rest {
                Some(t) if t < d.deadline_ms => Some(t),
                _ => Some(d.deadline_ms),
            }
        }
    }
}

/// True if a delivery is overdue, so that it has to expire first.
pub fn has_expired(deliveries: &Vec<Delivery>, now: u64) -> (r: bool)
    ensures
        r <==> exists|i: int|
            0 <= i < deliveries@.len() && (#[trigger] deliveries@[i]).deadline_ms <= now,
{
    let mut i: usize = 0;
    while i < deliveries.len()
        invariant
            i <= deliveries@.len(),
            forall|k: int| 0 <= k < i ==> (#[trigger] deliveries@[k]).deadline_ms > now,
        decreases deliveries@.len() - i,
    {
        if deliveries[i].deadline_ms <= now {
            return true;
        }
        i += 1;
    }
    false
}

/// What a fetch may claim: so many events, or nothing for now.
#[derive(Debug)]
pub enum Allowance {
    Fetch(u32),
    Throttled(FetchResponse),
}

/// Bounds a fetch by the consumer's credit.  Without credit the consumer is told to
/// come back when the first of its deliveries runs out, or after the time it has to
/// acknowledge one.
pub fn allowance(group: &PersistentGroup, consumer_id: &str, credit: u32, max_events: u32, now: u64)
    -> (a: Allowance)
    ensures
        if credit == 0 {
            a matches Allowance::Throttled(r) && r.deliveries@.len() == 0 && !r.caught_up
                && r.throttled && r.retry_after_ms == (match earliest_deadline(
                group.deliveries@,
                consumer_id@,
            ) {
                Some(t) => less_by(t, now),
                None => group.settings.ack_timeout_ms,
            })
        } else {
            a == Allowance::Fetch(
                if max_events < credit {
                    max_events
                } else {
                    credit
                },
            )
        },
{
    if credit == 0 {
        let mut first: Option<u64> = None;
        let mut i: usize = 0;
        proof {
            assert(group.deliveries@.take(0) =~= Seq::<Delivery>::empty());
        }
        while i < group.deliveries.len()
            invariant
                i <= group.deliveries@.len(),
                first == earliest_deadline(group.deliveries@.take(i as int), consumer_id@),
            decreases group.deliveries@.len() - i,
        {
            let d = &group.deliveries[i];
            proof {
                assert(group.deliveries@.take(i + 1).drop_last() =~= group.deliveries@.take(
                    i as int,
                ));
                assert(group.deliveries@.take(i + 1).last() == *d);
            }
            if same_text(d.consumer_id.as_str(), consumer_id) {
                first = match first {
                    Some(t) => if t < d.deadline_ms {
                        Some(t)
                    } else {
                        Some(d.deadline_ms)
                    },
                    None => Some(d.deadline_ms),
                };
            }
            i += 1;
        }
        proof {
            assert(group.deliveries@.take(group.deliveries@.len() as int) =~= group.deliveries@);
        }
        let retry_after_ms: u64 = match first {
            Some(t) => t.saturating_sub(now),
            None => group.settings.ack_timeout_ms,
        };
        Allowance::Throttled(
            FetchResponse {
                deliveries: Vec::new(),
                caught_up: false,
                throttled: true,
                retry_after_ms,
            },
        )
    } else if max_events < credit {
        Allowance::Fetch(max_events)
    } else {
        Allowance::Fetch(credit)
    }
}

/// The reply where nothing was read: the group has caught up unless a retry is still
/// to come.
pub fn nothing_read(next_retry: Option<u64>, now: u64) -> (r: FetchResponse)
    ensures
        r.deliveries@.len() == 0,
        r.caught_up == (next_retry is None),
        !r.throttled,
        r.retry_after_ms == (match next_retry {
            Some(t) => less_by(t, now),
            None => 0,
        }),
{
    let retry_after_ms: u64 = match next_retry {
        Some(t) => t.saturating_sub(now),
        None => 0,
    };
    FetchResponse {
        deliveries: Vec::new(),
        caught_up: next_retry.is_none(),
        throttled: false,
        retry_after_ms,
    }
}

/// When what is claimed now has to be acknowledged.
pub fn claim_deadline(now: u64, ack_timeout_ms: u64) -> (t: u64)
    ensures
        t == capped_sum(now, ack_timeout_ms),
{
    now.saturating_add(ack_timeout_ms)
}

/// The claims that have an event, each event going to the first claim of it.
pub open spec fn matched(have: Map<(Seq<char>, u64), Event>, claims: Seq<Delivery>) -> Seq<
    (Delivery, Event),
>
    decreases claims.len(),
{
    if claims.len() == 0 {
        Seq::empty()
    } else {
        let key = (claims[0].stream_id@, claims[0].version);
        if have.dom().contains(key) {
            seq![(claims[0], have[key])] + matched(have.remove(key), claims.skip(1))
        } else {
            matched(have, claims.skip(1))
        }
    }
}

/// `d` delivers the event of the claim.
pub open spec fn delivers(d: PersistentDelivery, claim: Delivery, e: Event) -> bool {
    &&& d.delivery_id@.len() == 16
    &&& big_endian(d.delivery_id@) == claim.delivery_id
    &&& projects(d.event, e)
    &&& d.attempt == claim.attempt
    &&& d.lease_deadline_ms == claim.deadline_ms
    &&& d.group_epoch == claim.group_epoch
    &&& d.replayed == claim.replayed
}

/// The reply after the group has claimed events: what was claimed, with the events
/// that were read.
pub fn claimed_reply(events: VersionMap<Event>, claims: Vec<Delivery>) -> (r: FetchResponse)
    requires
        events.wf(),
    ensures
        !r.caught_up,
        !r.throttled,
        r.retry_after_ms == 0,
        r.deliveries@.len() == matched(events@, claims@).len(),
        forall|i: int|
            0 <= i < r.deliveries@.len() ==> delivers(
                #[trigger] r.deliveries@[i],
                matched(events@, claims@)[i].0,
                matched(events@, claims@)[i].1,
            ),
{
    let ghost goal = matched(events@, claims@);
    let mut left = events;
    let mut out: Vec<PersistentDelivery> = Vec::new();
    let ghost mut done: Seq<(Delivery, Event)> = Seq::empty();
    proof {
        assert(claims@.skip(0) =~= claims@);
        assert(done + matched(left@, claims@.skip(0)) =~= goal);
    }
    for claim in it: claims
        invariant
            it.seq() == claims@,
            left.wf(),
            goal == done + matched(left@, claims@.skip(it.index() as int)),
            out@.len() == done.len(),
            forall|i: int|
                0 <= i < out@.len() ==> delivers(#[trigger] out@[i], done[i].0, done[i].1),
    {
        let ghost n = it.index() as int;
        let ghost rest = claims@.skip(n);
        let ghost before = left@;
        let ghost c = claim;
        proof {
            assert(rest[0] == claim);
            assert(rest.skip(1) =~= claims@.skip(n + 1));
        }
        if let Some(event) = left.remove(claim.stream_id.as_str(), claim.version) {
            let ghost e = event;
            let d = PersistentDelivery {
                delivery_id: id_bytes(claim.delivery_id),
                event: public_subscription_event(event),
                attempt: claim.attempt,
                lease_deadline_ms: claim.deadline_ms,
                group_epoch: claim.group_epoch,
                replayed: claim.replayed,
            };
            out.push(d);
            proof {
                let old_done = done;
                done = done.push((c, e));
                assert(old_done + (seq![(c, e)] + matched(left@, claims@.skip(n + 1))) =~= done
                    + matched(left@, claims@.skip(n + 1)));
            }
        } else {
            proof {
                assert(left@ =~= before);
            }
        }
    }
    proof {
        assert(claims@.skip(claims@.len() as int).len() == 0);
        assert(done + matched(left@, claims@.skip(claims@.len() as int)) =~= done);
    }
    FetchResponse { deliveries: out, caught_up: false, throttled: false, retry_after_ms: 0 }
}

} // verus!
