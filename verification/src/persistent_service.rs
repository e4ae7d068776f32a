//! Requests on named consumer groups.

use vstd::prelude::*;

use crate::backlog::{
    MAX_FETCH_BYTES, MAX_FETCH_EVENTS, PersistentCursor, PersistentHead, capped_sum,
};
use crate::event::{Event, SubscriptionEvent, projects, public_subscription_event};
use crate::ids::{big_endian, id_bytes};
use crate::maps::TextMap;
use crate::order::lemma_filter_has;
use crate::persistent_fetch::parse_uuid;
use crate::persistent_group::{
    Parked, PersistentGroup, PersistentSettings, PersistentTarget, StreamProgress, TargetView,
    covers, is_fresh, or_default,
};
use crate::route_table::{RouteTable, RouteTableView};
use crate::rpc_support::{
    WriteError, client_write_to_status, leader_hint, leader_hint_status, write_failure,
};
use crate::status::{Code, Status, StatusView, says};
use crate::text::{
    copy_texts, decimal, decimal_text, holds_text, join2, join3, select_texts, text_views,
    texts_increase,
};

verus! {

/// How long a fetch waits before it looks again, in milliseconds.
pub const POLL_INTERVAL_MS: u64 = 50;

/// Admits a request to the shard that keeps the groups: `leads` says whether this
/// node leads it, `None` that it is not here; `leader` is who does.
pub fn admit_control(leads: Option<bool>, leader: Option<(u64, String)>) -> (r: Result<(), Status>)
    ensures
        match leads {
            None => r matches Err(s) && s@ == says(
                Code::Unavailable,
                "control shard not on this node"@,
            ),
            Some(false) => r matches Err(s) && s@ == leader_hint(
                match leader {
                    Some(l) => Some((l.0, l.1@)),
                    None => None,
                },
            ),
            Some(true) => r is Ok,
        },
{
    match leads {
        None => Err(Status::of(Code::Unavailable, "control shard not on this node")),
        Some(false) => Err(leader_hint_status(leader)),
        Some(true) => Ok(()),
    }
}

/// What a write to the groups gave: what belongs to groups, or something else, which
/// is shown as text.
#[derive(Debug)]
pub enum Submitted<T> {
    Groups(T),
    Other(String),
}

/// Takes the outcome of a write to the groups.
pub fn submit_persistent<T>(outcome: Result<Submitted<T>, WriteError>) -> (r: Result<T, Status>)
    ensures
        match outcome {
            Ok(Submitted::Groups(t)) => r == Ok::<T, Status>(t),
            Ok(Submitted::Other(shown)) => r matches Err(s) && s@ == says(
                Code::Internal,
                "持久化订阅返回意外结果: "@ + shown@,
            ),
            Err(e) => r matches Err(s) && s@ == write_failure(e),
        },
{
    match outcome {
        Ok(Submitted::Groups(t)) => Ok(t),
        Ok(Submitted::Other(shown)) => Err(
            Status::new(Code::Internal, join2("持久化订阅返回意外结果: ", shown.as_str())),
        ),
        Err(e) => Err(client_write_to_status(e)),
    }
}

/// Takes what the store gave for a group.
pub fn read_persistent_group<T>(name: &str, found: Result<Option<T>, String>) -> (r: Result<
    T,
    Status,
>)
    ensures
        match found {
            Ok(Some(g)) => r == Ok::<T, Status>(g),
            Ok(None) => r matches Err(s) && s@ == says(
                Code::NotFound,
                "persistent subscription '"@ + name@ + "' not found"@,
            ),
            Err(e) => r matches Err(s) && s@ == says(
                Code::Internal,
                "读取持久化订阅组失败: "@ + e@,
            ),
        },
{
    match found {
        Ok(Some(g)) => Ok(g),
        Ok(None) => Err(
            Status::new(
                Code::NotFound,
                join3("persistent subscription '", name, "' not found"),
            ),
        ),
        Err(e) => Err(Status::new(Code::Internal, join2("读取持久化订阅组失败: ", e.as_str()))),
    }
}

/// The generation of a stream's owner: at least 1, also where the table has none.
pub open spec fn generation_in(t: RouteTableView, stream: Seq<char>) -> u64 {
    if t.generations.dom().contains(stream) && t.generations[stream] > 1 {
        t.generations[stream]
    } else {
        1
    }
}

fn generation_of(table: &RouteTable, stream: &str) -> (g: u64)
    requires
        table.wf(),
    ensures
        g == generation_in(table@, stream@),
{
    match table.stream_generations.get(stream) {
        Some(g) => if *g > 1 {
            *g
        } else {
            1
        },
        None => 1,
    }
}

/// Finds the shards to ask for the ends of streams; the first stream without a route
/// ends the search.
pub fn route_heads(streams: &Vec<String>, table: &RouteTable) -> (r: Result<
    Vec<(String, u64)>,
    Status,
>)
    requires
        table.wf(),
    ensures
        match r {
            Ok(routed) => routed@.len() == streams@.len() && forall|i: int|
                0 <= i < streams@.len() ==> table@.streams.dom().contains(
                    (#[trigger] streams@[i])@,
                ) && routed@[i].0@ == streams@[i]@ && routed@[i].1
                    == table@.streams[streams@[i]@],
            Err(s) => exists|i: int|
                0 <= i < streams@.len() && !table@.streams.dom().contains(
                    (#[trigger] streams@[i])@,
                ) && (forall|j: int|
                    0 <= j < i ==> table@.streams.dom().contains((#[trigger] streams@[j])@))
                    && s@ == says(Code::NotFound, "stream '"@ + streams@[i]@ + "' not found"@),
        },
{
    let mut out: Vec<(String, u64)> = Vec::new();
    let mut i: usize = 0;
    while i < streams.len()
        invariant
            i <= streams@.len(),
            table.wf(),
            out@.len() == i,
            forall|k: int|
                0 <= k < i ==> table@.streams.dom().contains((#[trigger] streams@[k])@)
                    && out@[k].0@ == streams@[k]@ && out@[k].1 == table@.streams[streams@[k]@],
        decreases streams@.len() - i,
    {
        match table.streams.get(streams[i].as_str()) {
            Some(shard) => {
                out.push((streams[i].clone(), *shard));
            },
            None => {
                assert(!table@.streams.dom().contains(streams@[i as int]@));
                return Err(
                    Status::new(
                        Code::NotFound,
                        join3("stream '", streams[i].as_str(), "' not found"),
                    ),
                );
            },
        }
        i += 1;
    }
    Ok(out)
}

/// The ends of streams with the generations of their owners, added to `have`.
pub open spec fn heads_after(
    have: Map<Seq<char>, (u64, u64)>,
    heads: Seq<PersistentHead>,
    t: RouteTableView,
) -> Map<Seq<char>, (u64, u64)>
    decreases heads.len(),
{
    if heads.len() == 0 {
        have
    } else {
        let h = heads.last();
        heads_after(have, heads.drop_last(), t).insert(
            h.stream_id@,
            (h.current_version, generation_in(t, h.stream_id@)),
        )
    }
}

/// Takes the ends that a shard gave; the first stream without data ends it.
pub fn note_heads(
    have: &mut TextMap<(u64, u64)>,
    heads: Vec<PersistentHead>,
    table: &RouteTable,
) -> (r: Result<(), Status>)
    requires
        old(have).wf(),
        table.wf(),
    ensures
        final(have).wf(),
        match r {
            Ok(_) => (forall|i: int| 0 <= i < heads@.len() ==> (#[trigger] heads@[i]).exists)
                && final(have)@ == heads_after(old(have)@, heads@, table@),
            Err(s) => exists|i: int|
                0 <= i < heads@.len() && !(#[trigger] heads@[i]).exists && (forall|j: int|
                    0 <= j < i ==> (#[trigger] heads@[j]).exists) && s@ == says(
                    Code::NotFound,
                    "stream '"@ + heads@[i].stream_id@ + "' has ownership but no data"@,
                ),
        },
{
    proof {
        assert(heads@.take(0) =~= Seq::<PersistentHead>::empty());
    }
    for head in it: heads
        invariant
            it.seq() == heads@,
            have.wf(),
            table.wf(),
            forall|i: int| 0 <= i < it.index() ==> (#[trigger] heads@[i]).exists,
            have@ == heads_after(old(have)@, heads@.take(it.index() as int), table@),
    {
        let ghost n = it.index() as int;
        proof {
            assert(heads@[n] == head);
            assert(heads@.take(n + 1).drop_last() =~= heads@.take(n));
            assert(heads@.take(n + 1).last() == head);
        }
        if !head.exists {
            return Err(
                Status::new(
                    Code::NotFound,
                    join3("stream '", head.stream_id.as_str(), "' has ownership but no data"),
                ),
            );
        }
        let generation: u64 = generation_of(table, head.stream_id.as_str());
        have.insert(head.stream_id, (head.current_version, generation));
    }
    proof {
        assert(heads@.take(heads@.len() as int) =~= heads@);
    }
    Ok(())
}

/// Where a new group begins.
#[derive(Debug)]
pub struct StartSpec {
    /// Begin at the end of each stream, not at its beginning.
    pub from_now: bool,
    /// Streams that begin elsewhere.
    pub next_versions: TextMap<u64>,
}

/// Where a stream begins; `None` if that lies beyond the version after its end.
pub open spec fn first_version(
    from_now: bool,
    next_versions: Map<Seq<char>, u64>,
    stream: Seq<char>,
    head: u64,
) -> Option<u64> {
    if next_versions.dom().contains(stream) {
        if next_versions[stream] <= capped_sum(head, 1) {
            Some(next_versions[stream])
        } else {
            None
        }
    } else if from_now {
        Some(capped_sum(head, 1))
    } else {
        Some(0)
    }
}

/// The names of all routed streams, or those of the target.
pub open spec fn is_targeted(t: TargetView, table: RouteTableView, stream: Seq<char>) -> bool {
    match t {
        TargetView::Streams(s) => s.contains(stream),
        TargetView::All => table.streams.dom().contains(stream),
    }
}

/// The streams that a target stands for, in ascending order.
pub fn targeted(target: &PersistentTarget, table: &RouteTable) -> (out: Vec<String>)
    requires
        target.wf(),
        table.wf(),
    ensures
        texts_increase(text_views(out@)),
        forall|x: Seq<char>| #[trigger]
            text_views(out@).contains(x) <==> is_targeted(target@, table@, x),
{
    match target {
        PersistentTarget::Streams(s) => copy_texts(s),
        PersistentTarget::All => table.streams.names(),
    }
}

/// Starts are named for streams of the target alone.
pub open spec fn starts_are_targeted(
    next_versions: Map<Seq<char>, u64>,
    target: TargetView,
    table: RouteTableView,
) -> bool {
    forall|x: Seq<char>| #[trigger]
        next_versions.dom().contains(x) ==> is_targeted(target, table, x)
}

/// The streams of a new group, in ascending order; a start may be given for these
/// only.
pub fn start_streams(target: &PersistentTarget, start: &StartSpec, table: &RouteTable) -> (r:
    Result<Vec<String>, Status>)
    requires
        target.wf(),
        start.next_versions.wf(),
        table.wf(),
    ensures
        r is Ok <==> forall|x: Seq<char>| #[trigger]
            start.next_versions@.dom().contains(x) ==> is_targeted(target@, table@, x),
        r is Ok <==> starts_are_targeted(start.next_versions@, target@, table@),
        match r {
            Ok(out) => texts_increase(text_views(out@)) && forall|x: Seq<char>| #[trigger]
                text_views(out@).contains(x) <==> is_targeted(target@, table@, x),
            Err(s) => s@ == says(
                Code::InvalidArgument,
                "next_versions 只能覆盖当前目标中的 Stream"@,
            ),
        },
{
    let streams = targeted(target, table);
    let given = start.next_versions.names();
    let mut i: usize = 0;
    while i < given.len()
        invariant
            i <= given@.len(),
            forall|x: Seq<char>| #[trigger]
                text_views(given@).contains(x) <==> start.next_versions@.dom().contains(x),
            forall|x: Seq<char>| #[trigger]
                text_views(streams@).contains(x) <==> is_targeted(target@, table@, x),
            forall|k: int|
                0 <= k < i ==> text_views(streams@).contains((#[trigger] given@[k])@),
        decreases given@.len() - i,
    {
        if !holds_text(&streams, given[i].as_str()) {
            proof {
                let x = given@[i as int]@;
                assert(text_views(given@)[i as int] == x);
                assert(text_views(given@).contains(x));
                assert(!text_views(streams@).contains(x));
            }
            return Err(
                Status::of(Code::InvalidArgument, "next_versions 只能覆盖当前目标中的 Stream"),
            );
        }
        i += 1;
    }
    proof {
        assert forall|x: Seq<char>| #[trigger]
            start.next_versions@.dom().contains(x) implies is_targeted(target@, table@, x) by {
            assert(text_views(given@).contains(x));
            let k = choose|k: int| 0 <= k < given@.len() && text_views(given@)[k] == x;
            assert(given@[k]@ == x);
            assert(text_views(streams@).contains(x));
        }
    }
    Ok(streams)
}

/// The progress of a new group over its streams, whose ends are `heads`.
pub fn initial_progress(
    streams: &Vec<String>,
    start: &StartSpec,
    heads: &TextMap<(u64, u64)>,
) -> (r: Result<TextMap<StreamProgress>, Status>)
    requires
        start.next_versions.wf(),
        heads.wf(),
        forall|i: int| 0 <= i < streams@.len() ==> heads@.dom().contains((#[trigger] streams@[i])@),
    ensures
        match r {
            Ok(p) => p.wf() && (forall|x: Seq<char>| #[trigger]
                p@.dom().contains(x) <==> text_views(streams@).contains(x)) && forall|i: int|
                0 <= i < streams@.len() ==> begins(
                    p@[(#[trigger] streams@[i])@],
                    *start,
                    streams@[i]@,
                    heads@[streams@[i]@],
                ),
            Err(s) => exists|i: int|
                0 <= i < streams@.len() && first_version(
                    start.from_now,
                    start.next_versions@,
                    (#[trigger] streams@[i])@,
                    heads@[streams@[i]@].0,
                ) is None && (forall|j: int|
                    0 <= j < i ==> first_version(
                        start.from_now,
                        start.next_versions@,
                        (#[trigger] streams@[j])@,
                        heads@[streams@[j]@].0,
                    ) is Some) && s@ == says(
                    Code::InvalidArgument,
                    "stream '"@ + streams@[i]@ + "' 的 next_version 超过 head + 1"@,
                ),
        },
{
    let mut out: TextMap<StreamProgress> = TextMap::new();
    let mut i: usize = 0;
    while i < streams.len()
        invariant
            i <= streams@.len(),
            start.next_versions.wf(),
            heads.wf(),
            out.wf(),
            forall|i: int|
                0 <= i < streams@.len() ==> heads@.dom().contains((#[trigger] streams@[i])@),
            forall|x: Seq<char>| #[trigger]
                out@.dom().contains(x) <==> exists|k: int|
                    0 <= k < i && (#[trigger] streams@[k])@ == x,
            forall|k: int|
                0 <= k < i ==> begins(
                    out@[(#[trigger] streams@[k])@],
                    *start,
                    streams@[k]@,
                    heads@[streams@[k]@],
                ),
        decreases streams@.len() - i,
    {
        let stream = streams[i].as_str();
        let (head, generation) = match heads.get(stream) {
            Some(h) => *h,
            None => (0, 0),
        };
        let next: u64 = match start.next_versions.get(stream) {
            Some(next) => if *next <= head.saturating_add(1) {
                *next
            } else {
                return Err(
                    Status::new(
                        Code::InvalidArgument,
                        join3("stream '", stream, "' 的 next_version 超过 head + 1"),
                    ),
                );
            },
            None => if start.from_now {
                head.saturating_add(1)
            } else {
                0
            },
        };
        let ghost before = out@;
        let p = StreamProgress::new(next, generation);
        out.insert(streams[i].clone(), p);
        proof {
            assert(out@ == before.insert(streams@[i as int]@, p));
            assert forall|x: Seq<char>| #[trigger]
                out@.dom().contains(x) <==> exists|k: int|
                    0 <= k < i + 1 && (#[trigger] streams@[k])@ == x by {
                if before.dom().contains(x) {
                    let k = choose|k: int| 0 <= k < i && (#[trigger] streams@[k])@ == x;
                    assert(streams@[k]@ == x);
                }
                if x == streams@[i as int]@ {
                    assert(out@.dom().contains(x));
                }
            }
            assert forall|k: int| 0 <= k < i + 1 implies begins(
                out@[(#[trigger] streams@[k])@],
                *start,
                streams@[k]@,
                heads@[streams@[k]@],
            ) by {
                if streams@[k]@ == streams@[i as int]@ {
                    assert(out@[streams@[k]@] == p);
                } else {
                    assert(out@[streams@[k]@] == before[streams@[k]@]);
                }
            }
        }
        i += 1;
    }
    proof {
        assert forall|x: Seq<char>| #[trigger]
            out@.dom().contains(x) <==> text_views(streams@).contains(x) by {
            if out@.dom().contains(x) {
                let k = choose|k: int| 0 <= k < streams@.len() && (#[trigger] streams@[k])@ == x;
                assert(text_views(streams@)[k] == x);
            }
            if text_views(streams@).contains(x) {
                let k = choose|k: int| 0 <= k < streams@.len() && text_views(streams@)[k] == x;
                assert(streams@[k]@ == x);
            }
        }
    }
    Ok(out)
}

/// `p` is where a stream of a new group begins.
pub open spec fn begins(
    p: StreamProgress,
    start: StartSpec,
    stream: Seq<char>,
    head: (u64, u64),
) -> bool {
    first_version(start.from_now, start.next_versions@, stream, head.0) matches Some(next)
        && is_fresh(p, next, head.1)
}

/// The routed streams that a group over every stream has no progress on yet, in
/// ascending order.
pub fn missing_streams(group: &PersistentGroup, table: &RouteTable) -> (out: Vec<String>)
    requires
        group.wf(),
        table.wf(),
    ensures
        texts_increase(text_views(out@)),
        forall|x: Seq<char>| #[trigger]
            text_views(out@).contains(x) <==> (group.target is All
                && table@.streams.dom().contains(x) && !group.progress@.dom().contains(x)),
{
    match &group.target {
        PersistentTarget::Streams(_) => Vec::new(),
        PersistentTarget::All => {
            let routed = table.streams.names();
            without_progress(&routed, &group.progress)
        },
    }
}

/// The names of the list that have no progress, in order.
fn without_progress(names: &Vec<String>, progress: &TextMap<StreamProgress>) -> (out: Vec<String>)
    requires
        texts_increase(text_views(names@)),
        progress.wf(),
    ensures
        texts_increase(text_views(out@)),
        forall|x: Seq<char>| #[trigger]
            text_views(out@).contains(x) <==> (text_views(names@).contains(x)
                && !progress@.dom().contains(x)),
{
    let known = progress.names();
    let out = select_texts(names, &known, false);
    proof {
        let all = text_views(names@);
        let keep = |x: Seq<char>| text_views(known@).contains(x) == false;
        lemma_filter_increases(all, keep);
        assert forall|x: Seq<char>| #[trigger] text_views(out@).contains(x) <==> (all.contains(x)
            && !progress@.dom().contains(x)) by {
            assert(text_views(known@).contains(x) <==> progress@.dom().contains(x));
            lemma_filter_holds(all, keep, x);
        }
    }
    out
}

/// A filter holds what the list holds and the filter lets through.
pub proof fn lemma_filter_holds(s: Seq<Seq<char>>, keep: spec_fn(Seq<char>) -> bool, x: Seq<char>)
    ensures
        s.filter(keep).contains(x) <==> (s.contains(x) && keep(x)),
{
    lemma_filter_has(s, keep, x);
}

/// A filter of an ascending list is ascending.
pub proof fn lemma_filter_increases(s: Seq<Seq<char>>, keep: spec_fn(Seq<char>) -> bool)
    requires
        texts_increase(s),
    ensures
        texts_increase(s.filter(keep)),
    decreases s.len(),
{
    reveal(Seq::filter);
    if s.len() > 0 {
        let rest = s.drop_last();
        let kept = rest.filter(keep);
        assert(texts_increase(rest)) by {
            assert forall|i: int, j: int| 0 <= i < j < rest.len() implies
                crate::text::text_before(#[trigger] rest[i], #[trigger] rest[j]) by {
                assert(rest[i] == s[i] && rest[j] == s[j]);
            }
        }
        lemma_filter_increases(rest, keep);
        if keep(s.last()) {
            let all = kept.push(s.last());
            assert(s.filter(keep) == all);
            assert forall|i: int, j: int| 0 <= i < j < all.len() implies
                crate::text::text_before(#[trigger] all[i], #[trigger] all[j]) by {
                if j < kept.len() {
                    assert(all[i] == kept[i] && all[j] == kept[j]);
                } else {
                    let x = kept[i];
                    assert(kept.contains(x));
                    lemma_filter_holds(rest, keep, x);
                    let k = choose|k: int| 0 <= k < rest.len() && rest[k] == x;
                    assert(s[k] == x);
                }
            }
        }
    }
}

/// New progress at the beginning of each stream, for streams that a group over every
/// stream did not know.
pub fn ensured_progress(heads: &TextMap<(u64, u64)>) -> (r: TextMap<StreamProgress>)
    requires
        heads.wf(),
    ensures
        r.wf(),
        r@.dom() == heads@.dom(),
        forall|x: Seq<char>| #[trigger]
            heads@.dom().contains(x) ==> is_fresh(r@[x], 0, heads@[x].1),
{
    let mut out: TextMap<StreamProgress> = TextMap::new();
    insert_at_beginning(&mut out, heads);
    proof {
        assert(out@.dom() =~= heads@.dom());
    }
    out
}

fn insert_at_beginning(progress: &mut TextMap<StreamProgress>, heads: &TextMap<(u64, u64)>)
    requires
        old(progress).wf(),
        heads.wf(),
    ensures
        final(progress).wf(),
        forall|x: Seq<char>| #[trigger]
            final(progress)@.dom().contains(x) <==> (old(progress)@.dom().contains(x)
                || heads@.dom().contains(x)),
        forall|x: Seq<char>| #[trigger]
            heads@.dom().contains(x) ==> is_fresh(final(progress)@[x], 0, heads@[x].1),
        forall|x: Seq<char>|
            old(progress)@.dom().contains(x) && !heads@.dom().contains(x)
                ==> #[trigger] final(progress)@[x] == old(progress)@[x],
{
    let mut i: usize = 0;
    while i < heads.entries.len()
        invariant
            i <= heads.entries@.len(),
            heads.wf(),
            progress.wf(),
            forall|x: Seq<char>| #[trigger]
                progress@.dom().contains(x) <==> (old(progress)@.dom().contains(x) || exists|k: int|
                    0 <= k < i && #[trigger] heads.key(k) == x),
            forall|k: int|
                0 <= k < i ==> is_fresh(
                    progress@[#[trigger] heads.key(k)],
                    0,
                    heads.entries@[k].1.1,
                ),
            forall|x: Seq<char>|
                old(progress)@.dom().contains(x) && !heads@.dom().contains(x)
                    ==> #[trigger] progress@[x] == old(progress)@[x],
        decreases heads.entries@.len() - i,
    {
        let ghost before = progress@;
        let ghost name = heads.key(i as int);
        proof {
            heads.lemma_entry(i as int);
        }
        let p = StreamProgress::new(0, heads.entries[i].1.1);
        progress.insert(heads.entries[i].0.clone(), p);
        proof {
            assert(progress@ == before.insert(name, p));
            assert forall|x: Seq<char>| #[trigger]
                progress@.dom().contains(x) <==> (old(progress)@.dom().contains(x) || exists|k: int|
                    0 <= k < i + 1 && #[trigger] heads.key(k) == x) by {
                if before.dom().contains(x) && !old(progress)@.dom().contains(x) {
                    let k = choose|k: int| 0 <= k < i && #[trigger] heads.key(k) == x;
                    assert(heads.key(k) == x);
                }
                if x == name {
                    assert(heads.key(i as int) == x);
                }
            }
            assert forall|k: int| 0 <= k < i + 1 implies is_fresh(
                progress@[#[trigger] heads.key(k)],
                0,
                heads.entries@[k].1.1,
            ) by {
                if k < i {
                    crate::text::lemma_text_order_total(heads.key(k), name);
                    assert(heads.key(k) != name);
                    assert(progress@[heads.key(k)] == before[heads.key(k)]);
                }
            }
        }
        i += 1;
    }
    proof {
        assert forall|x: Seq<char>| #[trigger] heads@.dom().contains(x) implies is_fresh(
            progress@[x],
            0,
            heads@[x].1,
        ) && progress@.dom().contains(x) by {
            let k = heads.index(x);
            assert(heads.key(k) == x);
            heads.lemma_entry(k);
        }
        assert forall|x: Seq<char>| #[trigger]
            progress@.dom().contains(x) <==> (old(progress)@.dom().contains(x)
                || heads@.dom().contains(x)) by {
            if progress@.dom().contains(x) && !old(progress)@.dom().contains(x) {
                let k = choose|k: int|
                    0 <= k < heads.entries@.len() && #[trigger] heads.key(k) == x;
                heads.lemma_entry(k);
            }
        }
    }
}

/// The streams whose owner changed since the group last looked, with the owner's
/// generation.
pub fn newer_generations(group: &PersistentGroup, table: &RouteTable) -> (out: TextMap<u64>)
    requires
        group.wf(),
        table.wf(),
    ensures
        out.wf(),
        forall|x: Seq<char>| #[trigger]
            out@.dom().contains(x) <==> (group.progress@.dom().contains(x)
                && table@.streams.dom().contains(x) && generation_in(table@, x)
                > group.progress@[x].ownership_generation),
        forall|x: Seq<char>| #[trigger]
            out@.dom().contains(x) ==> out@[x] == generation_in(table@, x),
{
    let mut out: TextMap<u64> = TextMap::new();
    let ghost p = group.progress;
    let ghost changed = |x: Seq<char>|
        table@.streams.dom().contains(x) && generation_in(table@, x)
            > group.progress@[x].ownership_generation;
    let mut i: usize = 0;
    while i < group.progress.entries.len()
        invariant
            i <= p.entries@.len(),
            p == group.progress,
            group.wf(),
            table.wf(),
            out.wf(),
            changed == (|x: Seq<char>|
                table@.streams.dom().contains(x) && generation_in(table@, x)
                    > group.progress@[x].ownership_generation),
            forall|x: Seq<char>| #[trigger]
                out@.dom().contains(x) <==> (changed(x) && exists|k: int|
                    0 <= k < i && #[trigger] p.key(k) == x),
            forall|x: Seq<char>| #[trigger]
                out@.dom().contains(x) ==> out@[x] == generation_in(table@, x),
        decreases p.entries@.len() - i,
    {
        let stream = group.progress.entries[i].0.as_str();
        let ghost before = out@;
        let ghost name = p.key(i as int);
        proof {
            p.lemma_entry(i as int);
            assert(name == stream@);
        }
        let routed = table.streams.get(stream).is_some();
        let generation: u64 = generation_of(table, stream);
        if routed && generation > group.progress.entries[i].1.ownership_generation {
            out.insert(group.progress.entries[i].0.clone(), generation);
        }
        proof {
            assert forall|x: Seq<char>| #[trigger]
                out@.dom().contains(x) <==> (changed(x) && exists|k: int|
                    0 <= k < i + 1 && #[trigger] p.key(k) == x) by {
                if before.dom().contains(x) {
                    let k = choose|k: int| 0 <= k < i && #[trigger] p.key(k) == x;
                    assert(p.key(k) == x);
                }
                if x == name {
                    assert(p.key(i as int) == x);
                } else if changed(x) && exists|k: int| 0 <= k < i + 1 && #[trigger] p.key(k) == x {
                    let k = choose|k: int| 0 <= k < i + 1 && #[trigger] p.key(k) == x;
                    assert(k < i);
                    assert(before.dom().contains(x));
                }
            }
        }
        i += 1;
    }
    proof {
        assert forall|x: Seq<char>| #[trigger] out@.dom().contains(x) <==> (
        group.progress@.dom().contains(x) && table@.streams.dom().contains(x) && generation_in(
            table@,
            x,
        ) > group.progress@[x].ownership_generation) by {
            if out@.dom().contains(x) {
                let k = choose|k: int| 0 <= k < p.entries@.len() && #[trigger] p.key(k) == x;
                p.lemma_entry(k);
            }
            if group.progress@.dom().contains(x) {
                let k = p.index(x);
                assert(p.key(k) == x);
            }
        }
    }
    out
}

/// What a write to the groups gave.
#[derive(Debug)]
pub enum GroupOutcome<T> {
    /// What was asked for.
    Done(T),
    Conflict { actual_revision: u64 },
    Invalid { reason: String },
    NotFound,
    Unexpected,
}

fn unexpected(operation: &str, shown: &str) -> (s: Status)
    ensures
        s@ == unexpected_reply(operation@, shown@),
{
    Status::new(Code::Internal, join3(operation, " 返回意外结果: ", shown))
}

/// The reply to a write that gave what it should not.
pub open spec fn unexpected_reply(operation: Seq<char>, shown: Seq<char>) -> StatusView {
    says(Code::Internal, operation + " 返回意外结果: "@ + shown)
}

/// The reply to the creation of a group; `shown` is the outcome as text.
pub fn create_reply<T>(outcome: GroupOutcome<T>, shown: &str) -> (r: Result<T, Status>)
    ensures
        match outcome {
            GroupOutcome::Done(t) => r == Ok::<T, Status>(t),
            GroupOutcome::Conflict { .. } => r matches Err(s) && s@ == says(
                Code::AlreadyExists,
                "persistent subscription already exists"@,
            ),
            GroupOutcome::Invalid { reason } => r matches Err(s) && s@ == says(
                Code::InvalidArgument,
                reason@,
            ),
            _ => r matches Err(s) && s@ == unexpected_reply("Create"@, shown@),
        },
{
    match outcome {
        GroupOutcome::Done(t) => Ok(t),
        GroupOutcome::Conflict { actual_revision: _ } => Err(
            Status::of(Code::AlreadyExists, "persistent subscription already exists"),
        ),
        GroupOutcome::Invalid { reason } => Err(Status::new(Code::InvalidArgument, reason)),
        _ => Err(unexpected("Create", shown)),
    }
}

/// The reply to a group that is not of the expected revision.
pub open spec fn revision_conflict(actual: u64) -> StatusView {
    says(
        Code::Aborted,
        "subscription revision conflict: actual_revision="@ + decimal_text(actual as nat),
    )
}

fn conflict(actual: u64) -> (s: Status)
    ensures
        s@ == revision_conflict(actual),
{
    Status::new(
        Code::Aborted,
        join2("subscription revision conflict: actual_revision=", decimal(actual).as_str()),
    )
}

/// The reply to the replacement of a group.
pub fn update_reply<T>(outcome: GroupOutcome<T>, shown: &str) -> (r: Result<T, Status>)
    ensures
        match outcome {
            GroupOutcome::Done(t) => r == Ok::<T, Status>(t),
            GroupOutcome::Conflict { actual_revision } => r matches Err(s) && s@
                == revision_conflict(actual_revision),
            GroupOutcome::Invalid { reason } => r matches Err(s) && s@ == says(
                Code::InvalidArgument,
                reason@,
            ),
            GroupOutcome::NotFound => r matches Err(s) && s@ == says(
                Code::NotFound,
                "group not found"@,
            ),
            GroupOutcome::Unexpected => r matches Err(s) && s@ == unexpected_reply(
                "Update"@,
                shown@,
            ),
        },
{
    match outcome {
        GroupOutcome::Done(t) => Ok(t),
        GroupOutcome::Conflict { actual_revision } => Err(conflict(actual_revision)),
        GroupOutcome::Invalid { reason } => Err(Status::new(Code::InvalidArgument, reason)),
        GroupOutcome::NotFound => Err(Status::of(Code::NotFound, "group not found")),
        GroupOutcome::Unexpected => Err(unexpected("Update", shown)),
    }
}

/// The reply to the removal of a group.
pub fn delete_reply<T>(outcome: GroupOutcome<T>, shown: &str) -> (r: Result<T, Status>)
    ensures
        match outcome {
            GroupOutcome::Done(t) => r == Ok::<T, Status>(t),
            GroupOutcome::Conflict { actual_revision } => r matches Err(s) && s@
                == revision_conflict(actual_revision),
            GroupOutcome::NotFound => r matches Err(s) && s@ == says(
                Code::NotFound,
                "group not found"@,
            ),
            _ => r matches Err(s) && s@ == unexpected_reply("Delete"@, shown@),
        },
{
    match outcome {
        GroupOutcome::Done(t) => Ok(t),
        GroupOutcome::Conflict { actual_revision } => Err(conflict(actual_revision)),
        GroupOutcome::NotFound => Err(Status::of(Code::NotFound, "group not found")),
        _ => Err(unexpected("Delete", shown)),
    }
}

/// The reply to a write that can only succeed or miss its group (`EnsureStreams`,
/// `ReconcileOwnership`, `Claim`, `Settle`, `ReplayParked`).
pub fn group_reply<T>(operation: &str, outcome: GroupOutcome<T>, shown: &str) -> (r: Result<
    T,
    Status,
>)
    ensures
        match outcome {
            GroupOutcome::Done(t) => r == Ok::<T, Status>(t),
            GroupOutcome::NotFound => r matches Err(s) && s@ == says(
                Code::NotFound,
                "group not found"@,
            ),
            _ => r matches Err(s) && s@ == unexpected_reply(operation@, shown@),
        },
{
    match outcome {
        GroupOutcome::Done(t) => Ok(t),
        GroupOutcome::NotFound => Err(Status::of(Code::NotFound, "group not found")),
        _ => Err(unexpected(operation, shown)),
    }
}

/// Where a stream of a changed group begins anew.
#[derive(Clone, Copy, Debug, PartialEq, Eq, Structural)]
pub enum ResetStart {
    Beginning,
    Now,
    NextVersion(u64),
}

/// A stream that begins anew.
#[derive(Debug)]
pub struct StreamReset {
    pub stream_id: String,
    pub start: Option<ResetStart>,
}

/// The resets by stream; the last one given for a stream counts.
pub open spec fn resets_of(list: Seq<StreamReset>) -> Map<Seq<char>, Option<ResetStart>>
    decreases list.len(),
{
    if list.len() == 0 {
        Map::empty()
    } else {
        resets_of(list.drop_last()).insert(list.last().stream_id@, list.last().start)
    }
}

/// How a group is to change.
#[derive(Debug)]
pub struct UpdatePlan {
    pub target: PersistentTarget,
    pub target_changed: bool,
    /// The streams of the changed group, in ascending order.
    pub desired: Vec<String>,
    pub resets: TextMap<Option<ResetStart>>,
    /// The streams that begin at their beginning without being named.
    pub implicit: Vec<String>,
}

/// The target of the changed group.
pub open spec fn target_after(group: PersistentGroup, target: Option<PersistentTarget>) -> TargetView {
    match target {
        Some(t) => t@,
        None => group.target@,
    }
}

/// The stream is new to the group and nothing says where it begins.
pub open spec fn lacks_start(
    group: PersistentGroup,
    target: TargetView,
    table: RouteTableView,
    resets: Map<Seq<char>, Option<ResetStart>>,
    stream: Seq<char>,
) -> bool {
    &&& is_targeted(target, table, stream)
    &&& !group.progress@.dom().contains(stream)
    &&& !resets.dom().contains(stream)
}

/// The group stays one over every stream.
pub open spec fn stays_all(group: PersistentGroup, target: TargetView) -> bool {
    target == group.target@ && target is All
}

fn collect_resets(target: &PersistentTarget, resets: Vec<StreamReset>) -> (r: Result<
    TextMap<Option<ResetStart>>,
    Status,
>)
    ensures
        match r {
            Ok(map) => map.wf() && map@ == resets_of(resets@) && forall|i: int|
                0 <= i < resets@.len() ==> covers(target@, (#[trigger] resets@[i]).stream_id@),
            Err(s) => exists|i: int|
                0 <= i < resets@.len() && !covers(target@, (#[trigger] resets@[i]).stream_id@) && (
                forall|j: int|
                    0 <= j < i ==> covers(target@, (#[trigger] resets@[j]).stream_id@)) && s@
                    == says(
                    Code::InvalidArgument,
                    "reset Stream '"@ + resets@[i].stream_id@ + "' 不在更新后的目标中"@,
                ),
        },
{
    let mut map: TextMap<Option<ResetStart>> = TextMap::new();
    proof {
        assert(resets@.take(0) =~= Seq::<StreamReset>::empty());
        assert(map@ =~= resets_of(resets@.take(0)));
    }
    for reset in it: resets
        invariant
            it.seq() == resets@,
            map.wf(),
            map@ == resets_of(resets@.take(it.index() as int)),
            forall|i: int|
                0 <= i < it.index() ==> covers(target@, (#[trigger] resets@[i]).stream_id@),
    {
        let ghost n = it.index() as int;
        proof {
            assert(resets@[n] == reset);
            assert(resets@.take(n + 1).drop_last() =~= resets@.take(n));
            assert(resets@.take(n + 1).last() == reset);
        }
        if !target.contains(reset.stream_id.as_str()) {
            return Err(
                Status::new(
                    Code::InvalidArgument,
                    join3("reset Stream '", reset.stream_id.as_str(), "' 不在更新后的目标中"),
                ),
            );
        }
        map.insert(reset.stream_id, reset.start);
    }
    proof {
        assert(resets@.take(resets@.len() as int) =~= resets@);
    }
    Ok(map)
}

/// Plans a change of a group.  A stream may be reset only if the changed group has
/// it; a stream that is new to the group must be reset, except where the group stays
/// one over every stream.
pub fn plan_update(
    group: &PersistentGroup,
    target: Option<PersistentTarget>,
    resets: Vec<StreamReset>,
    table: &RouteTable,
) -> (r: Result<UpdatePlan, Status>)
    requires
        group.wf(),
        target matches Some(t) ==> t.wf(),
        table.wf(),
    ensures
        ({
            let new = target_after(*group, target);
            let named = resets_of(resets@);
            match r {
                Ok(p) => {
                    &&& forall|i: int|
                        0 <= i < resets@.len() ==> covers(new, (#[trigger] resets@[i]).stream_id@)
                    &&& p.target@ == new && p.target.wf()
                    &&& p.target_changed == (new != group.target@)
                    &&& texts_increase(text_views(p.desired@))
                    &&& forall|x: Seq<char>| #[trigger]
                        text_views(p.desired@).contains(x) <==> is_targeted(new, table@, x)
                    &&& p.resets.wf() && p.resets@ == named
                    &&& texts_increase(text_views(p.implicit@))
                    &&& forall|x: Seq<char>| #[trigger]
                        text_views(p.implicit@).contains(x) <==> lacks_start(
                            *group,
                            new,
                            table@,
                            named,
                            x,
                        )
                    &&& stays_all(*group, new) || p.implicit@.len() == 0
                },
                Err(s) => {
                    ||| exists|i: int|
                        0 <= i < resets@.len() && !covers(new, (#[trigger] resets@[i]).stream_id@)
                            && (forall|j: int|
                            0 <= j < i ==> covers(new, (#[trigger] resets@[j]).stream_id@)) && s@
                            == says(
                            Code::InvalidArgument,
                            "reset Stream '"@ + resets@[i].stream_id@ + "' 不在更新后的目标中"@,
                        )
                    ||| (forall|i: int|
                        0 <= i < resets@.len() ==> covers(
                            new,
                            (#[trigger] resets@[i]).stream_id@,
                        )) && !stays_all(*group, new) && (exists|x: Seq<char>|
                        lacks_start(*group, new, table@, named, x)) && s@ == says(
                        Code::InvalidArgument,
                        "新增目标 Stream 必须在 resets 中显式指定起点"@,
                    )
                },
            }
        }),
{
    let ghost new = target_after(*group, target);
    let target = match target {
        Some(t) => t,
        None => group.target.copy(),
    };
    let target_changed = !target.same(&group.target);
    let map = match collect_resets(&target, resets) {
        Ok(map) => map,
        Err(s) => return Err(s),
    };
    let ghost named = resets_of(resets@);
    let desired = targeted(&target, table);
    let added = without_progress(&desired, &group.progress);
    let reset_names = map.names();
    let implicit = select_texts(&added, &reset_names, false);
    proof {
        let all = text_views(added@);
        let keep = |x: Seq<char>| text_views(reset_names@).contains(x) == false;
        lemma_filter_increases(all, keep);
        assert forall|x: Seq<char>| #[trigger] text_views(implicit@).contains(x) <==> lacks_start(
            *group,
            new,
            table@,
            named,
            x,
        ) by {
            lemma_filter_holds(all, keep, x);
            assert(text_views(reset_names@).contains(x) <==> named.dom().contains(x));
            assert(all.contains(x) <==> (text_views(desired@).contains(x)
                && !group.progress@.dom().contains(x)));
        }
    }
    let is_all = match &target {
        PersistentTarget::All => true,
        PersistentTarget::Streams(_) => false,
    };
    if implicit.len() > 0 && (target_changed || !is_all) {
        proof {
            let x = text_views(implicit@)[0];
            assert(text_views(implicit@).contains(x));
            assert(lacks_start(*group, new, table@, named, x));
        }
        return Err(
            Status::of(Code::InvalidArgument, "新增目标 Stream 必须在 resets 中显式指定起点"),
        );
    }
    Ok(UpdatePlan { target, target_changed, desired, resets: map, implicit })
}

/// Where a reset stream begins, or why it cannot.
pub open spec fn reset_version(start: Option<ResetStart>, head: u64, stream: Seq<char>) -> Result<
    u64,
    StatusView,
> {
    match start {
        Some(ResetStart::Beginning) => Ok(0),
        Some(ResetStart::Now) => Ok(capped_sum(head, 1)),
        Some(ResetStart::NextVersion(next)) => if next <= capped_sum(head, 1) {
            Ok(next)
        } else {
            Err(
                says(
                    Code::InvalidArgument,
                    "stream '"@ + stream + "' 的 reset next_version 超过 head + 1"@,
                ),
            )
        },
        None => Err(says(Code::InvalidArgument, "reset start is required"@)),
    }
}

fn reset_next(start: &Option<ResetStart>, head: u64, stream: &str) -> (r: Result<u64, Status>)
    ensures
        match reset_version(*start, head, stream@) {
            Ok(n) => r == Ok::<u64, Status>(n),
            Err(v) => r matches Err(s) && s@ == v,
        },
{
    match start {
        Some(ResetStart::Beginning) => Ok(0),
        Some(ResetStart::Now) => Ok(head.saturating_add(1)),
        Some(ResetStart::NextVersion(next)) => if *next <= head.saturating_add(1) {
            Ok(*next)
        } else {
            Err(
                Status::new(
                    Code::InvalidArgument,
                    join3("stream '", stream, "' 的 reset next_version 超过 head + 1"),
                ),
            )
        },
        None => Err(Status::of(Code::InvalidArgument, "reset start is required")),
    }
}

/// `p` is the progress of a changed group: streams that are reset begin anew, those
/// that come in by themselves at their beginning, the others go on, and a stream
/// that is no longer wanted has none.
pub open spec fn progress_after(
    was: Map<Seq<char>, StreamProgress>,
    desired: Seq<Seq<char>>,
    implicit_heads: Map<Seq<char>, (u64, u64)>,
    resets: Map<Seq<char>, Option<ResetStart>>,
    reset_heads: Map<Seq<char>, (u64, u64)>,
    p: Map<Seq<char>, StreamProgress>,
) -> bool {
    &&& forall|x: Seq<char>| #[trigger]
        p.dom().contains(x) <==> (desired.contains(x) && (was.dom().contains(x)
            || implicit_heads.dom().contains(x) || resets.dom().contains(x)))
    &&& forall|x: Seq<char>| #[trigger]
        p.dom().contains(x) ==> if resets.dom().contains(x) {
            reset_version(resets[x], reset_heads[x].0, x) matches Ok(next) && is_fresh(
                p[x],
                next,
                reset_heads[x].1,
            )
        } else if implicit_heads.dom().contains(x) {
            is_fresh(p[x], 0, implicit_heads[x].1)
        } else {
            p[x] == was[x]
        }
}

fn keep_parked(parked: Vec<Parked>, keep: &Vec<String>) -> (out: Vec<Parked>)
    ensures
        out@ == parked@.filter(|p: Parked| text_views(keep@).contains(p.stream_id@)),
{
    let ghost f = |p: Parked| text_views(keep@).contains(p.stream_id@);
    let mut out: Vec<Parked> = Vec::new();
    proof {
        reveal(Seq::filter);
        assert(parked@.take(0) =~= Seq::<Parked>::empty());
    }
    for p in it: parked
        invariant
            it.seq() == parked@,
            f == (|p: Parked| text_views(keep@).contains(p.stream_id@)),
            out@ == parked@.take(it.index() as int).filter(f),
    {
        let ghost n = it.index() as int;
        proof {
            reveal(Seq::filter);
            assert(parked@.take(n + 1).drop_last() =~= parked@.take(n));
            assert(parked@.take(n + 1).last() == p);
        }
        if holds_text(keep, p.stream_id.as_str()) {
            out.push(p);
        }
    }
    proof {
        assert(parked@.take(parked@.len() as int) =~= parked@);
    }
    out
}

/// Changes a group as planned.  The second part of the result names the streams that
/// keep their state in the new epoch of the group; there is none where the epoch
/// stays.
pub fn apply_update(
    group: PersistentGroup,
    plan: UpdatePlan,
    settings: PersistentSettings,
    implicit_heads: &TextMap<(u64, u64)>,
    reset_heads: &TextMap<(u64, u64)>,
) -> (r: Result<(PersistentGroup, Option<Vec<String>>), Status>)
    requires
        group.wf(),
        plan.target.wf(),
        plan.resets.wf(),
        implicit_heads.wf(),
        reset_heads.wf(),
        forall|x: Seq<char>| #[trigger]
            plan.resets@.dom().contains(x) ==> reset_heads@.dom().contains(x),
    ensures
        ({
            let desired = text_views(plan.desired@);
            let resets = plan.resets@;
            let kept = |x: Seq<char>| desired.contains(x) && !resets.dom().contains(x);
            match r {
                Ok((g, epoch)) => {
                    &&& g.wf()
                    &&& forall|x: Seq<char>| #[trigger]
                        resets.dom().contains(x) ==> reset_version(
                            resets[x],
                            reset_heads@[x].0,
                            x,
                        ) is Ok
                    &&& progress_after(
                        group.progress@,
                        desired,
                        implicit_heads@,
                        resets,
                        reset_heads@,
                        g.progress@,
                    )
                    &&& g.pending_retries@ == group.pending_retries@.restrict(
                        Set::new(|k: (Seq<char>, u64)| kept(k.0)),
                    )
                    &&& g.parked@ == group.parked@.filter(|p: Parked| kept(p.stream_id@))
                    &&& g.target == plan.target
                    &&& g.settings == settings
                    &&& g.revision == capped_sum(group.revision, 1)
                    &&& g.name == group.name && g.epoch == group.epoch && g.deliveries
                        == group.deliveries && g.scan_after == group.scan_after
                    &&& if plan.target_changed || resets.dom().len() > 0 {
                        epoch matches Some(streams) && text_views(streams@) == desired.filter(kept)
                    } else {
                        epoch is None
                    }
                },
                Err(s) => exists|i: int|
                    0 <= i < plan.resets.entries@.len() && (reset_version(
                        (#[trigger] plan.resets.entries@[i]).1,
                        reset_heads@[plan.resets.key(i)].0,
                        plan.resets.key(i),
                    ) matches Err(v) && s@ == v) && forall|j: int|
                        0 <= j < i ==> reset_version(
                            (#[trigger] plan.resets.entries@[j]).1,
                            reset_heads@[plan.resets.key(j)].0,
                            plan.resets.key(j),
                        ) is Ok,
            }
        }),
{
    let ghost was = group.progress@;
    let ghost desired = text_views(plan.desired@);
    let ghost resets = plan.resets@;
    let ghost rs = plan.resets;
    let mut progress = group.progress;
    insert_at_beginning(&mut progress, implicit_heads);
    let ghost base = progress@;
    let mut i: usize = 0;
    while i < plan.resets.entries.len()
        invariant
            i <= rs.entries@.len(),
            rs == plan.resets,
            rs.wf(),
            resets == rs@,
            reset_heads.wf(),
            progress.wf(),
            forall|x: Seq<char>| #[trigger]
                rs@.dom().contains(x) ==> reset_heads@.dom().contains(x),
            forall|x: Seq<char>| #[trigger]
                progress@.dom().contains(x) <==> (base.dom().contains(x) || exists|k: int|
                    0 <= k < i && #[trigger] rs.key(k) == x),
            forall|x: Seq<char>|
                base.dom().contains(x) && !resets.dom().contains(x) ==> #[trigger] progress@[x]
                    == base[x],
            forall|k: int|
                0 <= k < i ==> (reset_version(
                    (#[trigger] rs.entries@[k]).1,
                    reset_heads@[rs.key(k)].0,
                    rs.key(k),
                ) matches Ok(next) && is_fresh(
                    progress@[rs.key(k)],
                    next,
                    reset_heads@[rs.key(k)].1,
                )),
        decreases rs.entries@.len() - i,
    {
        let stream = plan.resets.entries[i].0.as_str();
        let ghost name = rs.key(i as int);
        let ghost before = progress@;
        proof {
            rs.lemma_entry(i as int);
            assert(name == stream@);
            assert(rs@.dom().contains(name));
        }
        let (head, generation) = match reset_heads.get(stream) {
            Some(h) => *h,
            None => (0, 0),
        };
        let next: u64 = match reset_next(&plan.resets.entries[i].1, head, stream) {
            Ok(n) => n,
            Err(s) => {
                assert(rs.entries@[i as int].1 == plan.resets.entries@[i as int].1);
                return Err(s);
            },
        };
        let p = StreamProgress::new(next, generation);
        progress.insert(plan.resets.entries[i].0.clone(), p);
        proof {
            assert(progress@ == before.insert(name, p));
            assert forall|x: Seq<char>| #[trigger]
                progress@.dom().contains(x) <==> (base.dom().contains(x) || exists|k: int|
                    0 <= k < i + 1 && #[trigger] rs.key(k) == x) by {
                if before.dom().contains(x) && !base.dom().contains(x) {
                    let k = choose|k: int| 0 <= k < i && #[trigger] rs.key(k) == x;
                    assert(rs.key(k) == x);
                }
                if x == name {
                    assert(rs.key(i as int) == x);
                }
            }
            assert forall|k: int| 0 <= k < i + 1 implies (reset_version(
                (#[trigger] rs.entries@[k]).1,
                reset_heads@[rs.key(k)].0,
                rs.key(k),
            ) matches Ok(next) && is_fresh(
                progress@[rs.key(k)],
                next,
                reset_heads@[rs.key(k)].1,
            )) by {
                if k < i {
                    crate::text::lemma_text_order_total(rs.key(k), name);
                    assert(rs.key(k) != name);
                    assert(progress@[rs.key(k)] == before[rs.key(k)]);
                }
            }
        }
        i += 1;
    }
    let reset_names = plan.resets.names();
    let kept = select_texts(&plan.desired, &reset_names, false);
    let ghost stays = |x: Seq<char>| desired.contains(x) && !resets.dom().contains(x);
    let ghost full = progress@;
    let progress = progress.restrict(&plan.desired);
    let pending_retries = group.pending_retries.restrict(&kept);
    let parked = keep_parked(group.parked, &kept);
    proof {
        let f = |x: Seq<char>| text_views(reset_names@).contains(x) == false;
        assert forall|x: Seq<char>| #[trigger] text_views(kept@).contains(x) <==> stays(x) by {
            lemma_filter_holds(desired, f, x);
            assert(text_views(reset_names@).contains(x) <==> resets.dom().contains(x));
        }
        lemma_filters_agree(desired, f, stays);
        assert(Set::new(|k: (Seq<char>, u64)| text_views(kept@).contains(k.0)) =~= Set::new(
            |k: (Seq<char>, u64)| stays(k.0),
        ));
        assert((|p: Parked| text_views(kept@).contains(p.stream_id@)) =~= (|p: Parked|
            stays(p.stream_id@)));
        assert forall|x: Seq<char>| #[trigger] resets.dom().contains(x) implies full.dom().contains(
            x,
        ) && (reset_version(resets[x], reset_heads@[x].0, x) matches Ok(next) && is_fresh(
            full[x],
            next,
            reset_heads@[x].1,
        )) by {
            let k = rs.index(x);
            assert(rs.key(k) == x);
            rs.lemma_entry(k);
            let e = rs.entries@[k];
        }
        assert forall|x: Seq<char>| #[trigger] full.dom().contains(x) <==> (was.dom().contains(x)
            || implicit_heads@.dom().contains(x) || resets.dom().contains(x)) by {
            if full.dom().contains(x) && !base.dom().contains(x) {
                let k = choose|k: int| 0 <= k < rs.entries@.len() && #[trigger] rs.key(k) == x;
                rs.lemma_entry(k);
            }
        }
        assert(progress_after(
            was,
            desired,
            implicit_heads@,
            resets,
            reset_heads@,
            progress@,
        ));
    }
    let resets_any = reset_names.len() > 0;
    proof {
        lemma_no_names(reset_names@, resets);
    }
    let epoch = if plan.target_changed || resets_any {
        Some(kept)
    } else {
        None
    };
    let g = PersistentGroup {
        name: group.name,
        revision: group.revision.saturating_add(1),
        epoch: group.epoch,
        target: plan.target,
        settings,
        progress,
        pending_retries,
        deliveries: group.deliveries,
        parked,
        scan_after: group.scan_after,
    };
    Ok((g, epoch))
}

proof fn lemma_filters_agree(
    s: Seq<Seq<char>>,
    f: spec_fn(Seq<char>) -> bool,
    g: spec_fn(Seq<char>) -> bool,
)
    requires
        forall|i: int| 0 <= i < s.len() ==> f(#[trigger] s[i]) == g(s[i]),
    ensures
        s.filter(f) == s.filter(g),
    decreases s.len(),
{
    reveal(Seq::filter);
    if s.len() > 0 {
        assert(f(s[s.len() - 1]) == g(s[s.len() - 1]));
        assert forall|i: int| 0 <= i < s.drop_last().len() implies f(#[trigger] s.drop_last()[i])
            == g(s.drop_last()[i]) by {
            assert(s.drop_last()[i] == s[i]);
        }
        lemma_filters_agree(s.drop_last(), f, g);
    }
}

proof fn lemma_no_names(names: Seq<String>, m: Map<Seq<char>, Option<ResetStart>>)
    requires
        forall|x: Seq<char>| #[trigger] text_views(names).contains(x) <==> m.dom().contains(x),
    ensures
        names.len() > 0 <==> m.dom().len() > 0,
{
    let views = text_views(names);
    assert(views.to_set() =~= m.dom());
    views.lemma_to_set_map_commutes(|x: Seq<char>| x);
    vstd::seq_lib::seq_to_set_is_finite(views);
    if names.len() > 0 {
        assert(views.contains(views[0]));
        assert(m.dom().contains(views[0]));
        if m.dom().len() == 0 {
            assert(m.dom() =~= Set::empty());
        }
    } else {
        assert(m.dom() =~= Set::empty());
    }
}

/// What a fetch request asks for.
#[derive(Clone, Copy, Debug, PartialEq, Eq, Structural)]
pub struct FetchLimits {
    pub max_events: u32,
    pub max_bytes: u64,
    pub wait_ms: u64,
}

/// Reads the limits of a fetch request: what is 0 has its default, and nothing may
/// go beyond the largest limits.
pub fn fetch_limits(
    name: &str,
    consumer_id: &str,
    asked: &FetchLimits,
    defaults: &FetchLimits,
    max_wait_ms: u64,
) -> (r: Result<FetchLimits, Status>)
    ensures
        ({
            let l = FetchLimits {
                max_events: or_default(asked.max_events as u64, defaults.max_events as u64) as u32,
                max_bytes: or_default(asked.max_bytes, defaults.max_bytes),
                wait_ms: or_default(asked.wait_ms, defaults.wait_ms),
            };
            if name@.len() == 0 || consumer_id@.len() == 0 {
                r matches Err(s) && s@ == says(
                    Code::InvalidArgument,
                    "name and consumer_id are required"@,
                )
            } else if l.max_events > MAX_FETCH_EVENTS || l.max_bytes > MAX_FETCH_BYTES || l.wait_ms
                > max_wait_ms {
                r matches Err(s) && s@ == says(
                    Code::InvalidArgument,
                    "Fetch 超过 max_events/max_bytes/wait_ms 上限"@,
                )
            } else {
                r == Ok::<FetchLimits, Status>(l)
            }
        }),
{
    if name.is_empty() || consumer_id.is_empty() {
        return Err(Status::of(Code::InvalidArgument, "name and consumer_id are required"));
    }
    let l = FetchLimits {
        max_events: if asked.max_events == 0 {
            defaults.max_events
        } else {
            asked.max_events
        },
        max_bytes: if asked.max_bytes == 0 {
            defaults.max_bytes
        } else {
            asked.max_bytes
        },
        wait_ms: if asked.wait_ms == 0 {
            defaults.wait_ms
        } else {
            asked.wait_ms
        },
    };
    if l.max_events > MAX_FETCH_EVENTS || l.max_bytes > MAX_FETCH_BYTES || l.wait_ms > max_wait_ms {
        return Err(
            Status::of(Code::InvalidArgument, "Fetch 超过 max_events/max_bytes/wait_ms 上限"),
        );
    }
    Ok(l)
}

/// How long a fetch sleeps before it looks again; `None` if it answers now: it has
/// something to deliver, has to hold back, or waited long enough.
pub fn fetch_pause(delivered: usize, throttled: bool, waited_long_enough: bool, retry_after_ms: u64)
    -> (r: Option<u64>)
    ensures
        r == (if delivered > 0 || throttled || waited_long_enough {
            None
        } else if retry_after_ms == 0 || retry_after_ms > POLL_INTERVAL_MS {
            Some(POLL_INTERVAL_MS)
        } else {
            Some(retry_after_ms)
        }),
{
    if delivered > 0 || throttled || waited_long_enough {
        None
    } else if retry_after_ms == 0 || retry_after_ms > POLL_INTERVAL_MS {
        Some(POLL_INTERVAL_MS)
    } else {
        Some(retry_after_ms)
    }
}

/// What a consumer says of a delivery.
#[derive(Clone, Copy, Debug, PartialEq, Eq, Structural)]
pub enum SettlementAction {
    Ack,
    Retry,
    Park,
    Skip,
}

/// A settlement of a request; an unknown action is `None`.
#[derive(Debug)]
pub struct SettlementRequest {
    pub delivery_id: Vec<u8>,
    pub action: Option<SettlementAction>,
    pub reason: String,
}

/// A settlement.
#[derive(Debug)]
pub struct Settlement {
    pub delivery_id: u128,
    pub action: SettlementAction,
    pub reason: String,
}

/// `s` is what the request asks for.
pub open spec fn settles(s: Settlement, r: SettlementRequest) -> bool {
    &&& s.delivery_id == big_endian(r.delivery_id@)
    &&& r.action == Some(s.action)
    &&& s.reason == r.reason
}

/// What is wrong with a settlement.
pub open spec fn settlement_fault(r: SettlementRequest) -> Option<StatusView> {
    if r.delivery_id@.len() != 16 {
        Some(says(Code::InvalidArgument, "delivery_id"@ + " 必须是 16 字节 UUID"@))
    } else if r.action is None {
        Some(says(Code::InvalidArgument, "unknown settlement action"@))
    } else {
        None
    }
}

/// Reads the settlements of a request, in order.
pub fn parse_settlements(consumer_id: &str, requests: Vec<SettlementRequest>) -> (r: Result<
    Vec<Settlement>,
    Status,
>)
    ensures
        match r {
            Ok(out) => consumer_id@.len() > 0 && requests@.len() > 0 && out@.len() == requests@.len()
                && forall|i: int|
                0 <= i < out@.len() ==> settlement_fault(requests@[i]) is None && settles(
                    #[trigger] out@[i],
                    requests@[i],
                ),
            Err(s) => if consumer_id@.len() == 0 || requests@.len() == 0 {
                s@ == says(Code::InvalidArgument, "consumer_id 与 settlements 不能为空"@)
            } else {
                exists|i: int|
                    0 <= i < requests@.len() && settlement_fault(#[trigger] requests@[i]) == Some(
                        s@,
                    ) && forall|j: int|
                        0 <= j < i ==> settlement_fault(#[trigger] requests@[j]) is None
            },
        },
{
    if consumer_id.is_empty() || requests.is_empty() {
        return Err(Status::of(Code::InvalidArgument, "consumer_id 与 settlements 不能为空"));
    }
    let mut out: Vec<Settlement> = Vec::new();
    for q in it: requests
        invariant
            it.seq() == requests@,
            consumer_id@.len() > 0,
            requests@.len() > 0,
            out@.len() == it.index(),
            forall|i: int|
                0 <= i < it.index() ==> settlement_fault(#[trigger] requests@[i]) is None,
            forall|i: int| 0 <= i < it.index() ==> settles(#[trigger] out@[i], requests@[i]),
    {
        let ghost n = it.index() as int;
        assert(requests@[n] == q);
        match parse_settlement(q) {
            Ok(s) => {
                out.push(s);
            },
            Err(s) => {
                assert(settlement_fault(requests@[n]) == Some(s@));
                return Err(s);
            },
        }
    }
    Ok(out)
}

fn parse_settlement(q: SettlementRequest) -> (r: Result<Settlement, Status>)
    ensures
        match r {
            Ok(s) => settlement_fault(q) is None && settles(s, q),
            Err(s) => settlement_fault(q) == Some(s@),
        },
{
    let delivery_id: u128 = match parse_uuid(&q.delivery_id, "delivery_id") {
        Ok(id) => id,
        Err(s) => return Err(s),
    };
    match q.action {
        Some(action) => Ok(Settlement { delivery_id, action, reason: q.reason }),
        None => Err(Status::of(Code::InvalidArgument, "unknown settlement action")),
    }
}

/// What came of a settlement.
#[derive(Clone, Copy, Debug, PartialEq, Eq, Structural)]
pub enum SettlementStatus {
    Applied,
    AlreadySettled,
    StaleLease,
    WrongConsumer,
}

/// What came of a settlement, for the consumer.
#[derive(Debug)]
pub struct SettlementResult {
    pub delivery_id: Vec<u8>,
    pub status: SettlementStatus,
}

/// Pairs the settled deliveries with what came of them.
pub fn settlement_results(ids: &Vec<u128>, settled: &Vec<SettlementStatus>) -> (out: Vec<
    SettlementResult,
>)
    ensures
        out@.len() == (if ids@.len() < settled@.len() {
            ids@.len()
        } else {
            settled@.len()
        }),
        forall|i: int|
            0 <= i < out@.len() ==> (#[trigger] out@[i]).delivery_id@.len() == 16 && big_endian(
                out@[i].delivery_id@,
            ) == ids@[i] && out@[i].status == settled@[i],
{
    let mut out: Vec<SettlementResult> = Vec::new();
    let mut i: usize = 0;
    while i < ids.len() && i < settled.len()
        invariant
            i <= ids@.len(),
            i <= settled@.len(),
            out@.len() == i,
            forall|k: int|
                0 <= k < i ==> (#[trigger] out@[k]).delivery_id@.len() == 16 && big_endian(
                    out@[k].delivery_id@,
                ) == ids@[k] && out@[k].status == settled@[k],
        decreases ids@.len() - i,
    {
        out.push(SettlementResult { delivery_id: id_bytes(ids[i]), status: settled[i] });
        i += 1;
    }
    out
}

/// One page of the events set aside: for each its place among them and the read that
/// finds its event, if its stream has a route; and where the next page begins, 0 if
/// there is none.
#[derive(Debug)]
pub struct ParkedPage {
    pub reads: Vec<(usize, Option<(u64, PersistentCursor)>)>,
    pub next_offset: u32,
}

/// How many events a page holds at most.
pub open spec fn page_limit(limit: u32) -> nat {
    if limit == 0 {
        100
    } else if limit < 1000 {
        limit as nat
    } else {
        1000
    }
}

/// How many events the page that begins at `offset` holds.
pub open spec fn page_len(total: nat, offset: u32, limit: u32) -> nat {
    if offset >= total {
        0
    } else if total - offset < page_limit(limit) {
        (total - offset) as nat
    } else {
        page_limit(limit)
    }
}

/// Plans a page of the events set aside.
pub fn list_parked(group: &PersistentGroup, table: &RouteTable, offset: u32, limit: u32) -> (page:
    ParkedPage)
    requires
        table.wf(),
    ensures
        ({
            let total = group.parked@.len();
            let n = page_len(total, offset, limit);
            &&& page.reads@.len() == n
            &&& forall|i: int|
                0 <= i < n ==> {
                    let p = group.parked@[offset + i];
                    let r = #[trigger] page.reads@[i];
                    &&& r.0 == offset + i
                    &&& match r.1 {
                        Some((shard, c)) => table@.streams.dom().contains(p.stream_id@) && shard
                            == table@.streams[p.stream_id@] && c.stream_id@ == p.stream_id@
                            && c.from_version == p.version && c.max_count == 1,
                        None => !table@.streams.dom().contains(p.stream_id@),
                    }
                }
            &&& page.next_offset == (if offset + n < total {
                (offset + n) as u32
            } else {
                0
            })
        }),
{
    let total: usize = group.parked.len();
    let most: usize = if limit == 0 {
        100
    } else if limit < 1000 {
        limit as usize
    } else {
        1000
    };
    let mut reads: Vec<(usize, Option<(u64, PersistentCursor)>)> = Vec::new();
    if offset as usize >= total {
        return ParkedPage { reads, next_offset: 0 };
    }
    let mut at: usize = offset as usize;
    while at < total && reads.len() < most
        invariant
            table.wf(),
            total == group.parked@.len(),
            offset <= at <= total,
            reads@.len() == at - offset,
            reads@.len() <= most,
            forall|i: int|
                0 <= i < reads@.len() ==> {
                    let p = group.parked@[offset + i];
                    let r = #[trigger] reads@[i];
                    &&& r.0 == offset + i
                    &&& match r.1 {
                        Some((shard, c)) => table@.streams.dom().contains(p.stream_id@) && shard
                            == table@.streams[p.stream_id@] && c.stream_id@ == p.stream_id@
                            && c.from_version == p.version && c.max_count == 1,
                        None => !table@.streams.dom().contains(p.stream_id@),
                    }
                },
        decreases total - at,
    {
        let p = &group.parked[at];
        let read = match table.streams.get(p.stream_id.as_str()) {
            Some(shard) => Some(
                (
                    *shard,
                    PersistentCursor {
                        stream_id: p.stream_id.clone(),
                        from_version: p.version,
                        max_count: 1,
                    },
                ),
            ),
            None => None,
        };
        reads.push((at, read));
        at += 1;
    }
    let next_offset: u32 = if at < total {
        at as u32
    } else {
        0
    };
    ParkedPage { reads, next_offset }
}

/// An event that was set aside, for whoever asks.
#[derive(Debug)]
pub struct ParkedEvent {
    pub parked_id: Vec<u8>,
    pub event: Option<SubscriptionEvent>,
    pub attempts: u32,
    pub reason: String,
    pub parked_at_ms: u64,
}

/// Shows an event that was set aside; `event` is what its read found first.
pub fn parked_event(parked: &Parked, event: Option<Event>) -> (p: ParkedEvent)
    ensures
        p.parked_id@.len() == 16,
        big_endian(p.parked_id@) == parked.parked_id,
        match event {
            Some(e) => p.event matches Some(shown) && projects(shown, e),
            None => p.event is None,
        },
        p.attempts == parked.attempts,
        p.reason@ == parked.reason@,
        p.parked_at_ms == parked.parked_at_ms,
{
    ParkedEvent {
        parked_id: id_bytes(parked.parked_id),
        event: match event {
            Some(e) => Some(public_subscription_event(e)),
            None => None,
        },
        attempts: parked.attempts,
        reason: parked.reason.clone(),
        parked_at_ms: parked.parked_at_ms,
    }
}


/// The generation in which a stream is owned is the one that the table holds; a table
/// that holds none, or none above it, stands for the first.
pub proof fn law_ownership_generation_is_at_least_the_first(t: RouteTableView, stream: Seq<char>)
    ensures
        generation_in(t, stream) >= 1,
        !t.generations.dom().contains(stream) ==> generation_in(t, stream) == 1,
        t.generations.dom().contains(stream) && t.generations[stream] >= 1 ==> generation_in(
            t,
            stream,
        ) == t.generations[stream],
{
}

/// Streams that were handed over since the group looked last, and those alone, are
/// reconciled, with the generation that they are owned in now.
pub proof fn law_only_streams_handed_over_are_reconciled(
    group: PersistentGroup,
    table: RouteTable,
    out: TextMap<u64>,
    x: Seq<char>,
)
    requires
        call_ensures(newer_generations, (&group, &table), out),
        table@.generations.dom().contains(x),
        table@.generations[x] >= 1,
    ensures
        out@.dom().contains(x) <==> group.progress@.dom().contains(x)
            && table@.streams.dom().contains(x) && table@.generations[x]
            > group.progress@[x].ownership_generation,
        out@.dom().contains(x) ==> out@[x] == table@.generations[x],
{
}

#[verifier::spinoff_prover]
#[verifier::rlimit(50)]
proof fn lemma_heads_after(
    have: Map<Seq<char>, (u64, u64)>,
    heads: Seq<PersistentHead>,
    t: RouteTableView,
    x: Seq<char>,
)
    ensures
        (forall|i: int| 0 <= i < heads.len() ==> (#[trigger] heads[i]).stream_id@ != x) ==> (
        heads_after(have, heads, t).dom().contains(x) <==> have.dom().contains(x)) && (
        have.dom().contains(x) ==> heads_after(have, heads, t)[x] == have[x]),
        forall|i: int|
            0 <= i < heads.len() && (#[trigger] heads[i]).stream_id@ == x && (forall|j: int|
                i < j < heads.len() ==> (#[trigger] heads[j]).stream_id@ != x) ==> heads_after(
                have,
                heads,
                t,
            ).dom().contains(x) && heads_after(have, heads, t)[x] == (
                heads[i].current_version,
                generation_in(t, x),
            ),
    decreases heads.len(),
{
    if heads.len() > 0 {
        let rest = heads.drop_last();
        let n = heads.len() - 1;
        lemma_heads_after(have, rest, t, x);
        assert(heads.last() == heads[n]);
        if forall|i: int| 0 <= i < heads.len() ==> (#[trigger] heads[i]).stream_id@ != x {
            assert forall|i: int| 0 <= i < rest.len() implies (#[trigger] rest[i]).stream_id@
                != x by {
                assert(rest[i] == heads[i]);
            }
        }
        assert forall|i: int|
            0 <= i < heads.len() && (#[trigger] heads[i]).stream_id@ == x && (forall|j: int|
                i < j < heads.len() ==> (#[trigger] heads[j]).stream_id@ != x) implies heads_after(
            have,
            heads,
            t,
        ).dom().contains(x) && heads_after(have, heads, t)[x] == (
            heads[i].current_version,
            generation_in(t, x),
        ) by {
            if i < n {
                assert(rest[i] == heads[i]);
                assert forall|j: int| i < j < rest.len() implies (#[trigger] rest[j]).stream_id@
                    != x by {
                    assert(rest[j] == heads[j]);
                }
            }
        }
    }
}

/// What is noted of a stream is the last head that was reported for it; of a stream
/// without a report, what was known stays.
pub proof fn law_last_reported_head_is_noted(
    have: Map<Seq<char>, (u64, u64)>,
    heads: Seq<PersistentHead>,
    t: RouteTableView,
    x: Seq<char>,
    i: int,
)
    requires
        0 <= i < heads.len() ==> heads[i].stream_id@ == x && forall|j: int|
            i < j < heads.len() ==> (#[trigger] heads[j]).stream_id@ != x,
    ensures
        0 <= i < heads.len() ==> heads_after(have, heads, t).dom().contains(x) && heads_after(
            have,
            heads,
            t,
        )[x].0 == heads[i].current_version,
        0 <= i < heads.len() && !t.generations.dom().contains(x) ==> heads_after(
            have,
            heads,
            t,
        )[x].1 == 1,
        0 <= i < heads.len() && t.generations.dom().contains(x) && t.generations[x] >= 1
            ==> heads_after(have, heads, t)[x].1 == t.generations[x],
        (forall|j: int| 0 <= j < heads.len() ==> (#[trigger] heads[j]).stream_id@ != x) && have
            .dom().contains(x) ==> heads_after(have, heads, t).dom().contains(x) && heads_after(
            have,
            heads,
            t,
        )[x] == have[x],
{
    lemma_heads_after(have, heads, t, x);
}

/// A new group begins a stream at the version that was named for it, which may not lie
/// beyond the one behind its head; else behind its head where it begins now, and with the
/// first version where it begins at the beginning.
pub proof fn law_group_begins_where_asked(
    from_now: bool,
    next_versions: Map<Seq<char>, u64>,
    stream: Seq<char>,
    head: u64,
)
    requires
        head < u64::MAX,
    ensures
        next_versions.dom().contains(stream) && next_versions[stream] <= head + 1 ==> first_version(
            from_now,
            next_versions,
            stream,
            head,
        ) == Some(next_versions[stream]),
        next_versions.dom().contains(stream) && next_versions[stream] > head + 1 ==> first_version(
            from_now,
            next_versions,
            stream,
            head,
        ) is None,
        !next_versions.dom().contains(stream) && from_now ==> (first_version(
            from_now,
            next_versions,
            stream,
            head,
        ) matches Some(v) && v == head + 1),
        !next_versions.dom().contains(stream) && !from_now ==> first_version(
            from_now,
            next_versions,
            stream,
            head,
        ) == Some(0u64),
{
}

/// Where a stream begins, it begins untouched: nothing settled, nobody holding it.
pub proof fn law_begun_stream_is_untouched(
    p: StreamProgress,
    start: StartSpec,
    stream: Seq<char>,
    head: (u64, u64),
)
    requires
        begins(p, start, stream, head),
    ensures
        first_version(start.from_now, start.next_versions@, stream, head.0) == Some(p.next_version),
        p.ownership_generation == head.1,
        p.resolved_gaps@.len() == 0,
        p.lease is None,
{
}

/// Streams that a group of all streams meets later begin at their beginning, in the
/// generation they are owned in, and untouched.
pub proof fn law_streams_met_later_begin_at_their_beginning(
    heads: TextMap<(u64, u64)>,
    r: TextMap<StreamProgress>,
    x: Seq<char>,
)
    requires
        call_ensures(ensured_progress, (&heads,), r),
    ensures
        r@.dom().contains(x) <==> heads@.dom().contains(x),
        heads@.dom().contains(x) ==> r@[x].next_version == 0 && r@[x].ownership_generation
            == heads@[x].1 && r@[x].resolved_gaps@.len() == 0 && r@[x].lease is None,
{
}

/// The streams that a group lacks: of one of all streams, those that have an owner and no
/// progress; of one of named streams, none.
pub proof fn law_missing_streams_are_owned_and_unknown(
    group: PersistentGroup,
    table: RouteTable,
    out: Vec<String>,
    x: Seq<char>,
)
    requires
        call_ensures(missing_streams, (&group, &table), out),
    ensures
        text_views(out@).contains(x) <==> group.target is All && table@.streams.dom().contains(x)
            && !group.progress@.dom().contains(x),
{
}

/// A target of all streams stands for those that have an owner; one of named streams for
/// those names.
pub proof fn law_target_stands_for_these_streams(
    target: PersistentTarget,
    table: RouteTable,
    out: Vec<String>,
    x: Seq<char>,
)
    requires
        call_ensures(targeted, (&target, &table), out),
    ensures
        target is All ==> (text_views(out@).contains(x) <==> table@.streams.dom().contains(x)),
        target matches PersistentTarget::Streams(names) ==> (text_views(out@).contains(x)
            <==> text_views(names@).contains(x)),
{
}

/// A reset goes to the beginning, behind the head, or to a version that does not lie
/// beyond the one behind the head; anything else is refused.
pub proof fn law_reset_goes_where_asked(start: Option<ResetStart>, head: u64, stream: Seq<char>)
    requires
        head < u64::MAX,
    ensures
        start matches Some(ResetStart::Beginning) ==> reset_version(start, head, stream) == Ok::<
            u64,
            StatusView,
        >(0),
        start matches Some(ResetStart::Now) ==> (reset_version(start, head, stream) matches Ok(v)
            && v == head + 1),
        start matches Some(ResetStart::NextVersion(n)) ==> (n <= head + 1 ==> reset_version(
            start,
            head,
            stream,
        ) == Ok::<u64, StatusView>(n)),
        start matches Some(ResetStart::NextVersion(n)) ==> (n > head + 1 ==> reset_version(
            start,
            head,
            stream,
        ) is Err),
        start is None ==> reset_version(start, head, stream) is Err,
        reset_version(start, head, stream) matches Err(s) ==> s.code == Code::InvalidArgument,
{
}

/// After an update a group has progress for exactly the streams it wants and has or is
/// given a start for.  A stream that is reset, or that the group meets, begins untouched
/// where it was told to; every other stream keeps its progress.
pub proof fn law_update_keeps_what_is_not_reset(
    was: Map<Seq<char>, StreamProgress>,
    desired: Seq<Seq<char>>,
    implicit_heads: Map<Seq<char>, (u64, u64)>,
    resets: Map<Seq<char>, Option<ResetStart>>,
    reset_heads: Map<Seq<char>, (u64, u64)>,
    p: Map<Seq<char>, StreamProgress>,
    x: Seq<char>,
)
    requires
        progress_after(was, desired, implicit_heads, resets, reset_heads, p),
    ensures
        p.dom().contains(x) ==> desired.contains(x),
        desired.contains(x) && (was.dom().contains(x) || implicit_heads.dom().contains(x)
            || resets.dom().contains(x)) ==> p.dom().contains(x),
        p.dom().contains(x) && !resets.dom().contains(x) && !implicit_heads.dom().contains(x)
            ==> was.dom().contains(x) && p[x] == was[x],
        p.dom().contains(x) && resets.dom().contains(x) ==> {
            &&& p[x].resolved_gaps@.len() == 0 && p[x].lease is None
            &&& p[x].ownership_generation == reset_heads[x].1
            &&& resets[x] matches Some(ResetStart::Beginning) ==> p[x].next_version == 0
            &&& resets[x] matches Some(ResetStart::NextVersion(n)) ==> p[x].next_version == n
            &&& resets[x] matches Some(ResetStart::Now) ==> (reset_heads[x].0 < u64::MAX
                ==> p[x].next_version == reset_heads[x].0 + 1)
        },
        p.dom().contains(x) && !resets.dom().contains(x) && implicit_heads.dom().contains(x)
            ==> p[x].next_version == 0 && p[x].ownership_generation == implicit_heads[x].1
            && p[x].resolved_gaps@.len() == 0 && p[x].lease is None,
{
    assert(p.dom().contains(x) <==> (desired.contains(x) && (was.dom().contains(x)
        || implicit_heads.dom().contains(x) || resets.dom().contains(x))));
}

proof fn lemma_resets_of(list: Seq<StreamReset>, x: Seq<char>)
    ensures
        (forall|i: int| 0 <= i < list.len() ==> (#[trigger] list[i]).stream_id@ != x)
            ==> !resets_of(list).dom().contains(x),
        forall|i: int|
            0 <= i < list.len() && (#[trigger] list[i]).stream_id@ == x && (forall|j: int|
                i < j < list.len() ==> (#[trigger] list[j]).stream_id@ != x) ==> resets_of(
                list,
            ).dom().contains(x) && resets_of(list)[x] == list[i].start,
    decreases list.len(),
{
    if list.len() > 0 {
        let rest = list.drop_last();
        let n = list.len() - 1;
        lemma_resets_of(rest, x);
        assert(list.last() == list[n]);
        if forall|i: int| 0 <= i < list.len() ==> (#[trigger] list[i]).stream_id@ != x {
            assert forall|i: int| 0 <= i < rest.len() implies (#[trigger] rest[i]).stream_id@
                != x by {
                assert(rest[i] == list[i]);
            }
        }
        assert forall|i: int|
            0 <= i < list.len() && (#[trigger] list[i]).stream_id@ == x && (forall|j: int|
                i < j < list.len() ==> (#[trigger] list[j]).stream_id@ != x) implies resets_of(
            list,
        ).dom().contains(x) && resets_of(list)[x] == list[i].start by {
            if i < n {
                assert(rest[i] == list[i]);
                assert forall|j: int| i < j < rest.len() implies (#[trigger] rest[j]).stream_id@
                    != x by {
                    assert(rest[j] == list[j]);
                }
            }
        }
    }
}

/// Of several resets of a stream the last one counts; a stream without one is not reset.
pub proof fn law_last_reset_counts(list: Seq<StreamReset>, x: Seq<char>, i: int)
    requires
        0 <= i < list.len() ==> list[i].stream_id@ == x && forall|j: int|
            i < j < list.len() ==> (#[trigger] list[j]).stream_id@ != x,
    ensures
        0 <= i < list.len() ==> resets_of(list).dom().contains(x) && resets_of(list)[x]
            == list[i].start,
        (forall|j: int| 0 <= j < list.len() ==> (#[trigger] list[j]).stream_id@ != x)
            ==> !resets_of(list).dom().contains(x),
{
    lemma_resets_of(list, x);
}

/// A stream that an update brings in needs a start, unless the group takes all streams
/// before and after.
pub proof fn law_new_streams_need_a_start(
    group: PersistentGroup,
    target: Option<PersistentTarget>,
    table: RouteTableView,
    resets: Map<Seq<char>, Option<ResetStart>>,
    x: Seq<char>,
)
    ensures
        ({
            let new = target_after(group, target);
            &&& target matches Some(t) ==> new == t@
            &&& target is None ==> new == group.target@
            &&& lacks_start(group, new, table, resets, x) <==> is_targeted(new, table, x)
                && !group.progress@.dom().contains(x) && !resets.dom().contains(x)
            &&& new == TargetView::All ==> (is_targeted(new, table, x) <==> table.streams.dom().contains(
                x,
            ))
            &&& new matches TargetView::Streams(s) ==> (is_targeted(new, table, x) <==> s.contains(x))
            &&& stays_all(group, new) <==> new == TargetView::All && group.target@
                == TargetView::All
        }),
{
}

/// A settlement is read where its delivery is named by sixteen bytes and it has an action;
/// it settles that delivery, by that action and for that reason.
pub proof fn law_settlement_is_read_or_refused(r: SettlementRequest, s: Settlement)
    ensures
        settlement_fault(r) is None <==> r.delivery_id@.len() == 16 && r.action is Some,
        settlement_fault(r) matches Some(fault) ==> fault.code == Code::InvalidArgument,
        settles(s, r) <==> s.delivery_id == big_endian(r.delivery_id@) && r.action == Some(
            s.action,
        ) && s.reason == r.reason,
{
}

/// A page of parked events goes on where it was asked to, holds no more than was asked
/// for -- a hundred where nothing was, never more than a thousand -- and says where the
/// next one begins, or 0 at the end.  Each event is read where its stream is now, that
/// one version alone.
pub proof fn law_parked_events_are_paged(
    group: PersistentGroup,
    table: RouteTable,
    offset: u32,
    limit: u32,
    page: ParkedPage,
    i: int,
)
    requires
        call_ensures(list_parked, (&group, &table, offset, limit), page),
    ensures
        ({
            let total = group.parked@.len();
            let n = page.reads@.len();
            &&& limit == 0 ==> n <= 100
            &&& 1 <= limit <= 1000 ==> n <= limit
            &&& limit > 1000 ==> n <= 1000
            &&& offset >= total ==> n == 0 && page.next_offset == 0
            &&& offset < total ==> offset + n <= total
            &&& offset < total && offset + n < total ==> n == (if limit == 0 {
                100
            } else if limit <= 1000 {
                limit as nat
            } else {
                1000
            })
            &&& offset < total && offset + n == total ==> page.next_offset == 0
            &&& offset < total && offset + n < total && total <= u32::MAX ==> page.next_offset
                == offset + n
            &&& 0 <= i < n ==> {
                let p = group.parked@[offset + i];
                let r = page.reads@[i];
                &&& r.0 == offset + i
                &&& r.1 is Some <==> table@.streams.dom().contains(p.stream_id@)
                &&& r.1 matches Some((shard, c)) ==> shard == table@.streams[p.stream_id@]
                    && c.stream_id@ == p.stream_id@ && c.from_version == p.version && c.max_count
                    == 1
            }
        }),
{
    if 0 <= i < page.reads@.len() {
        let r = page.reads@[i];
    }
}

/// A fetch needs the names of its group and consumer.  What it does not say has its
/// default; more than a thousand events, seven mebibytes or the longest wait is refused.
pub proof fn law_fetch_limits_are_checked(
    name: &str,
    consumer_id: &str,
    asked: FetchLimits,
    defaults: FetchLimits,
    max_wait_ms: u64,
    r: Result<FetchLimits, Status>,
)
    requires
        call_ensures(fetch_limits, (name, consumer_id, &asked, &defaults, max_wait_ms), r),
    ensures
        r matches Err(s) ==> s@.code == Code::InvalidArgument,
        r matches Ok(l) ==> {
            &&& name@.len() > 0 && consumer_id@.len() > 0
            &&& l.max_events == (if asked.max_events > 0 {
                asked.max_events
            } else {
                defaults.max_events
            })
            &&& l.max_bytes == (if asked.max_bytes > 0 {
                asked.max_bytes
            } else {
                defaults.max_bytes
            })
            &&& l.wait_ms == (if asked.wait_ms > 0 {
                asked.wait_ms
            } else {
                defaults.wait_ms
            })
            &&& l.max_events <= 1000 && l.max_bytes <= 7 * 1024 * 1024 && l.wait_ms <= max_wait_ms
        },
        name@.len() > 0 && consumer_id@.len() > 0 && (0 < asked.max_events <= 1000 || (
        asked.max_events == 0 && defaults.max_events <= 1000)) && (0 < asked.max_bytes <= 7 * 1024
            * 1024 || (asked.max_bytes == 0 && defaults.max_bytes <= 7 * 1024 * 1024)) && (0
            < asked.wait_ms <= max_wait_ms || (asked.wait_ms == 0 && defaults.wait_ms
            <= max_wait_ms)) ==> r is Ok,
{
}

/// A fetch that found nothing and may still wait looks again after the time it was told to
/// wait, but within fifty milliseconds.
pub proof fn law_fetch_looks_again_soon(
    delivered: usize,
    throttled: bool,
    waited_long_enough: bool,
    retry_after_ms: u64,
    r: Option<u64>,
)
    requires
        call_ensures(fetch_pause, (delivered, throttled, waited_long_enough, retry_after_ms), r),
    ensures
        r is None <==> delivered > 0 || throttled || waited_long_enough,
        r matches Some(t) ==> 0 < t <= 50,
        r matches Some(t) ==> (1 <= retry_after_ms <= 50 ==> t == retry_after_ms),
        r matches Some(t) ==> (retry_after_ms == 0 || retry_after_ms > 50 ==> t == 50),
{
}

/// The replies to changes of a group: what was done is handed on, an older revision is
/// answered with the one there is, a group that is not there is not found.
pub proof fn law_group_changes_are_answered<T>(
    outcome: GroupOutcome<T>,
    shown: &str,
    created: Result<T, Status>,
    updated: Result<T, Status>,
    deleted: Result<T, Status>,
)
    requires
        call_ensures(create_reply::<T>, (outcome, shown), created),
        call_ensures(update_reply::<T>, (outcome, shown), updated),
        call_ensures(delete_reply::<T>, (outcome, shown), deleted),
    ensures
        outcome matches GroupOutcome::Done(t) ==> created == Ok::<T, Status>(t) && updated == Ok::<
            T,
            Status,
        >(t) && deleted == Ok::<T, Status>(t),
        !(outcome is Done) ==> created is Err && updated is Err && deleted is Err,
        outcome is Conflict ==> created->Err_0@.code == Code::AlreadyExists
            && updated->Err_0@.code == Code::Aborted && deleted->Err_0@.code == Code::Aborted,
        outcome matches GroupOutcome::Conflict { actual_revision } ==> updated->Err_0@.message
            == "subscription revision conflict: actual_revision="@ + decimal_text(
            actual_revision as nat,
        ),
        outcome is NotFound ==> created->Err_0@.code == Code::Internal && updated->Err_0@.code
            == Code::NotFound && deleted->Err_0@.code == Code::NotFound,
        outcome is Invalid ==> created->Err_0@.code == Code::InvalidArgument
            && updated->Err_0@.code == Code::InvalidArgument && deleted->Err_0@.code
            == Code::Internal,
        outcome is Unexpected ==> created->Err_0@.code == Code::Internal && updated->Err_0@.code
            == Code::Internal && deleted->Err_0@.code == Code::Internal,
{
}


/// An update that changes the target or resets a stream begins a new epoch for the
/// streams that stay as they are, and forgets what was to be retried or was parked of all
/// others; an update of settings alone begins none.
pub proof fn law_update_forgets_what_it_drops_or_resets(
    group: PersistentGroup,
    plan: UpdatePlan,
    settings: PersistentSettings,
    implicit_heads: TextMap<(u64, u64)>,
    reset_heads: TextMap<(u64, u64)>,
    g: PersistentGroup,
    epoch: Option<Vec<String>>,
    x: Seq<char>,
    v: u64,
    p: Parked,
)
    requires
        call_ensures(
            apply_update,
            (group, plan, settings, &implicit_heads, &reset_heads),
            Ok::<(PersistentGroup, Option<Vec<String>>), Status>((g, epoch)),
        ),
    ensures
        g.name@ == group.name@ && g.epoch == group.epoch && g.deliveries@ == group.deliveries@,
        g.settings == settings,
        g.target@ == plan.target@,
        group.revision < u64::MAX ==> g.revision == group.revision + 1,
        g.pending_retries@.dom().contains((x, v)) <==> group.pending_retries@.dom().contains((x, v))
            && text_views(plan.desired@).contains(x) && !plan.resets@.dom().contains(x),
        g.pending_retries@.dom().contains((x, v)) ==> g.pending_retries@[(x, v)]
            == group.pending_retries@[(x, v)],
        g.parked@.contains(p) <==> group.parked@.contains(p) && text_views(plan.desired@).contains(
            p.stream_id@,
        ) && !plan.resets@.dom().contains(p.stream_id@),
        plan.target_changed ==> epoch is Some,
        !plan.target_changed && plan.resets@.dom() =~= Set::empty() ==> epoch is None,
        epoch matches Some(streams) ==> (text_views(streams@).contains(x) <==> text_views(
            plan.desired@,
        ).contains(x) && !plan.resets@.dom().contains(x)),
        g.progress@.dom().contains(x) ==> text_views(plan.desired@).contains(x),
        text_views(plan.desired@).contains(x) && !plan.resets@.dom().contains(x)
            && !implicit_heads@.dom().contains(x) && group.progress@.dom().contains(x)
            ==> g.progress@.dom().contains(x) && g.progress@[x] == group.progress@[x],
{
    let desired = text_views(plan.desired@);
    let kept = |y: Seq<char>| desired.contains(y) && !plan.resets@.dom().contains(y);
    lemma_filter_has(desired, kept, x);
    lemma_filter_has(group.parked@, |q: Parked| kept(q.stream_id@), p);
}


/// An update is planned for the target that it names, or else the group's own.  A reset of
/// a stream outside that target refuses it, and so does a stream that comes in without a
/// start, unless the group takes all streams before and after.
pub proof fn law_update_is_planned_for_the_target(
    group: PersistentGroup,
    target: Option<PersistentTarget>,
    resets: Vec<StreamReset>,
    table: RouteTable,
    r: Result<UpdatePlan, Status>,
    x: Seq<char>,
)
    requires
        call_ensures(plan_update, (&group, target, resets, &table), r),
    ensures
        r matches Err(s) ==> s@.code == Code::InvalidArgument,
        r matches Ok(p) ==> {
            let new = match target {
                Some(t) => t@,
                None => group.target@,
            };
            let wanted = match new {
                TargetView::Streams(names) => names.contains(x),
                TargetView::All => table@.streams.dom().contains(x),
            };
            &&& p.target@ == new
            &&& p.target_changed <==> new != group.target@
            &&& text_views(p.desired@).contains(x) <==> wanted
            &&& text_views(p.implicit@).contains(x) <==> wanted && !group.progress@.dom().contains(
                x,
            ) && !p.resets@.dom().contains(x)
            &&& !(new is All && group.target@ is All) ==> p.implicit@.len() == 0
            &&& p.resets@.dom().contains(x) ==> match new {
                TargetView::Streams(names) => names.contains(x),
                TargetView::All => true,
            }
        },
{
    if let Ok(p) = r {
        lemma_resets_of(resets@, x);
        if p.resets@.dom().contains(x) {
            if forall|i: int| 0 <= i < resets@.len() ==> (#[trigger] resets@[i]).stream_id@ != x {
            } else {
                let i = choose|i: int|
                    0 <= i < resets@.len() && (#[trigger] resets@[i]).stream_id@ == x;
                assert(covers(target_after(group, target), resets@[i].stream_id@));
            }
        }
    }
}


/// The groups are changed and read at the leader of the control shard alone; a group that
/// is there is given, and one that is not is not found.
pub proof fn law_groups_are_kept_at_the_control_shard(
    leads: Option<bool>,
    leader: Option<(u64, String)>,
    admitted: Result<(), Status>,
    name: &str,
    found: Result<Option<PersistentGroup>, String>,
    r: Result<PersistentGroup, Status>,
)
    requires
        call_ensures(admit_control, (leads, leader), admitted),
        call_ensures(read_persistent_group::<PersistentGroup>, (name, found), r),
    ensures
        admitted is Ok <==> leads == Some(true),
        admitted matches Err(s) ==> s@.code == Code::Unavailable,
        r is Ok <==> (found matches Ok(g) && g is Some),
        r matches Ok(g) ==> found == Ok::<Option<PersistentGroup>, String>(Some(g)),
        found matches Ok(None) ==> (r matches Err(s) && s@.code == Code::NotFound),
        found is Err ==> (r matches Err(s) && s@.code == Code::Internal),
{
}

/// What was submitted is answered as the groups answered it.
pub proof fn law_submitted_changes_are_answered(
    outcome: Result<Submitted<PersistentGroup>, WriteError>,
    r: Result<PersistentGroup, Status>,
    operation: &str,
    answered: GroupOutcome<PersistentGroup>,
    shown: &str,
    g: Result<PersistentGroup, Status>,
)
    requires
        call_ensures(submit_persistent::<PersistentGroup>, (outcome,), r),
        call_ensures(group_reply::<PersistentGroup>, (operation, answered, shown), g),
    ensures
        r is Ok <==> (outcome matches Ok(s) && s is Groups),
        r matches Ok(t) ==> outcome == Ok::<Submitted<PersistentGroup>, WriteError>(
            Submitted::Groups(t),
        ),
        g is Ok <==> answered is Done,
        g matches Ok(t) ==> answered == GroupOutcome::Done(t),
        answered is NotFound ==> (g matches Err(s) && s@.code == Code::NotFound),
{
}

/// Settlements are taken all or none, in their order, and told of in their order.
pub proof fn law_settlements_are_taken_all_or_none(
    consumer_id: &str,
    requests: Vec<SettlementRequest>,
    r: Result<Vec<Settlement>, Status>,
    ids: Vec<u128>,
    settled: Vec<SettlementStatus>,
    out: Vec<SettlementResult>,
    i: int,
    k: int,
)
    requires
        call_ensures(parse_settlements, (consumer_id, requests), r),
        call_ensures(settlement_results, (&ids, &settled), out),
        0 <= i < requests@.len(),
        0 <= k < ids@.len(),
        ids@.len() == settled@.len(),
    ensures
        r matches Ok(all) ==> all@.len() == requests@.len() && requests@[i].action == Some(
            all@[i].action,
        ) && requests@[i].delivery_id@.len() == 16 && all@[i].delivery_id == big_endian(
            requests@[i].delivery_id@,
        ),
        r is Ok ==> consumer_id@.len() > 0,
        requests@[i].action is None || requests@[i].delivery_id@.len() != 16 ==> r is Err,
        out@.len() == ids@.len(),
        big_endian(out@[k].delivery_id@) == ids@[k],
        out@[k].status == settled@[k],
{
    if let Ok(all) = r {
        assert(settles(all@[i], requests@[i]));
    }
}

/// A parked event is shown under its number, with its attempts, its reason and its time,
/// and the event itself while that can be read.
pub proof fn law_parked_event_is_shown_as_parked(
    parked: Parked,
    event: Option<Event>,
    p: ParkedEvent,
)
    requires
        call_ensures(parked_event, (&parked, event), p),
    ensures
        big_endian(p.parked_id@) == parked.parked_id && p.parked_id@.len() == 16,
        p.attempts == parked.attempts,
        p.reason@ == parked.reason@,
        p.parked_at_ms == parked.parked_at_ms,
        p.event is Some <==> event is Some,
        event matches Some(e) ==> p.event->0.stream_id@ == e.stream_id@ && p.event->0.version
            == e.version && p.event->0.data@ == e.data@,
{
}


/// A new group begins with the streams of its target, those and no others; it is refused
/// where it names a start for a stream outside its target.
pub proof fn law_new_group_begins_its_targets_streams(
    target: PersistentTarget,
    start: StartSpec,
    table: RouteTable,
    out: Vec<String>,
    x: Seq<char>,
)
    requires
        call_ensures(
            start_streams,
            (&target, &start, &table),
            Ok::<Vec<String>, Status>(out),
        ),
    ensures
        target is All ==> (text_views(out@).contains(x) <==> table@.streams.dom().contains(x)),
        target matches PersistentTarget::Streams(names) ==> (text_views(out@).contains(x)
            <==> text_views(names@).contains(x)),
        start.next_versions@.dom().contains(x) ==> text_views(out@).contains(x),
{
    assert(starts_are_targeted(start.next_versions@, target@, table@));
}

/// Each stream of a new group begins where the group was told to begin it, in the
/// generation that was noted for it.
pub proof fn law_new_groups_streams_begin_where_asked(
    streams: Vec<String>,
    start: StartSpec,
    heads: TextMap<(u64, u64)>,
    p: TextMap<StreamProgress>,
    i: int,
    x: Seq<char>,
)
    requires
        call_ensures(
            initial_progress,
            (&streams, &start, &heads),
            Ok::<TextMap<StreamProgress>, Status>(p),
        ),
        0 <= i < streams@.len(),
        heads@[streams@[i]@].0 < u64::MAX,
    ensures
        p@.dom().contains(x) <==> text_views(streams@).contains(x),
        ({
            let s = streams@[i]@;
            let named = start.next_versions@;
            let begun = p@[s];
            &&& p@.dom().contains(s)
            &&& begun.ownership_generation == heads@[s].1
            &&& begun.lease is None && begun.resolved_gaps@.len() == 0
            &&& named.dom().contains(s) ==> begun.next_version == named[s]
            &&& !named.dom().contains(s) && start.from_now ==> begun.next_version == heads@[s].0
                + 1
            &&& !named.dom().contains(s) && !start.from_now ==> begun.next_version == 0
            &&& begun.next_version <= heads@[s].0 + 1
        }),
{
    assert(text_views(streams@)[i] == streams@[i]@);
    assert(begins(p@[streams@[i]@], start, streams@[i]@, heads@[streams@[i]@]));
}

/// The heads that shards report are noted only if all those streams exist.
pub proof fn law_heads_of_streams_that_exist_are_noted(
    this: &mut TextMap<(u64, u64)>,
    heads: Vec<PersistentHead>,
    table: RouteTable,
    r: Result<(), Status>,
    i: int,
)
    requires
        call_ensures(note_heads, (this, heads, &table), r),
        0 <= i < heads@.len(),
        forall|j: int| i < j < heads@.len() ==> (#[trigger] heads@[j]).stream_id@
            != heads@[i].stream_id@,
    ensures
        !heads@[i].exists ==> r is Err,
        r is Ok ==> final(this)@.dom().contains(heads@[i].stream_id@)
            && final(this)@[heads@[i].stream_id@].0 == heads@[i].current_version,
        r matches Err(s) ==> s@.code == Code::NotFound,
{
    law_last_reported_head_is_noted(old(this)@, heads@, table@, heads@[i].stream_id@, i);
}

/// The stream's start is asked of its shard; a stream that has no owner is not found.
pub proof fn law_heads_are_asked_where_the_streams_are(
    streams: Vec<String>,
    table: RouteTable,
    r: Result<Vec<(String, u64)>, Status>,
    i: int,
)
    requires
        call_ensures(route_heads, (&streams, &table), r),
        0 <= i < streams@.len(),
    ensures
        !table@.streams.dom().contains(streams@[i]@) ==> r is Err,
        r matches Ok(routed) ==> routed@.len() == streams@.len() && routed@[i].0@ == streams@[i]@
            && routed@[i].1 == table@.streams[streams@[i]@],
        r matches Err(s) ==> s@.code == Code::NotFound,
{
    if let Ok(routed) = r {
        assert(table@.streams.dom().contains(streams@[i]@));
    }
}


/// An update resets a stream to where it asks, and lets a stream that it brings in begin at
/// its beginning; both begin untouched, in the generation that was noted for them.  A reset
/// to a version that lies beyond the one behind the head refuses it.
pub proof fn law_update_resets_as_asked(
    group: PersistentGroup,
    plan: UpdatePlan,
    settings: PersistentSettings,
    implicit_heads: TextMap<(u64, u64)>,
    reset_heads: TextMap<(u64, u64)>,
    r: Result<(PersistentGroup, Option<Vec<String>>), Status>,
    x: Seq<char>,
)
    requires
        call_ensures(
            apply_update,
            (group, plan, settings, &implicit_heads, &reset_heads),
            r,
        ),
        text_views(plan.desired@).contains(x),
    ensures
        r matches Err(s) ==> s@.code == Code::InvalidArgument,
        r matches Ok((g, epoch)) ==> {
            let p = g.progress@[x];
            &&& plan.resets@.dom().contains(x) ==> {
                &&& g.progress@.dom().contains(x)
                &&& p.ownership_generation == reset_heads@[x].1
                &&& p.lease is None && p.resolved_gaps@.len() == 0
                &&& plan.resets@[x] matches Some(ResetStart::Beginning) ==> p.next_version == 0
                &&& plan.resets@[x] matches Some(ResetStart::NextVersion(n)) ==> p.next_version == n
                &&& plan.resets@[x] matches Some(ResetStart::Now) ==> (reset_heads@[x].0 < u64::MAX
                    ==> p.next_version == reset_heads@[x].0 + 1)
                &&& plan.resets@[x] matches Some(ResetStart::NextVersion(n)) ==> (reset_heads@[x].0
                    < u64::MAX ==> n <= reset_heads@[x].0 + 1)
                &&& plan.resets@[x] is Some
            }
            &&& !plan.resets@.dom().contains(x) && implicit_heads@.dom().contains(x) ==> {
                &&& g.progress@.dom().contains(x)
                &&& p.next_version == 0 && p.ownership_generation == implicit_heads@[x].1
                &&& p.lease is None && p.resolved_gaps@.len() == 0
            }
        },
{
    if let Ok((g, epoch)) = r {
        law_update_keeps_what_is_not_reset(
            group.progress@,
            text_views(plan.desired@),
            implicit_heads@,
            plan.resets@,
            reset_heads@,
            g.progress@,
            x,
        );
        if plan.resets@.dom().contains(x) && reset_heads@[x].0 < u64::MAX {
            law_reset_goes_where_asked(plan.resets@[x], reset_heads@[x].0, x);
        }
        if plan.resets@.dom().contains(x) {
            assert(g.progress@.dom().contains(x));
        }
    }
}

/// Of several resets of a stream the last one is planned; a reset of a stream that the
/// group does not name refuses the update.
pub proof fn law_last_reset_of_a_stream_is_planned(
    group: PersistentGroup,
    target: Option<PersistentTarget>,
    resets: Vec<StreamReset>,
    table: RouteTable,
    r: Result<UpdatePlan, Status>,
    i: int,
)
    requires
        call_ensures(plan_update, (&group, target, resets, &table), r),
        0 <= i < resets@.len(),
        forall|j: int|
            i < j < resets@.len() ==> (#[trigger] resets@[j]).stream_id@ != resets@[i].stream_id@,
    ensures
        r matches Ok(p) ==> p.resets@.dom().contains(resets@[i].stream_id@)
            && p.resets@[resets@[i].stream_id@] == resets@[i].start,
        target matches Some(PersistentTarget::Streams(names)) ==> (!text_views(names@).contains(
            resets@[i].stream_id@,
        ) ==> r is Err),
{
    law_last_reset_counts(resets@, resets@[i].stream_id@, i);
}

/// An update that keeps the target and resets nothing is always planned, and plans nothing
/// new, where the group has progress of all that it names.
pub proof fn law_update_of_settings_alone_is_planned(
    group: PersistentGroup,
    names: Vec<String>,
    none: Vec<StreamReset>,
    table: RouteTable,
    r: Result<UpdatePlan, Status>,
)
    requires
        group.target == PersistentTarget::Streams(names),
        forall|x: Seq<char>| #[trigger]
            text_views(names@).contains(x) ==> group.progress@.dom().contains(x),
        call_ensures(
            plan_update,
            (&group, None::<PersistentTarget>, none, &table),
            r,
        ),
        none@.len() == 0,
    ensures
        r matches Ok(p) && !p.target_changed && p.implicit@.len() == 0,
{
}

} // verus!
