//! Merging the event streams of several shards into one.
//!
//! A merge only ever compares the fronts of the streams, so the order inside
//! each stream survives whatever the clocks say.

use vstd::prelude::*;

use crate::event::{Event, EventView, event_views};

verus! {

/// Clock reading of an event; the zero reading where it has none.
pub open spec fn clock(e: EventView) -> (int, int) {
    match e.hlc {
        Some(h) => (h.wall as int, h.logical as int),
        None => (0, 0),
    }
}

/// Ascending order of events: by clock, then shard, then position.
pub open spec fn earlier(a: EventView, b: EventView) -> bool {
    let (aw, al) = clock(a);
    let (bw, bl) = clock(b);
    ||| aw < bw
    ||| aw == bw && al < bl
    ||| aw == bw && al == bl && a.shard_id < b.shard_id
    ||| aw == bw && al == bl && a.shard_id == b.shard_id && a.position < b.position
}

/// `a` comes before `b` in the direction of the merge.
pub open spec fn ahead(a: EventView, b: EventView, descending: bool) -> bool {
    if descending {
        earlier(b, a)
    } else {
        earlier(a, b)
    }
}

/// How many events stream `i` has given when the events were taken from the
/// streams listed in `order`.
pub open spec fn taken(order: Seq<int>, i: int) -> nat
    decreases order.len(),
{
    if order.len() == 0 {
        0
    } else {
        taken(order.drop_last(), i) + if order.last() == i {
            1nat
        } else {
            0nat
        }
    }
}

/// Stream `i` still has an event to give.
pub open spec fn waiting(ss: Seq<Seq<EventView>>, order: Seq<int>, i: int) -> bool {
    0 <= i < ss.len() && taken(order, i) < ss[i].len()
}

/// The next event of stream `i`.
pub open spec fn front(ss: Seq<Seq<EventView>>, order: Seq<int>, i: int) -> EventView {
    ss[i][taken(order, i) as int]
}

/// Stream `i` gives the next event: no front is ahead of its front, and of equal
/// fronts it has the first.
pub open spec fn leads(
    ss: Seq<Seq<EventView>>,
    order: Seq<int>,
    descending: bool,
    i: int,
) -> bool {
    &&& waiting(ss, order, i)
    &&& forall|j: int| #[trigger]
        waiting(ss, order, j) ==> {
            &&& !ahead(front(ss, order, j), front(ss, order, i), descending)
            &&& j < i ==> ahead(front(ss, order, i), front(ss, order, j), descending)
        }
}

/// Each event was taken from the stream that led at that moment.
pub open spec fn is_merge_order(
    ss: Seq<Seq<EventView>>,
    order: Seq<int>,
    descending: bool,
) -> bool {
    forall|t: int|
        0 <= t < order.len() ==> leads(ss, #[trigger] order.take(t), descending, order[t])
}

/// The merge went on to its end: up to the limit (0: none), or until every stream
/// was used up.
pub open spec fn is_complete(ss: Seq<Seq<EventView>>, order: Seq<int>, limit: u64) -> bool {
    &&& limit != 0 ==> order.len() <= limit
    &&& (limit != 0 && order.len() == limit) || forall|j: int| !#[trigger] waiting(ss, order, j)
}

/// `order` lists, event by event, the stream that the merge of `ss` takes it from.
pub open spec fn merges(
    ss: Seq<Seq<EventView>>,
    limit: u64,
    descending: bool,
    order: Seq<int>,
) -> bool {
    is_merge_order(ss, order, descending) && is_complete(ss, order, limit)
}

/// The merged events.
pub open spec fn emitted(ss: Seq<Seq<EventView>>, order: Seq<int>) -> Seq<EventView> {
    Seq::new(order.len(), |t: int| front(ss, order.take(t), order[t]))
}

/// Position of the last event taken from stream `i`, if any was.
pub open spec fn watermark(ss: Seq<Seq<EventView>>, order: Seq<int>, i: int) -> Option<u64> {
    if taken(order, i) == 0 {
        None
    } else {
        Some(ss[i][taken(order, i) - 1].position)
    }
}

/// The watermarks of all streams.
pub open spec fn watermarks(ss: Seq<Seq<EventView>>, order: Seq<int>) -> Seq<Option<u64>> {
    Seq::new(ss.len(), |i: int| watermark(ss, order, i))
}

/// Contents of the streams.
pub open spec fn stream_views(streams: Seq<Vec<Event>>) -> Seq<Seq<EventView>> {
    streams.map_values(|s: Vec<Event>| event_views(s@))
}

/// Events not yet taken from the first `n` streams.
spec fn left_over(ss: Seq<Seq<EventView>>, order: Seq<int>, n: nat) -> int
    decreases n,
{
    if n == 0 {
        0
    } else {
        left_over(ss, order, (n - 1) as nat) + ss[n - 1].len() - taken(order, n - 1)
    }
}

proof fn lemma_taken_push(order: Seq<int>, i: int, j: int)
    ensures
        taken(order.push(i), j) == taken(order, j) + if i == j {
            1nat
        } else {
            0nat
        },
{
    assert(order.push(i).drop_last() =~= order);
}

proof fn lemma_left_over_push(ss: Seq<Seq<EventView>>, order: Seq<int>, i: int, n: nat)
    requires
        n <= ss.len(),
        0 <= i,
    ensures
        left_over(ss, order.push(i), n) == left_over(ss, order, n) - if i < n {
            1int
        } else {
            0int
        },
    decreases n,
{
    if n > 0 {
        lemma_left_over_push(ss, order, i, (n - 1) as nat);
        lemma_taken_push(order, i, n - 1);
    }
}

proof fn lemma_left_over_bound(ss: Seq<Seq<EventView>>, order: Seq<int>, n: nat)
    requires
        n <= ss.len(),
        forall|i: int| 0 <= i < n ==> taken(order, i) <= #[trigger] ss[i].len(),
    ensures
        left_over(ss, order, n) >= 0,
    decreases n,
{
    if n > 0 {
        lemma_left_over_bound(ss, order, (n - 1) as nat);
        assert(taken(order, n - 1) <= ss[n - 1].len());
    }
}

proof fn lemma_extend(ss: Seq<Seq<EventView>>, order: Seq<int>, descending: bool, i: int)
    requires
        is_merge_order(ss, order, descending),
        leads(ss, order, descending, i),
    ensures
        is_merge_order(ss, order.push(i), descending),
        emitted(ss, order.push(i)) == emitted(ss, order).push(front(ss, order, i)),
{
    let next = order.push(i);
    assert forall|t: int| 0 <= t < next.len() implies leads(
        ss,
        #[trigger] next.take(t),
        descending,
        next[t],
    ) by {
        assert(next.take(t) =~= order.take(t));
        if t == order.len() {
            assert(order.take(t) =~= order);
        }
    }
    assert forall|t: int| 0 <= t < next.len() implies emitted(ss, next)[t] == emitted(
        ss,
        order,
    ).push(front(ss, order, i))[t] by {
        assert(next.take(t) =~= order.take(t));
        if t == order.len() {
            assert(order.take(t) =~= order);
        }
    }
    assert(emitted(ss, next) =~= emitted(ss, order).push(front(ss, order, i)));
}

fn clock_of(e: &Event) -> (c: (u64, u32))
    ensures
        clock(e@) == (c.0 as int, c.1 as int),
{
    match e.hlc {
        Some(h) => (h.wall, h.logical),
        None => (0, 0),
    }
}

fn is_ahead(a: &Event, b: &Event, descending: bool) -> (r: bool)
    ensures
        r == ahead(a@, b@, descending),
{
    let (x, y) = if descending {
        (b, a)
    } else {
        (a, b)
    };
    let (xw, xl) = clock_of(x);
    let (yw, yl) = clock_of(y);
    if xw != yw {
        xw < yw
    } else if xl != yl {
        xl < yl
    } else if x.shard_id != y.shard_id {
        x.shard_id < y.shard_id
    } else {
        x.position < y.position
    }
}

/// The stream that leads, if any stream is left.
fn leader(
    streams: &Vec<Vec<Event>>,
    cursors: &Vec<usize>,
    descending: bool,
    Ghost(order): Ghost<Seq<int>>,
) -> (best: Option<usize>)
    requires
        cursors@.len() == streams@.len(),
        forall|i: int|
            0 <= i < streams@.len() ==> #[trigger] cursors@[i] == taken(order, i) && cursors@[i]
                <= streams@[i]@.len(),
    ensures
        match best {
            Some(i) => leads(stream_views(streams@), order, descending, i as int),
            None => forall|j: int| !#[trigger] waiting(stream_views(streams@), order, j),
        },
{
    let ghost ss = stream_views(streams@);
    let mut best: Option<usize> = None;
    let mut n: usize = 0;
    while n < streams.len()
        invariant
            n <= streams@.len(),
            ss == stream_views(streams@),
            cursors@.len() == streams@.len(),
            forall|i: int|
                0 <= i < streams@.len() ==> #[trigger] cursors@[i] == taken(order, i)
                    && cursors@[i] <= streams@[i]@.len(),
            match best {
                Some(k) => {
                    &&& k < n
                    &&& waiting(ss, order, k as int)
                    &&& forall|j: int|
                        j < n && #[trigger] waiting(ss, order, j) ==> {
                            &&& !ahead(front(ss, order, j), front(ss, order, k as int), descending)
                            &&& j < k ==> ahead(
                                front(ss, order, k as int),
                                front(ss, order, j),
                                descending,
                            )
                        }
                },
                None => forall|j: int| j < n ==> !#[trigger] waiting(ss, order, j),
            },
        decreases streams@.len() - n,
    {
        let c = cursors[n];
        assert(ss[n as int] == event_views(streams@[n as int]@));
        if c < streams[n].len() {
            assert(waiting(ss, order, n as int));
            assert(front(ss, order, n as int) == streams@[n as int]@[c as int]@);
            match best {
                None => {
                    best = Some(n);
                },
                Some(k) => {
                    let ck = cursors[k];
                    assert(ss[k as int] == event_views(streams@[k as int]@));
                    assert(front(ss, order, k as int) == streams@[k as int]@[ck as int]@);
                    if is_ahead(&streams[n][c], &streams[k][ck], descending) {
                        best = Some(n);
                    }
                },
            }
        } else {
            assert(!waiting(ss, order, n as int));
        }
        n += 1;
    }
    best
}

/// Merges streams that are each already in reading order.
///
/// At most `limit` events come out (0: no limit).  Beside the events stand the
/// watermarks: for each stream the position of its last event that came out, and
/// `None` for a stream that gave none, so that what the limit cut off is read
/// again on the next page.
pub fn merge_by_hlc(streams: Vec<Vec<Event>>, limit: u64, descending: bool) -> (r: (
    Vec<Event>,
    Vec<Option<u64>>,
))
    ensures
        exists|order: Seq<int>|
            {
                &&& #[trigger] merges(stream_views(streams@), limit, descending, order)
                &&& event_views(r.0@) == emitted(stream_views(streams@), order)
                &&& r.1@ == watermarks(stream_views(streams@), order)
            },
{
    let ghost ss = stream_views(streams@);
    let ghost mut order: Seq<int> = Seq::empty();
    let mut out: Vec<Event> = Vec::new();
    let mut consumed: Vec<Option<u64>> = Vec::new();
    let mut cursors: Vec<usize> = Vec::new();
    let mut n: usize = 0;
    while n < streams.len()
        invariant
            n <= streams@.len(),
            consumed@.len() == n,
            cursors@.len() == n,
            forall|i: int| 0 <= i < n ==> #[trigger] consumed@[i] is None,
            forall|i: int| 0 <= i < n ==> #[trigger] cursors@[i] == 0,
        decreases streams@.len() - n,
    {
        consumed.push(None);
        cursors.push(0);
        n += 1;
    }
    let mut best = leader(&streams, &cursors, descending, Ghost(order));
    proof {
        assert(event_views(out@) =~= emitted(ss, order));
    }
    while best.is_some() && !(limit != 0 && out.len() as u64 >= limit)
        invariant
            ss == stream_views(streams@),
            ss.len() == streams@.len(),
            cursors@.len() == streams@.len(),
            consumed@.len() == streams@.len(),
            forall|i: int|
                0 <= i < streams@.len() ==> #[trigger] cursors@[i] == taken(order, i)
                    && cursors@[i] <= streams@[i]@.len(),
            forall|i: int|
                0 <= i < streams@.len() ==> #[trigger] consumed@[i] == watermark(ss, order, i),
            is_merge_order(ss, order, descending),
            event_views(out@) == emitted(ss, order),
            out@.len() == order.len(),
            limit != 0 ==> order.len() <= limit,
            match best {
                Some(i) => leads(ss, order, descending, i as int),
                None => forall|j: int| !#[trigger] waiting(ss, order, j),
            },
        decreases left_over(ss, order, ss.len()),
    {
        let i = best.unwrap();
        let c = cursors[i];
        let ghost before = order;
        assert(waiting(ss, order, i as int));
        assert(ss[i as int] == event_views(streams@[i as int]@));
        let event = streams[i][c].clone();
        consumed.set(i, Some(event.position));
        cursors.set(i, c + 1);
        let ghost gone = out@;
        out.push(event);
        proof {
            order = before.push(i as int);
            lemma_extend(ss, before, descending, i as int);
            lemma_left_over_push(ss, before, i as int, ss.len());
            assert forall|j: int| 0 <= j < streams@.len() implies #[trigger] cursors@[j] == taken(
                order,
                j,
            ) && cursors@[j] <= streams@[j]@.len() by {
                lemma_taken_push(before, i as int, j);
            }
            assert forall|j: int| 0 <= j < streams@.len() implies #[trigger] consumed@[j]
                == watermark(ss, order, j) by {
                lemma_taken_push(before, i as int, j);
            }
            assert forall|j: int| 0 <= j < ss.len() implies taken(order, j)
                <= #[trigger] ss[j].len() by {
                assert(cursors@[j] == taken(order, j));
            }
            lemma_left_over_bound(ss, order, ss.len());
            assert(event_views(out@) =~= event_views(gone).push(event@));
        }
        best = leader(&streams, &cursors, descending, Ghost(order));
    }
    proof {
        assert(consumed@ =~= watermarks(ss, order));
        assert(merges(ss, limit, descending, order));
    }
    (out, consumed)
}

proof fn lemma_taken_grows(order: Seq<int>, t: int, u: int, i: int)
    requires
        0 <= t <= u <= order.len(),
    ensures
        taken(order.take(t), i) <= taken(order.take(u), i),
    decreases u - t,
{
    if t < u {
        lemma_taken_grows(order, t, u - 1, i);
        assert(order.take(u).drop_last() =~= order.take(u - 1));
    }
}

/// The events that stream `i` gave, in the order in which they came out.
pub open spec fn emitted_from(ss: Seq<Seq<EventView>>, order: Seq<int>, i: int) -> Seq<EventView>
    decreases order.len(),
{
    if order.len() == 0 {
        Seq::empty()
    } else {
        let rest = emitted_from(ss, order.drop_last(), i);
        if order.last() == i {
            rest.push(front(ss, order.drop_last(), i))
        } else {
            rest
        }
    }
}

/// What a stream gives to a merge is its beginning, in its own order and without
/// gaps, whatever its clocks say.
pub proof fn law_merge_keeps_source_order(
    ss: Seq<Seq<EventView>>,
    order: Seq<int>,
    descending: bool,
    i: int,
)
    requires
        is_merge_order(ss, order, descending),
        0 <= i < ss.len(),
    ensures
        taken(order, i) <= ss[i].len(),
        emitted_from(ss, order, i) == ss[i].take(taken(order, i) as int),
    decreases order.len(),
{
    if order.len() > 0 {
        let before = order.drop_last();
        assert forall|t: int| 0 <= t < before.len() implies leads(
            ss,
            #[trigger] before.take(t),
            descending,
            before[t],
        ) by {
            assert(before.take(t) =~= order.take(t));
        }
        law_merge_keeps_source_order(ss, before, descending, i);
        assert(order.take(order.len() - 1) =~= before);
        assert(leads(ss, before, descending, order.last()));
        if order.last() == i {
            assert(ss[i].take(taken(order, i) as int) =~= ss[i].take(
                taken(before, i) as int,
            ).push(ss[i][taken(before, i) as int]));
        }
    } else {
        assert(ss[i].take(0) =~= Seq::<EventView>::empty());
    }
}

/// Streams that are each in clock order merge to one in clock order.
pub proof fn law_merge_of_sorted_is_sorted(
    ss: Seq<Seq<EventView>>,
    order: Seq<int>,
    descending: bool,
    t: int,
    u: int,
)
    requires
        is_merge_order(ss, order, descending),
        forall|i: int, a: int, b: int|
            0 <= i < ss.len() && 0 <= a < b < ss[i].len() ==> !ahead(
                #[trigger] ss[i][b],
                #[trigger] ss[i][a],
                descending,
            ),
        0 <= t < u < order.len(),
    ensures
        !ahead(emitted(ss, order)[u], emitted(ss, order)[t], descending),
{
    let i = order[t];
    let j = order[u];
    let at_t = order.take(t);
    let at_u = order.take(u);
    assert(leads(ss, at_t, descending, i));
    assert(leads(ss, at_u, descending, j));
    lemma_taken_grows(order, t, u, j);
    let a = taken(at_t, j) as int;
    let b = taken(at_u, j) as int;
    assert(waiting(ss, at_t, j));
    assert(!ahead(front(ss, at_t, j), front(ss, at_t, i), descending));
    if a < b {
        assert(!ahead(ss[j][b], ss[j][a], descending));
    }
}

/// A merge has one outcome.
pub proof fn law_merge_is_unique(
    ss: Seq<Seq<EventView>>,
    limit: u64,
    descending: bool,
    a: Seq<int>,
    b: Seq<int>,
)
    requires
        merges(ss, limit, descending, a),
        merges(ss, limit, descending, b),
    ensures
        a == b,
{
    if a.len() <= b.len() {
        lemma_common_prefix(ss, descending, a, b, a.len());
        if a.len() < b.len() {
            assert(b.take(a.len() as int) =~= a.take(a.len() as int));
            assert(a.take(a.len() as int) =~= a);
            assert(leads(ss, b.take(a.len() as int), descending, b[a.len() as int]));
            assert(waiting(ss, a, b[a.len() as int]));
        }
    } else {
        lemma_common_prefix(ss, descending, b, a, b.len());
        assert(a.take(b.len() as int) =~= b.take(b.len() as int));
        assert(b.take(b.len() as int) =~= b);
        assert(leads(ss, a.take(b.len() as int), descending, a[b.len() as int]));
        assert(waiting(ss, b, a[b.len() as int]));
    }
    assert(a.take(a.len() as int) =~= a);
    assert(b.take(b.len() as int) =~= b);
}

proof fn lemma_common_prefix(
    ss: Seq<Seq<EventView>>,
    descending: bool,
    a: Seq<int>,
    b: Seq<int>,
    n: nat,
)
    requires
        is_merge_order(ss, a, descending),
        is_merge_order(ss, b, descending),
        n <= a.len(),
        n <= b.len(),
    ensures
        a.take(n as int) == b.take(n as int),
    decreases n,
{
    if n > 0 {
        lemma_common_prefix(ss, descending, a, b, (n - 1) as nat);
        let p = a.take(n - 1);
        let x = a[n - 1];
        let y = b[n - 1];
        assert(leads(ss, a.take(n - 1), descending, x));
        assert(leads(ss, b.take(n - 1), descending, y));
        assert(waiting(ss, p, x) && waiting(ss, p, y));
        assert(x == y);
        assert(a.take(n as int) =~= a.take(n - 1).push(x));
        assert(b.take(n as int) =~= b.take(n - 1).push(y));
    } else {
        assert(a.take(0) =~= b.take(0));
    }
}


/// The clock reading of an event; one without a reading counts as the earliest.
pub open spec fn wall_and_logical(e: Event) -> (u64, u32) {
    match e.hlc {
        Some(h) => (h.wall, h.logical),
        None => (0, 0),
    }
}

/// The first event lies before the second in the order of the whole store: by wall
/// clock, then by logical clock, then by shard, then by position.
pub open spec fn lies_before(a: Event, b: Event) -> bool {
    let (aw, al) = wall_and_logical(a);
    let (bw, bl) = wall_and_logical(b);
    if aw != bw {
        aw < bw
    } else if al != bl {
        al < bl
    } else if a.shard_id != b.shard_id {
        a.shard_id < b.shard_id
    } else {
        a.position < b.position
    }
}

proof fn lemma_has_an_origin(
    ss: Seq<Seq<EventView>>,
    order: Seq<int>,
    descending: bool,
    t: int,
)
    requires
        is_merge_order(ss, order, descending),
        0 <= t < order.len(),
    ensures
        0 <= order[t] < ss.len(),
        0 <= taken(order.take(t), order[t]) < ss[order[t]].len(),
        emitted(ss, order)[t] == ss[order[t]][taken(order.take(t), order[t]) as int],
{
    assert(leads(ss, order.take(t), descending, order[t]));
    assert(waiting(ss, order.take(t), order[t]));
}

proof fn lemma_comes_out(ss: Seq<Seq<EventView>>, order: Seq<int>, i: int, k: int)
    requires
        0 <= k < taken(order, i),
    ensures
        exists|t: int|
            0 <= t < order.len() && #[trigger] order[t] == i && taken(order.take(t), i) == k,
    decreases order.len(),
{
    let rest = order.drop_last();
    let n = order.len() - 1;
    assert(order.take(n) =~= rest);
    if k < taken(rest, i) {
        lemma_comes_out(ss, rest, i, k);
        let t = choose|t: int|
            0 <= t < rest.len() && #[trigger] rest[t] == i && taken(rest.take(t), i) == k;
        assert(rest.take(t) =~= order.take(t));
        assert(order[t] == i);
    } else {
        assert(order[n] == i);
    }
}

/// A merge gives events of the streams only; no more than the limit; all of them where
/// it gives fewer than that or there is none; and where each stream is in the order of
/// the whole store, so is what comes out, or the other way round where that was asked.
pub proof fn law_merge_gives_the_streams_in_order(
    streams: Vec<Vec<Event>>,
    limit: u64,
    descending: bool,
    r: (Vec<Event>, Vec<Option<u64>>),
)
    requires
        call_ensures(merge_by_hlc, (streams, limit, descending), r),
    ensures
        limit > 0 ==> r.0@.len() <= limit,
        forall|t: int|
            0 <= t < r.0@.len() ==> is_in_streams(streams@, (#[trigger] r.0@[t])@),
        limit == 0 || r.0@.len() < limit ==> forall|i: int, k: int|
            0 <= i < streams@.len() && 0 <= k < streams@[i]@.len() ==> is_in_list(
                r.0@,
                (#[trigger] streams@[i]@[k])@,
            ),
        (forall|i: int, a: int, b: int|
            0 <= i < streams@.len() && 0 <= a < b < streams@[i]@.len() ==> if descending {
                !lies_before(#[trigger] streams@[i]@[a], #[trigger] streams@[i]@[b])
            } else {
                !lies_before(streams@[i]@[b], streams@[i]@[a])
            }) ==> forall|t: int, u: int|
            0 <= t < u < r.0@.len() ==> if descending {
                !lies_before(#[trigger] r.0@[t], #[trigger] r.0@[u])
            } else {
                !lies_before(r.0@[u], r.0@[t])
            },
        r.1@.len() == streams@.len(),
{
    let ss = stream_views(streams@);
    let order = choose|order: Seq<int>|
        {
            &&& #[trigger] merges(ss, limit, descending, order)
            &&& event_views(r.0@) == emitted(ss, order)
            &&& r.1@ == watermarks(ss, order)
        };
    let out = event_views(r.0@);
    assert(out.len() == r.0@.len() && out.len() == order.len());
    assert forall|t: int| 0 <= t < r.0@.len() implies is_in_streams(
        streams@,
        (#[trigger] r.0@[t])@,
    ) by {
        assert(out[t] == r.0@[t]@);
        lemma_has_an_origin(ss, order, descending, t);
        let i = order[t];
        let k = taken(order.take(t), order[t]) as int;
        assert(ss[i][k] == streams@[i]@[k]@);
    }
    if limit == 0 || r.0@.len() < limit {
        assert forall|i: int, k: int|
            0 <= i < streams@.len() && 0 <= k < streams@[i]@.len() implies is_in_list(
            r.0@,
            (#[trigger] streams@[i]@[k])@,
        ) by {
            assert(!waiting(ss, order, i));
            lemma_comes_out(ss, order, i, k);
            let t = choose|t: int|
                0 <= t < order.len() && #[trigger] order[t] == i && taken(order.take(t), i) == k;
            assert(emitted(ss, order)[t] == ss[i][k]);
            assert(out[t] == r.0@[t]@);
        }
    }
    if forall|i: int, a: int, b: int|
        0 <= i < streams@.len() && 0 <= a < b < streams@[i]@.len() ==> if descending {
            !lies_before(#[trigger] streams@[i]@[a], #[trigger] streams@[i]@[b])
        } else {
            !lies_before(streams@[i]@[b], streams@[i]@[a])
        } {
        assert forall|i: int, a: int, b: int|
            0 <= i < ss.len() && 0 <= a < b < ss[i].len() implies !ahead(
            #[trigger] ss[i][b],
            #[trigger] ss[i][a],
            descending,
        ) by {
            assert(ss[i][b] == streams@[i]@[b]@);
            assert(ss[i][a] == streams@[i]@[a]@);
        }
        assert forall|t: int, u: int| 0 <= t < u < r.0@.len() implies if descending {
            !lies_before(#[trigger] r.0@[t], #[trigger] r.0@[u])
        } else {
            !lies_before(r.0@[u], r.0@[t])
        } by {
            law_merge_of_sorted_is_sorted(ss, order, descending, t, u);
            assert(out[t] == r.0@[t]@);
            assert(out[u] == r.0@[u]@);
        }
    }
}

/// The streams hold an event with these contents.
pub open spec fn is_in_streams(streams: Seq<Vec<Event>>, e: EventView) -> bool {
    exists|i: int, k: int|
        0 <= i < streams.len() && 0 <= k < streams[i]@.len() && (#[trigger] streams[i]@[k])@ == e
}

/// The list holds an event with these contents.
pub open spec fn is_in_list(events: Seq<Event>, e: EventView) -> bool {
    exists|t: int| 0 <= t < events.len() && (#[trigger] events[t])@ == e
}


/// The lists have nothing in common: each is of a shard of its own, and no position comes
/// twice in one.
pub open spec fn are_lists_of_shards(streams: Seq<Vec<Event>>) -> bool {
    &&& forall|i: int, j: int, a: int, b: int|
        0 <= i < j < streams.len() && 0 <= a < streams[i]@.len() && 0 <= b < streams[j]@.len()
            ==> (#[trigger] streams[i]@[a]).shard_id != (#[trigger] streams[j]@[b]).shard_id
    &&& forall|i: int, a: int, b: int|
        0 <= i < streams.len() && 0 <= a < b < streams[i]@.len() ==> (
        #[trigger] streams[i]@[a]).position != (#[trigger] streams[i]@[b]).position
}

proof fn lemma_turn_is_counted(order: Seq<int>, t: int)
    requires
        0 <= t < order.len(),
    ensures
        taken(order.take(t), order[t]) < taken(order, order[t]),
    decreases order.len(),
{
    let n = order.len() - 1;
    let rest = order.drop_last();
    if t == n {
        assert(order.take(t) =~= rest);
    } else {
        lemma_turn_is_counted(rest, t);
        assert(rest.take(t) =~= order.take(t));
        assert(rest[t] == order[t]);
    }
}

/// Of each list, just the events up to where it was taken come out.
pub proof fn lemma_first_ones_come_out(
    streams: Seq<Vec<Event>>,
    order: Seq<int>,
    descending: bool,
    out: Seq<Event>,
    i: int,
    k: int,
)
    requires
        is_merge_order(stream_views(streams), order, descending),
        event_views(out) == emitted(stream_views(streams), order),
        are_lists_of_shards(streams),
        0 <= i < streams.len(),
        0 <= k < streams[i]@.len(),
    ensures
        is_in_list(out, streams[i]@[k]@) <==> k < taken(order, i),
{
    let ss = stream_views(streams);
    assert(event_views(out).len() == out.len());
    if k < taken(order, i) {
        lemma_comes_out(ss, order, i, k);
        let t = choose|t: int|
            0 <= t < order.len() && #[trigger] order[t] == i && taken(order.take(t), i) == k;
        assert(emitted(ss, order)[t] == ss[i][k]);
        assert(event_views(out)[t] == out[t]@);
        assert(ss[i][k] == streams[i]@[k]@);
    }
    if is_in_list(out, streams[i]@[k]@) {
        let t = choose|t: int| 0 <= t < out.len() && (#[trigger] out[t])@ == streams[i]@[k]@;
        assert(event_views(out)[t] == out[t]@);
        lemma_has_an_origin(ss, order, descending, t);
        let j = order[t];
        let m = taken(order.take(t), j) as int;
        assert(ss[j][m] == streams[j]@[m]@);
        assert(streams[j]@[m].shard_id == streams[i]@[k].shard_id);
        assert(streams[j]@[m].position == streams[i]@[k].position);
        lemma_turn_is_counted(order, t);
    }
}

/// The merge took the first `n` events of list `i`, and no others of it, and says so.
pub open spec fn is_taken_up_to(
    streams: Seq<Vec<Event>>,
    r: (Vec<Event>, Vec<Option<u64>>),
    i: int,
    n: int,
) -> bool {
    &&& 0 <= n <= streams[i]@.len()
    &&& r.1@[i] == (if n == 0 {
        None
    } else {
        Some(streams[i]@[n - 1].position)
    })
    &&& forall|k: int|
        0 <= k < streams[i]@.len() ==> (is_in_list(r.0@, (#[trigger] streams[i]@[k])@) <==> k < n)
}

/// What came out of each list is what lies up to the position that is told of it, and
/// nothing of the list is told where nothing came out.
pub proof fn law_told_position_is_that_of_the_last_taken(
    streams: Vec<Vec<Event>>,
    limit: u64,
    descending: bool,
    r: (Vec<Event>, Vec<Option<u64>>),
    i: int,
)
    requires
        call_ensures(merge_by_hlc, (streams, limit, descending), r),
        are_lists_of_shards(streams@),
        0 <= i < streams@.len(),
    ensures
        exists|n: int| #[trigger] is_taken_up_to(streams@, r, i, n),
{
    let ss = stream_views(streams@);
    let order = choose|order: Seq<int>|
        {
            &&& #[trigger] merges(ss, limit, descending, order)
            &&& event_views(r.0@) == emitted(ss, order)
            &&& r.1@ == watermarks(ss, order)
        };
    law_merge_keeps_source_order(ss, order, descending, i);
    let n = taken(order, i) as int;
    if n > 0 {
        assert(ss[i][n - 1] == streams@[i]@[n - 1]@);
    }
    assert forall|k: int| 0 <= k < streams@[i]@.len() implies (is_in_list(
        r.0@,
        (#[trigger] streams@[i]@[k])@,
    ) <==> k < n) by {
        lemma_first_ones_come_out(streams@, order, descending, r.0@, i, k);
    }
    assert(is_taken_up_to(streams@, r, i, n));
}

} // verus!
