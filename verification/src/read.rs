//! Reading: one page over several shards, one stream, one consumer's backlog.

use vstd::prelude::*;

use crate::event::{Event, EventView, StoredEvent, event_views, show_all, shows};
use crate::merge::{
    emitted, merge_by_hlc, merges, stream_views, taken, watermark, watermarks,
    are_lists_of_shards, emitted_from, is_in_list, law_merge_keeps_source_order, leads,
    lemma_first_ones_come_out, waiting,
};
use crate::status::{Code, Status, StatusView, says};
use crate::text::{decimal, decimal_text, join2, join3};

verus! {

/// Where a page begins in one shard.
#[derive(Clone, Copy, Debug, PartialEq, Eq, Structural)]
pub struct ShardPosition {
    pub shard_id: u64,
    pub from_position: u64,
    /// Backward reading has reached the first event of the shard.
    pub ended: bool,
}

/// A request for a page over several shards.
#[derive(Debug)]
pub struct ReadAllRequest {
    pub shard_ids: Vec<u64>,
    pub from_position: u64,
    pub max_count: u64,
    pub descending: bool,
    pub from_positions: Vec<ShardPosition>,
}

/// A page: the merged events and where the next page begins.
#[derive(Debug)]
pub struct ReadEventsResponse {
    pub events: Vec<Event>,
    pub next_positions: Vec<ShardPosition>,
}

/// Where the page begins: the caller's cursors if it has any, else the common
/// position in each of the shards.
pub open spec fn page_cursors(req: ReadAllRequest) -> Seq<ShardPosition> {
    if req.from_positions@.len() > 0 {
        req.from_positions@
    } else {
        req.shard_ids@.map_values(
            |s: u64|
                ShardPosition { shard_id: s, from_position: req.from_position, ended: false },
        )
    }
}

/// Decides from where each shard is read, or refuses a request that names no
/// shard.
pub fn read_all_cursors(req: &ReadAllRequest) -> (r: Result<Vec<ShardPosition>, Status>)
    ensures
        match r {
            Ok(cursors) => cursors@ == page_cursors(*req) && page_cursors(*req).len() > 0,
            Err(s) => page_cursors(*req).len() == 0 && s@ == says(
                Code::InvalidArgument,
                "shard_ids 与 from_positions 不能同时为空"@,
            ),
        },
{
    if req.shard_ids.is_empty() && req.from_positions.is_empty() {
        return Err(Status::of(Code::InvalidArgument, "shard_ids 与 from_positions 不能同时为空"));
    }
    let mut cursors: Vec<ShardPosition> = Vec::new();
    if !req.from_positions.is_empty() {
        let mut i: usize = 0;
        while i < req.from_positions.len()
            invariant
                i <= req.from_positions@.len(),
                cursors@ == req.from_positions@.take(i as int),
            decreases req.from_positions@.len() - i,
        {
            cursors.push(req.from_positions[i]);
            proof {
                assert(req.from_positions@.take(i + 1) =~= req.from_positions@.take(i as int).push(
                    req.from_positions@[i as int],
                ));
            }
            i += 1;
        }
        assert(cursors@ =~= page_cursors(*req));
    } else {
        let mut i: usize = 0;
        while i < req.shard_ids.len()
            invariant
                i <= req.shard_ids@.len(),
                cursors@.len() == i,
                forall|k: int|
                    0 <= k < i ==> #[trigger] cursors@[k] == (ShardPosition {
                        shard_id: req.shard_ids@[k],
                        from_position: req.from_position,
                        ended: false,
                    }),
            decreases req.shard_ids@.len() - i,
        {
            cursors.push(
                ShardPosition {
                    shard_id: req.shard_ids[i],
                    from_position: req.from_position,
                    ended: false,
                },
            );
            i += 1;
        }
        assert(cursors@ =~= page_cursors(*req));
    }
    Ok(cursors)
}

/// True if the shard has to be read at all: a shard that backward reading has used
/// up gives an empty stream.  Position 0 alone does not say so, since the event at
/// position 0 may be the next one.
pub fn shard_is_read(cursor: &ShardPosition, descending: bool) -> (r: bool)
    ensures
        r == !(descending && cursor.ended),
{
    !(descending && cursor.ended)
}

/// Where the next page begins in a shard, given the position of the last event
/// that this page took from it.
pub open spec fn next_cursor(
    cursor: ShardPosition,
    consumed: Option<u64>,
    descending: bool,
) -> ShardPosition {
    match consumed {
        None => cursor,
        Some(p) => if descending {
            ShardPosition {
                shard_id: cursor.shard_id,
                from_position: if p == 0 {
                    0
                } else {
                    (p - 1) as u64
                },
                ended: p == 0,
            }
        } else {
            ShardPosition {
                shard_id: cursor.shard_id,
                from_position: if p == u64::MAX {
                    u64::MAX
                } else {
                    (p + 1) as u64
                },
                ended: false,
            }
        },
    }
}

/// Advances a cursor past what was taken; a shard that gave nothing keeps it.
pub fn advance(cursor: &ShardPosition, consumed: Option<u64>, descending: bool) -> (next:
    ShardPosition)
    ensures
        next == next_cursor(*cursor, consumed, descending),
{
    match consumed {
        None => *cursor,
        Some(p) => if descending {
            ShardPosition {
                shard_id: cursor.shard_id,
                from_position: p.saturating_sub(1),
                ended: p == 0,
            }
        } else {
            ShardPosition {
                shard_id: cursor.shard_id,
                from_position: p.saturating_add(1),
                ended: false,
            }
        },
    }
}

/// Where the next page begins in every shard.
pub open spec fn next_cursors(
    cursors: Seq<ShardPosition>,
    consumed: Seq<Option<u64>>,
    descending: bool,
) -> Seq<ShardPosition> {
    Seq::new(cursors.len(), |i: int| next_cursor(cursors[i], consumed[i], descending))
}

/// Makes the page out of what each shard gave: the merged events up to
/// `max_count` (0: all), and cursors that advance past the events that came out
/// and past no others.
pub fn read_all_page(
    cursors: &Vec<ShardPosition>,
    streams: Vec<Vec<Event>>,
    max_count: u64,
    descending: bool,
) -> (page: ReadEventsResponse)
    requires
        streams@.len() == cursors@.len(),
    ensures
        exists|order: Seq<int>|
            {
                &&& #[trigger] merges(stream_views(streams@), max_count, descending, order)
                &&& event_views(page.events@) == emitted(stream_views(streams@), order)
                &&& page.next_positions@ == next_cursors(
                    cursors@,
                    watermarks(stream_views(streams@), order),
                    descending,
                )
            },
{
    let ghost ss = stream_views(streams@);
    let (events, consumed) = merge_by_hlc(streams, max_count, descending);
    let ghost order = choose|order: Seq<int>|
        {
            &&& #[trigger] merges(ss, max_count, descending, order)
            &&& event_views(events@) == emitted(ss, order)
            &&& consumed@ == watermarks(ss, order)
        };
    let mut next: Vec<ShardPosition> = Vec::new();
    let mut i: usize = 0;
    while i < cursors.len()
        invariant
            i <= cursors@.len(),
            consumed@.len() == cursors@.len(),
            next@.len() == i,
            forall|k: int|
                0 <= k < i ==> #[trigger] next@[k] == next_cursor(
                    cursors@[k],
                    consumed@[k],
                    descending,
                ),
        decreases cursors@.len() - i,
    {
        next.push(advance(&cursors[i], consumed[i], descending));
        i += 1;
    }
    proof {
        assert(next@ =~= next_cursors(cursors@, watermarks(ss, order), descending));
        assert(merges(ss, max_count, descending, order));
    }
    ReadEventsResponse { events, next_positions: next }
}

/// Positions of a shard's log go up.
pub open spec fn positions_increase(log: Seq<EventView>) -> bool {
    forall|i: int, j: int| 0 <= i < j < log.len() ==> log[i].position < log[j].position
}

/// How many events of the log lie below position `p`.
pub open spec fn below(log: Seq<EventView>, p: int) -> nat
    decreases log.len(),
{
    if log.len() == 0 {
        0
    } else {
        below(log.drop_last(), p) + if log.last().position < p {
            1nat
        } else {
            0nat
        }
    }
}

/// What a shard still has to give, read from the cursor: forward the events from
/// that position on, backward those up to it, latest first, and nothing once the
/// shard is used up.
pub open spec fn unread(log: Seq<EventView>, cursor: ShardPosition, descending: bool) -> Seq<
    EventView,
> {
    if !descending {
        log.skip(below(log, cursor.from_position as int) as int)
    } else if cursor.ended {
        Seq::empty()
    } else {
        log.take(below(log, cursor.from_position + 1) as int).reverse()
    }
}

proof fn lemma_below_splits(log: Seq<EventView>, p: int)
    requires
        positions_increase(log),
    ensures
        below(log, p) <= log.len(),
        forall|i: int| 0 <= i < log.len() ==> (#[trigger] log[i].position < p <==> i < below(log, p)),
    decreases log.len(),
{
    if log.len() > 0 {
        let rest = log.drop_last();
        assert forall|i: int, j: int| 0 <= i < j < rest.len() implies rest[i].position
            < rest[j].position by {
            assert(log[i].position < log[j].position);
        }
        lemma_below_splits(rest, p);
        assert forall|i: int| 0 <= i < log.len() implies (#[trigger] log[i].position < p <==> i
            < below(log, p)) by {
            if i < rest.len() {
                assert(rest[i] == log[i]);
                assert(log[i].position < log.last().position);
            }
            if log.last().position < p && rest.len() > 0 {
                let k = rest.len() - 1;
                assert(rest[k] == log[k]);
                assert(log[k].position < log.last().position);
            }
        }
    }
}

proof fn lemma_below_is(log: Seq<EventView>, p: int, n: int)
    requires
        positions_increase(log),
        0 <= n <= log.len(),
        n > 0 ==> log[n - 1].position < p,
        n < log.len() ==> log[n].position >= p,
    ensures
        below(log, p) == n,
{
    lemma_below_splits(log, p);
    if n < below(log, p) {
        assert(log[n].position < p);
    }
    if below(log, p) < n {
        assert(!(log[n - 1].position < p));
    }
}

/// Paging neither loses nor repeats an event: a page takes from each shard the
/// beginning of what was unread there, and the next cursor leaves exactly the
/// rest unread -- also where the page was cut off by its limit.
///
/// Forward, an event at the very last position has no position behind it, so the
/// log stays below that one.
pub proof fn law_paging_loses_nothing(
    log: Seq<EventView>,
    cursor: ShardPosition,
    descending: bool,
    ss: Seq<Seq<EventView>>,
    limit: u64,
    order: Seq<int>,
    i: int,
)
    requires
        positions_increase(log),
        !descending ==> forall|j: int| 0 <= j < log.len() ==> #[trigger] log[j].position < u64::MAX,
        merges(ss, limit, descending, order),
        0 <= i < ss.len(),
        ss[i].is_prefix_of(unread(log, cursor, descending)),
    ensures
        taken(order, i) <= unread(log, cursor, descending).len(),
        emitted_from(ss, order, i) == unread(log, cursor, descending).take(taken(order, i) as int),
        unread(log, next_cursor(cursor, watermark(ss, order, i), descending), descending) == unread(
            log,
            cursor,
            descending,
        ).skip(taken(order, i) as int),
{
    let before = unread(log, cursor, descending);
    let k = taken(order, i) as int;
    law_merge_keeps_source_order(ss, order, descending, i);
    assert(ss[i].take(k) =~= before.take(k));
    let next = next_cursor(cursor, watermark(ss, order, i), descending);
    if k == 0 {
        assert(before.skip(0) =~= before);
    } else {
        let p = ss[i][k - 1].position;
        assert(before[k - 1].position == p);
        if descending {
            let n = below(log, cursor.from_position + 1) as int;
            lemma_below_splits(log, cursor.from_position + 1);
            assert(before[k - 1] == log[n - k]);
            if p == 0 {
                if n - k > 0 {
                    assert(log[n - k - 1].position < log[n - k].position);
                }
                assert(before.skip(k) =~= Seq::<EventView>::empty());
            } else {
                if n - k > 0 {
                    assert(log[n - k - 1].position < log[n - k].position);
                }
                lemma_below_is(log, p as int, n - k);
                assert(log.take(n - k).reverse() =~= log.take(n).reverse().skip(k));
            }
        } else {
            let b = below(log, cursor.from_position as int) as int;
            lemma_below_splits(log, cursor.from_position as int);
            assert(before[k - 1] == log[b + k - 1]);
            if b + k < log.len() {
                assert(log[b + k - 1].position < log[b + k].position);
            }
            lemma_below_is(log, p + 1, b + k);
            assert(log.skip(b + k) =~= log.skip(b).skip(k));
        }
    }
}

/// An empty page means that there was nothing to read in any shard.
pub proof fn law_empty_page_means_done(
    ss: Seq<Seq<EventView>>,
    limit: u64,
    descending: bool,
    order: Seq<int>,
)
    requires
        merges(ss, limit, descending, order),
    ensures
        emitted(ss, order).len() == 0 <==> forall|i: int|
            0 <= i < ss.len() ==> #[trigger] ss[i].len() == 0,
{
    if order.len() == 0 {
        assert forall|i: int| 0 <= i < ss.len() implies #[trigger] ss[i].len() == 0 by {
            assert(!waiting(ss, order, i));
        }
    } else {
        assert(order.take(0) =~= Seq::<int>::empty());
        assert(leads(ss, order.take(0), descending, order[0]));
        assert(ss[order[0]].len() > 0);
    }
}

/// One page of a run: where it begins in each shard, what each shard gave to it, and
/// the order of the merge.
pub struct PageRead {
    pub cursors: Seq<ShardPosition>,
    pub given: Seq<Seq<EventView>>,
    pub order: Seq<int>,
}

/// The beginning of `s`, of at most `n` items (0: all).
pub open spec fn at_most_first(s: Seq<EventView>, n: u64) -> Seq<EventView> {
    if n == 0 || s.len() < n {
        s
    } else {
        s.take(n as int)
    }
}

/// The page is read from shards with these logs: each gives the first events that are
/// unread at its cursor, up to the limit, and the page is their merge up to the limit.
pub open spec fn reads_page(
    logs: Seq<Seq<EventView>>,
    page: PageRead,
    limit: u64,
    descending: bool,
) -> bool {
    &&& page.cursors.len() == logs.len()
    &&& page.given.len() == logs.len()
    &&& forall|i: int|
        0 <= i < logs.len() ==> #[trigger] page.given[i] == at_most_first(
            unread(logs[i], page.cursors[i], descending),
            limit,
        )
    &&& merges(page.given, limit, descending, page.order)
}

/// The pages are read one after the other: each begins where the one before it says
/// that the next begins.
pub open spec fn is_page_run(
    logs: Seq<Seq<EventView>>,
    pages: Seq<PageRead>,
    limit: u64,
    descending: bool,
) -> bool {
    &&& forall|t: int|
        0 <= t < pages.len() ==> reads_page(logs, #[trigger] pages[t], limit, descending)
    &&& forall|t: int|
        0 < t < pages.len() ==> (#[trigger] pages[t]).cursors == next_cursors(
            pages[t - 1].cursors,
            watermarks(pages[t - 1].given, pages[t - 1].order),
            descending,
        )
}

/// What the pages together hold of shard `i`, in the order in which it came out.
pub open spec fn run_events(pages: Seq<PageRead>, i: int) -> Seq<EventView>
    decreases pages.len(),
{
    if pages.len() == 0 {
        Seq::empty()
    } else {
        run_events(pages.drop_last(), i) + emitted_from(pages.last().given, pages.last().order, i)
    }
}

/// What is unread in shard `i` after the pages.
spec fn left_unread(
    logs: Seq<Seq<EventView>>,
    pages: Seq<PageRead>,
    descending: bool,
    i: int,
) -> Seq<EventView> {
    unread(
        logs[i],
        next_cursor(
            pages.last().cursors[i],
            watermark(pages.last().given, pages.last().order, i),
            descending,
        ),
        descending,
    )
}

proof fn lemma_run_keeps_all(
    logs: Seq<Seq<EventView>>,
    pages: Seq<PageRead>,
    limit: u64,
    descending: bool,
    i: int,
)
    requires
        pages.len() > 0,
        is_page_run(logs, pages, limit, descending),
        0 <= i < logs.len(),
        positions_increase(logs[i]),
        !descending ==> forall|j: int|
            0 <= j < logs[i].len() ==> #[trigger] logs[i][j].position < u64::MAX,
    ensures
        run_events(pages, i) + left_unread(logs, pages, descending, i) == unread(
            logs[i],
            pages[0].cursors[i],
            descending,
        ),
    decreases pages.len(),
{
    let last = pages.last();
    let rest = pages.drop_last();
    assert(reads_page(logs, pages[pages.len() - 1], limit, descending));
    let before = unread(logs[i], last.cursors[i], descending);
    assert(last.given[i] == at_most_first(before, limit));
    assert(last.given[i].is_prefix_of(before));
    law_paging_loses_nothing(
        logs[i],
        last.cursors[i],
        descending,
        last.given,
        limit,
        last.order,
        i,
    );
    let k = taken(last.order, i) as int;
    assert(before.take(k) + before.skip(k) =~= before);
    if rest.len() == 0 {
        assert(run_events(rest, i) =~= Seq::<EventView>::empty());
        assert(run_events(pages, i) =~= before.take(k));
    } else {
        assert(is_page_run(logs, rest, limit, descending)) by {
            assert forall|t: int| 0 <= t < rest.len() implies reads_page(
                logs,
                #[trigger] rest[t],
                limit,
                descending,
            ) by {
                assert(rest[t] == pages[t]);
            }
            assert forall|t: int| 0 < t < rest.len() implies (#[trigger] rest[t]).cursors
                == next_cursors(
                rest[t - 1].cursors,
                watermarks(rest[t - 1].given, rest[t - 1].order),
                descending,
            ) by {
                assert(rest[t] == pages[t] && rest[t - 1] == pages[t - 1]);
            }
        }
        lemma_run_keeps_all(logs, rest, limit, descending, i);
        let n = pages.len() - 1;
        assert(reads_page(logs, pages[n - 1], limit, descending));
        assert(pages[n].cursors == next_cursors(
            pages[n - 1].cursors,
            watermarks(pages[n - 1].given, pages[n - 1].order),
            descending,
        ));
        assert(rest.last() == pages[n - 1]);
        assert(left_unread(logs, rest, descending, i) == before);
        assert(rest[0] == pages[0]);
        assert(run_events(pages, i) + before.skip(k) =~= run_events(rest, i) + (before.take(k)
            + before.skip(k)));
    }
}

/// Pages that are read one after the other, until one is empty, together hold every
/// event of the shards from where the first page begins (backward: down to the first
/// event) exactly once, each shard's events in the order in which they are read; and
/// none holds more than the limit, where there is one.
///
/// (Forward, an event at the very last position has no position behind it; where there is
/// one, no page is empty.)
pub proof fn law_pages_hold_everything_once(
    logs: Seq<Seq<EventView>>,
    pages: Seq<PageRead>,
    limit: u64,
    descending: bool,
)
    requires
        pages.len() > 0,
        is_page_run(logs, pages, limit, descending),
        emitted(pages.last().given, pages.last().order).len() == 0,
        forall|i: int| 0 <= i < logs.len() ==> positions_increase(#[trigger] logs[i]),
    ensures
        forall|i: int|
            0 <= i < logs.len() ==> #[trigger] run_events(pages, i) == unread(
                logs[i],
                pages[0].cursors[i],
                descending,
            ),
        limit > 0 ==> forall|t: int|
            0 <= t < pages.len() ==> emitted(
                (#[trigger] pages[t]).given,
                pages[t].order,
            ).len() <= limit,
{
    let last = pages.last();
    assert(reads_page(logs, pages[pages.len() - 1], limit, descending));
    law_empty_page_means_done(last.given, limit, descending, last.order);
    assert forall|i: int| 0 <= i < logs.len() implies #[trigger] run_events(pages, i) == unread(
        logs[i],
        pages[0].cursors[i],
        descending,
    ) by {
        assert(positions_increase(logs[i]));
        assert(last.given[i].len() == 0);
        if !descending {
            let from = last.cursors[i].from_position as int;
            lemma_below_splits(logs[i], from);
            assert forall|j: int| 0 <= j < logs[i].len() implies #[trigger] logs[i][j].position
                < u64::MAX by {
                assert(logs[i][j].position < from);
            }
        }
        lemma_run_keeps_all(logs, pages, limit, descending, i);
        assert(unread(logs[i], last.cursors[i], descending).len() == 0);
        assert(last.order.len() == 0);
        assert(watermark(last.given, last.order, i) is None);
        assert(run_events(pages, i) + left_unread(logs, pages, descending, i) =~= run_events(
            pages,
            i,
        ));
    }
    assert forall|t: int| 0 <= t < pages.len() && limit > 0 implies emitted(
        (#[trigger] pages[t]).given,
        pages[t].order,
    ).len() <= limit by {
        assert(reads_page(logs, pages[t], limit, descending));
    }
}

/// The reply where a read goes to a shard that is not here.
pub open spec fn not_here(shard_id: u64) -> StatusView {
    says(
        Code::Unavailable,
        "shard "@ + decimal_text(shard_id as nat) + " not on this node, retry other nodes"@,
    )
}

/// Asks the caller to try another node, which `NotFound` would not do.
pub fn shard_not_here(shard_id: u64) -> (s: Status)
    ensures
        s@ == not_here(shard_id),
{
    let n = decimal(shard_id);
    Status::new(
        Code::Unavailable,
        join3("shard ", n.as_str(), " not on this node, retry other nodes"),
    )
}

/// The reply where no route leads to a stream.
pub open spec fn no_such_stream(stream_id: Seq<char>) -> StatusView {
    says(Code::NotFound, "stream '"@ + stream_id + "' not found"@)
}

/// Where a read of a stream goes, after the route table was consulted, its
/// projection refreshed if the stream was missing, and the table consulted again.
pub fn read_route(
    stream_id: &str,
    first: Option<u64>,
    refreshed: Result<Option<u64>, Status>,
) -> (r: Result<u64, Status>)
    ensures
        first matches Some(shard) ==> r == Ok::<u64, Status>(shard),
        first is None ==> match refreshed {
            Ok(Some(shard)) => r == Ok::<u64, Status>(shard),
            Ok(None) => r matches Err(s) && s@ == no_such_stream(stream_id@),
            Err(e) => r == Err::<u64, Status>(e),
        },
{
    match first {
        Some(shard) => Ok(shard),
        None => match refreshed {
            Ok(Some(shard)) => Ok(shard),
            Ok(None) => Err(
                Status::new(Code::NotFound, join3("stream '", stream_id, "' not found")),
            ),
            Err(e) => Err(e),
        },
    }
}

/// The reply to a read of one stream, from what the shard's storage gave.
pub fn read_stream_page(shard_id: u64, read: Result<Vec<StoredEvent>, String>) -> (r: Result<
    ReadEventsResponse,
    Status,
>)
    ensures
        match read {
            Ok(stored) => r matches Ok(page) && page.next_positions@.len() == 0
                && page.events@.len() == stored@.len() && forall|i: int|
                0 <= i < stored@.len() ==> shows((#[trigger] page.events@[i])@, stored@[i], shard_id),
            Err(e) => r matches Err(s) && s@ == says(
                Code::Internal,
                "read_stream_events 失败: "@ + e@,
            ),
        },
{
    match read {
        Ok(stored) => Ok(
            ReadEventsResponse { events: show_all(stored, shard_id), next_positions: Vec::new() },
        ),
        Err(e) => Err(Status::new(Code::Internal, join2("read_stream_events 失败: ", e.as_str()))),
    }
}

/// What one shard gives to a page, from what its storage gave.
pub fn read_all_stream(
    shard_id: u64,
    descending: bool,
    read: Result<Vec<StoredEvent>, String>,
) -> (r: Result<Vec<Event>, Status>)
    ensures
        match read {
            Ok(stored) => r matches Ok(events) && events@.len() == stored@.len() && forall|i: int|
                0 <= i < stored@.len() ==> shows((#[trigger] events@[i])@, stored@[i], shard_id),
            Err(e) => r matches Err(s) && s@ == says(
                Code::Internal,
                (if descending {
                    "read_all_events_backward 失败: "@
                } else {
                    "read_all_events 失败: "@
                }) + e@,
            ),
        },
{
    match read {
        Ok(stored) => Ok(show_all(stored, shard_id)),
        Err(e) => if descending {
            Err(Status::new(Code::Internal, join2("read_all_events_backward 失败: ", e.as_str())))
        } else {
            Err(Status::new(Code::Internal, join2("read_all_events 失败: ", e.as_str())))
        },
    }
}

/// Whether and where a stream exists.
#[derive(Clone, Copy, Debug, PartialEq, Eq, Structural)]
pub struct StreamMeta {
    pub shard_id: u64,
    pub exists: bool,
    pub current_version: u64,
}

/// The reply about a stream.  `route` is the shard it is routed to, and `local`
/// what that shard's storage says of the stream: `None` where the shard is not on
/// this node.
pub fn stream_meta(route: Option<u64>, local: Option<Result<Option<u64>, String>>) -> (r: Result<
    StreamMeta,
    Status,
>)
    ensures
        match (route, local) {
            (None, _) => r == Ok::<StreamMeta, Status>(
                StreamMeta { shard_id: 0, exists: false, current_version: 0 },
            ),
            (Some(shard_id), None) => r matches Err(s) && s@ == not_here(shard_id),
            (Some(shard_id), Some(Err(e))) => r matches Err(s) && s@ == says(
                Code::Internal,
                "read_stream_meta failed: "@ + e@,
            ),
            (Some(shard_id), Some(Ok(version))) => r == Ok::<StreamMeta, Status>(
                StreamMeta {
                    shard_id,
                    exists: version is Some,
                    current_version: match version {
                        Some(v) => v,
                        None => 0,
                    },
                },
            ),
        },
{
    match route {
        None => Ok(StreamMeta { shard_id: 0, exists: false, current_version: 0 }),
        Some(shard_id) => match local {
            None => Err(shard_not_here(shard_id)),
            Some(Err(e)) => Err(
                Status::new(Code::Internal, join2("read_stream_meta failed: ", e.as_str())),
            ),
            Some(Ok(Some(v))) => Ok(StreamMeta { shard_id, exists: true, current_version: v }),
            Some(Ok(None)) => Ok(StreamMeta { shard_id, exists: false, current_version: 0 }),
        },
    }
}


/// Where no page cursors are given, the first page reads every named shard, in the order
/// they are named, from the position of the request; page cursors that are given are
/// used as they are.  Only a request with neither is refused.
pub proof fn law_first_page_starts_where_asked(
    req: ReadAllRequest,
    r: Result<Vec<ShardPosition>, Status>,
)
    requires
        call_ensures(read_all_cursors, (&req,), r),
    ensures
        r is Err <==> req.from_positions@.len() == 0 && req.shard_ids@.len() == 0,
        r matches Err(s) ==> s@.code == Code::InvalidArgument,
        req.from_positions@.len() > 0 ==> (r matches Ok(cursors) && cursors@
            == req.from_positions@),
        req.from_positions@.len() == 0 && req.shard_ids@.len() > 0 ==> (r matches Ok(cursors)
            && cursors@.len() == req.shard_ids@.len() && forall|i: int|
            0 <= i < cursors@.len() ==> (#[trigger] cursors@[i]).shard_id == req.shard_ids@[i]
                && cursors@[i].from_position == req.from_position && !cursors@[i].ended),
{
}

/// Read from a first cursor, a shard's log gives the events from the requested position
/// on; backward, those up to it.
pub proof fn law_first_page_holds_what_lies_from_there_on(
    req: ReadAllRequest,
    cursors: Vec<ShardPosition>,
    i: int,
    log: Seq<EventView>,
    k: int,
    descending: bool,
)
    requires
        call_ensures(read_all_cursors, (&req,), Ok::<Vec<ShardPosition>, Status>(cursors)),
        req.from_positions@.len() == 0,
        0 <= i < req.shard_ids@.len(),
        positions_increase(log),
        0 <= k < log.len(),
    ensures
        !descending ==> (unread(log, cursors@[i], false).contains(log[k]) <==> log[k].position
            >= req.from_position),
        descending ==> (unread(log, cursors@[i], true).contains(log[k]) <==> log[k].position
            <= req.from_position),
{
    let c = cursors@[i];
    assert(c.from_position == req.from_position);
    law_unread_is_what_lies_beyond(log, c, k);
}

/// What a cursor leaves unread of a log: forward, the events from its position on;
/// backward, those up to it, and none where the log's beginning was reached.
pub proof fn law_unread_is_what_lies_beyond(log: Seq<EventView>, cursor: ShardPosition, k: int)
    requires
        positions_increase(log),
        0 <= k < log.len(),
    ensures
        unread(log, cursor, false).contains(log[k]) <==> log[k].position >= cursor.from_position,
        unread(log, cursor, true).contains(log[k]) <==> !cursor.ended && log[k].position
            <= cursor.from_position,
{
    let p = cursor.from_position;
    let b = below(log, p as int) as int;
    lemma_below_splits(log, p as int);
    let ahead = unread(log, cursor, false);
    assert(ahead =~= log.skip(b));
    if log[k].position >= p {
        assert(!(log[k].position < p));
        assert(ahead[k - b] == log[k]);
    }
    if ahead.contains(log[k]) {
        let m = choose|m: int| 0 <= m < ahead.len() && ahead[m] == log[k];
        assert(ahead[m] == log[b + m]);
        assert(!(log[b + m].position < p));
    }
    if !cursor.ended {
        let n = below(log, p + 1) as int;
        lemma_below_splits(log, p + 1);
        let back = unread(log, cursor, true);
        assert(back =~= log.take(n).reverse());
        if log[k].position <= p {
            assert(log[k].position < p + 1);
            assert(back[n - 1 - k] == log[k]);
        }
        if back.contains(log[k]) {
            let m = choose|m: int| 0 <= m < back.len() && back[m] == log[k];
            assert(back[m] == log[n - 1 - m]);
            assert(log[n - 1 - m].position < p + 1);
        }
    }
}

/// After an event was taken, the cursor leaves exactly what lies beyond that event.  A
/// shard of which nothing was taken keeps its cursor.
pub proof fn law_cursor_moves_just_beyond(
    cursor: ShardPosition,
    consumed: Option<u64>,
    descending: bool,
    next: ShardPosition,
    q: u64,
)
    requires
        call_ensures(advance, (&cursor, consumed, descending), next),
    ensures
        next.shard_id == cursor.shard_id,
        consumed is None ==> next == cursor,
        consumed matches Some(p) ==> {
            &&& !descending && p < u64::MAX ==> (q >= next.from_position <==> q > p)
            &&& !descending && p == u64::MAX ==> next.from_position == u64::MAX
            &&& descending ==> (!next.ended && q <= next.from_position <==> q < p)
        },
{
}

/// A page goes on, shard by shard, just beyond the last event that it took of the shard.
pub proof fn law_page_goes_on_behind_what_it_took(
    cursors: Vec<ShardPosition>,
    streams: Vec<Vec<Event>>,
    max_count: u64,
    descending: bool,
    page: ReadEventsResponse,
    i: int,
)
    requires
        call_ensures(read_all_page, (&cursors, streams, max_count, descending), page),
        0 <= i < cursors@.len(),
        streams@.len() == cursors@.len(),
    ensures
        page.next_positions@.len() == cursors@.len(),
        page.next_positions@[i].shard_id == cursors@[i].shard_id,
        max_count > 0 ==> page.events@.len() <= max_count,
        page.next_positions@[i] == cursors@[i] || exists|k: int| #[trigger]
            stands_behind(page.next_positions@[i], streams@[i]@, k, descending),
        streams@[i]@.len() > 0 && (max_count == 0 || page.events@.len() < max_count)
            ==> stands_behind(
            page.next_positions@[i],
            streams@[i]@,
            streams@[i]@.len() - 1,
            descending,
        ),
{
    let ss = stream_views(streams@);
    let order = choose|order: Seq<int>|
        {
            &&& #[trigger] merges(ss, max_count, descending, order)
            &&& event_views(page.events@) == emitted(ss, order)
            &&& page.next_positions@ == next_cursors(cursors@, watermarks(ss, order), descending)
        };
    law_merge_keeps_source_order(ss, order, descending, i);
    let n = taken(order, i) as int;
    if n > 0 {
        assert(ss[i][n - 1] == streams@[i]@[n - 1]@);
        assert(stands_behind(page.next_positions@[i], streams@[i]@, n - 1, descending));
    }
    if max_count == 0 || page.events@.len() < max_count {
        assert(event_views(page.events@).len() == order.len());
        assert(!waiting(ss, order, i));
    }
}

/// The cursor stands just behind the `k`-th event.
pub open spec fn stands_behind(
    cursor: ShardPosition,
    events: Seq<Event>,
    k: int,
    descending: bool,
) -> bool {
    &&& 0 <= k < events.len()
    &&& if descending {
        if events[k].position == 0 {
            cursor.ended
        } else {
            !cursor.ended && cursor.from_position == events[k].position - 1
        }
    } else if events[k].position == u64::MAX {
        cursor.from_position == u64::MAX
    } else {
        cursor.from_position == events[k].position + 1
    }
}


/// The shard known first is read; else the one known after a refresh; a stream that is
/// nowhere is not found.
pub proof fn law_stream_is_read_where_it_is_known(
    stream_id: &str,
    first: Option<u64>,
    refreshed: Result<Option<u64>, Status>,
    r: Result<u64, Status>,
)
    requires
        call_ensures(read_route, (stream_id, first, refreshed), r),
    ensures
        r is Ok <==> first is Some || (refreshed matches Ok(again) && again is Some),
        r matches Ok(shard) ==> first == Some(shard) || (first is None && refreshed == Ok::<
            Option<u64>,
            Status,
        >(Some(shard))),
        first is None && refreshed == Ok::<Option<u64>, Status>(None) ==> (r matches Err(s)
            && s@.code == Code::NotFound),
        first is None ==> (refreshed matches Err(e) ==> r == Err::<u64, Status>(e)),
{
}

/// Whatever is read, of one stream or of all, is shown in the order of the store, each
/// event as it is stored.
pub proof fn law_events_are_shown_in_the_order_of_the_store(
    shard_id: u64,
    descending: bool,
    stored: Vec<StoredEvent>,
    of_stream: ReadEventsResponse,
    of_all: Vec<Event>,
    i: int,
)
    requires
        call_ensures(
            read_stream_page,
            (shard_id, Ok::<Vec<StoredEvent>, String>(stored)),
            Ok::<ReadEventsResponse, Status>(of_stream),
        ),
        call_ensures(
            read_all_stream,
            (shard_id, descending, Ok::<Vec<StoredEvent>, String>(stored)),
            Ok::<Vec<Event>, Status>(of_all),
        ),
        0 <= i < stored@.len(),
    ensures
        of_stream.events@.len() == stored@.len() && of_all@.len() == stored@.len(),
        of_stream.next_positions@.len() == 0,
        of_stream.events@[i].shard_id == shard_id && of_all@[i].shard_id == shard_id,
        of_stream.events@[i].position == stored@[i].position,
        of_all@[i].position == stored@[i].position,
        of_stream.events@[i].stream_id@ == stored@[i].stream_id@,
        of_all@[i].stream_id@ == stored@[i].stream_id@,
        of_stream.events@[i].data@ == stored@[i].data@,
        of_all@[i].data@ == stored@[i].data@,
{
    assert(shows(of_stream.events@[i]@, stored@[i], shard_id));
    assert(shows(of_all@[i]@, stored@[i], shard_id));
}

/// A stream exists where its shard has a version of it; one that is routed nowhere exists
/// nowhere.
pub proof fn law_stream_exists_where_it_has_a_version(
    route: Option<u64>,
    local: Option<Result<Option<u64>, String>>,
    r: Result<StreamMeta, Status>,
)
    requires
        call_ensures(stream_meta, (route, local), r),
    ensures
        route is None ==> (r matches Ok(m) && !m.exists),
        r matches Ok(m) ==> (m.exists <==> route is Some && (local matches Some(Ok(version))
            && version is Some)),
        r matches Ok(m) ==> (m.exists ==> m.shard_id == route->0 && local == Some(
            Ok::<Option<u64>, String>(Some(m.current_version)),
        )),
        route is Some && local is None ==> (r matches Err(s) && s@.code == Code::Unavailable),
        route is Some && (local matches Some(read) && read is Err) ==> (r matches Err(s) && s@.code
            == Code::Internal),
{
}


/// The page holds the first `n` events of the shard's list and no others of it, and the
/// next page of the shard begins behind them.
pub open spec fn page_ends_behind(
    cursor: ShardPosition,
    events: Seq<Event>,
    page: ReadEventsResponse,
    next: ShardPosition,
    n: int,
    descending: bool,
) -> bool {
    &&& 0 <= n <= events.len()
    &&& if n == 0 {
        next == cursor
    } else {
        stands_behind(next, events, n - 1, descending)
    }
    &&& forall|k: int|
        0 <= k < events.len() ==> (is_in_list(page.events@, (#[trigger] events[k])@) <==> k < n)
}

/// The next page of each shard begins just behind what this page holds of it: no event is
/// passed over, and none is given again.
pub proof fn law_next_page_begins_behind_this_one(
    cursors: Vec<ShardPosition>,
    streams: Vec<Vec<Event>>,
    max_count: u64,
    descending: bool,
    page: ReadEventsResponse,
    i: int,
)
    requires
        call_ensures(read_all_page, (&cursors, streams, max_count, descending), page),
        0 <= i < cursors@.len(),
        streams@.len() == cursors@.len(),
        are_lists_of_shards(streams@),
    ensures
        exists|n: int| #[trigger]
            page_ends_behind(
                cursors@[i],
                streams@[i]@,
                page,
                page.next_positions@[i],
                n,
                descending,
            ),
{
    let ss = stream_views(streams@);
    let order = choose|order: Seq<int>|
        {
            &&& #[trigger] merges(ss, max_count, descending, order)
            &&& event_views(page.events@) == emitted(ss, order)
            &&& page.next_positions@ == next_cursors(cursors@, watermarks(ss, order), descending)
        };
    law_merge_keeps_source_order(ss, order, descending, i);
    let n = taken(order, i) as int;
    if n > 0 {
        assert(ss[i][n - 1] == streams@[i]@[n - 1]@);
        assert(stands_behind(page.next_positions@[i], streams@[i]@, n - 1, descending));
    }
    assert forall|k: int| 0 <= k < streams@[i]@.len() implies (is_in_list(
        page.events@,
        (#[trigger] streams@[i]@[k])@,
    ) <==> k < n) by {
        lemma_first_ones_come_out(streams@, order, descending, page.events@, i, k);
    }
    assert(page_ends_behind(
        cursors@[i],
        streams@[i]@,
        page,
        page.next_positions@[i],
        n,
        descending,
    ));
}


/// A shard is passed over only where a reading backward has reached its beginning.
pub proof fn law_shard_is_passed_over_only_at_its_beginning(
    cursor: ShardPosition,
    descending: bool,
    r: bool,
)
    requires
        call_ensures(shard_is_read, (&cursor, descending), r),
    ensures
        !r <==> descending && cursor.ended,
{
}

} // verus!
