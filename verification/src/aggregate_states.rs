//! Listing the states of an aggregate type, page by page.

use vstd::prelude::*;

use crate::aggregate_follow::partition_out_of_range;
use crate::aggregate_tokens::{
    PageFields, StatePageToken, encode_state_page_token, written_page,
};
use crate::aggregate_types::{
    AggregateTypeDefinition, lemma_groups_name_shards, lemma_is_on, lemma_partitions_on,
    partitions_by_shard, partitions_on, shards_with,
};
use crate::order::lists;
use crate::status::{Code, Status, says};
use crate::text::{
    law_first_difference_decides, lemma_text_order_total, lemma_text_order_transitive, same_text,
    text_before, text_less, text_views,
};

verus! {

/// How many states a page holds if the request does not say.
pub const DEFAULT_STATE_PAGE_SIZE: u32 = 100;

/// How many states a page holds at most.
pub const MAX_STATE_PAGE_SIZE: u32 = 1000;

/// How many states a page holds.
pub fn state_page_size(asked: u32) -> (n: u32)
    ensures
        n == (if asked == 0 {
            DEFAULT_STATE_PAGE_SIZE
        } else if asked < MAX_STATE_PAGE_SIZE {
            asked
        } else {
            MAX_STATE_PAGE_SIZE
        }),
{
    if asked == 0 {
        DEFAULT_STATE_PAGE_SIZE
    } else if asked < MAX_STATE_PAGE_SIZE {
        asked
    } else {
        MAX_STATE_PAGE_SIZE
    }
}

/// How many states each partition is asked for: one more than the page holds, which
/// tells whether there is more.
pub fn state_read_limit(page_size: u32) -> (n: u32)
    ensures
        n == (if page_size < u32::MAX {
            (page_size + 1) as u32
        } else {
            u32::MAX
        }),
{
    page_size.saturating_add(1)
}

/// Where a listing is in a partition: behind this aggregate; an empty name stands for
/// the beginning.
#[derive(Debug)]
pub struct StateCursor {
    pub partition_id: u32,
    pub after_aggregate_id: String,
}

/// The contents of the cursors of a listing.
pub open spec fn state_cursor_views(v: Seq<StateCursor>) -> Seq<(u32, Seq<char>)> {
    v.map_values(|c: StateCursor| (c.partition_id, c.after_aggregate_id@))
}

/// Where a listing goes on in these partitions.
pub open spec fn state_cursors_for(partitions: Seq<u16>, after: Seq<Seq<char>>) -> Seq<
    (u32, Seq<char>),
> {
    partitions.map_values(|p: u16| (p as u32, after[p as int]))
}

/// The shards that a listing asks, in ascending order, and where it goes on in the
/// partitions of each.
pub fn state_sources(d: &AggregateTypeDefinition, token: &StatePageToken) -> (out: Vec<
    (u64, Vec<StateCursor>),
>)
    requires
        d.wf(),
        forall|k: u64| #[trigger]
            d.placements@.dom().contains(k) ==> k < token.after_aggregate_ids@.len(),
    ensures
        lists(
            out@.map_values(|g: (u64, Vec<StateCursor>)| g.0),
            shards_with(d.placements.entries@),
        ),
        forall|i: int|
            0 <= i < out@.len() ==> state_cursor_views((#[trigger] out@[i]).1@)
                == state_cursors_for(
                partitions_on(d.placements.entries@, out@[i].0),
                token@.after,
            ),
{
    let ghost entries = d.placements.entries@;
    let ghost after = token@.after;
    let groups = partitions_by_shard(d);
    let mut out: Vec<(u64, Vec<StateCursor>)> = Vec::new();
    let mut i: usize = 0;
    while i < groups.len()
        invariant
            i <= groups@.len(),
            d.wf(),
            entries == d.placements.entries@,
            after == token@.after,
            forall|k: u64| #[trigger]
                d.placements@.dom().contains(k) ==> k < token.after_aggregate_ids@.len(),
            forall|i: int|
                0 <= i < groups@.len() ==> (#[trigger] groups@[i]).1@ == partitions_on(
                    entries,
                    groups@[i].0,
                ),
            out@.len() == i,
            forall|k: int| 0 <= k < i ==> (#[trigger] out@[k]).0 == groups@[k].0,
            forall|k: int|
                0 <= k < i ==> state_cursor_views((#[trigger] out@[k]).1@) == state_cursors_for(
                    partitions_on(entries, out@[k].0),
                    after,
                ),
        decreases groups@.len() - i,
    {
        let partitions = &groups[i].1;
        let ghost shard = groups@[i as int].0;
        let mut cursors: Vec<StateCursor> = Vec::new();
        let mut k: usize = 0;
        while k < partitions.len()
            invariant
                k <= partitions@.len(),
                d.wf(),
                entries == d.placements.entries@,
                after == token@.after,
                partitions@ == partitions_on(entries, shard),
                forall|k: u64| #[trigger]
                    d.placements@.dom().contains(k) ==> k < token.after_aggregate_ids@.len(),
                cursors@.len() == k,
                forall|j: int|
                    0 <= j < k ==> ((#[trigger] cursors@[j]).partition_id, cursors@[
                        j
                    ].after_aggregate_id@) == state_cursors_for(partitions@, after)[j],
            decreases partitions@.len() - k,
        {
            let p: u16 = partitions[k];
            proof {
                lemma_partitions_on(entries, shard, k as int);
                let j = choose|j: int|
                    0 <= j < entries.len() && (#[trigger] entries[j]).1.shard_id == shard
                        && entries[j].0 as u16 == partitions@[k as int];
                d.placements.lemma_entry(j);
                assert(d.placements@.dom().contains(d.placements.key(j)));
            }
            cursors.push(
                StateCursor {
                    partition_id: p as u32,
                    after_aggregate_id: token.after_aggregate_ids[p as usize].clone(),
                },
            );
            k += 1;
        }
        assert(state_cursor_views(cursors@) =~= state_cursors_for(partitions@, after));
        out.push((groups[i].0, cursors));
        i += 1;
    }
    assert(out@.map_values(|g: (u64, Vec<StateCursor>)| g.0) =~= groups@.map_values(
        |g: (u64, Vec<u16>)| g.0,
    ));
    out
}

/// Where a shard begins to read a partition's states: behind an aggregate, or at the
/// beginning.
#[derive(Debug)]
pub struct StateRead {
    pub partition_id: u16,
    pub after: Option<String>,
}

/// Says where a shard begins to read a partition's states.
pub fn state_read(cursor: StateCursor) -> (r: Result<StateRead, Status>)
    ensures
        if cursor.partition_id > u16::MAX {
            r matches Err(s) && s@ == partition_out_of_range()
        } else {
            r matches Ok(read) && read.partition_id == cursor.partition_id && read.after == (
            if cursor.after_aggregate_id@.len() == 0 {
                None
            } else {
                Some(cursor.after_aggregate_id)
            })
        },
{
    if cursor.partition_id > 65535 {
        return Err(Status::of(Code::InvalidArgument, "partition_id 超出范围"));
    }
    let after = if cursor.after_aggregate_id.as_str().is_empty() {
        None
    } else {
        Some(cursor.after_aggregate_id)
    };
    Ok(StateRead { partition_id: cursor.partition_id as u16, after })
}

/// A state in the store: the aggregate, the state's revision, and when it was written.
#[derive(Debug)]
pub struct StoredState {
    pub aggregate_id: String,
    pub revision: u64,
    pub modified_wall: u64,
}

/// A state, as it is shown between nodes.
#[derive(Debug)]
pub struct InternalStateInfo {
    pub partition_id: u32,
    pub aggregate_id: String,
    pub revision: u64,
    pub modified_unix_millis: u64,
}

/// What a shard gives of a partition's states, from what its store gave.
pub fn partition_states(partition_id: u16, read: Result<Vec<StoredState>, String>) -> (r: Result<
    Vec<InternalStateInfo>,
    Status,
>)
    ensures
        match read {
            Ok(stored) => r matches Ok(out) && out@.len() == stored@.len() && forall|i: int|
                0 <= i < out@.len() ==> (#[trigger] out@[i]).partition_id == partition_id
                    && out@[i].aggregate_id == stored@[i].aggregate_id && out@[i].revision
                    == stored@[i].revision && out@[i].modified_unix_millis
                    == stored@[i].modified_wall,
            Err(e) => r matches Err(s) && s@ == says(Code::Internal, e@),
        },
{
    let stored = match read {
        Ok(stored) => stored,
        Err(e) => return Err(Status::new(Code::Internal, e)),
    };
    let mut out: Vec<InternalStateInfo> = Vec::new();
    for s in it: stored
        invariant
            it.seq() == stored@,
            out@.len() == it.index(),
            forall|i: int|
                0 <= i < out@.len() ==> (#[trigger] out@[i]).partition_id == partition_id
                    && out@[i].aggregate_id == stored@[i].aggregate_id && out@[i].revision
                    == stored@[i].revision && out@[i].modified_unix_millis
                    == stored@[i].modified_wall,
    {
        out.push(
            InternalStateInfo {
                partition_id: partition_id as u32,
                aggregate_id: s.aggregate_id,
                revision: s.revision,
                modified_unix_millis: s.modified_wall,
            },
        );
    }
    Ok(out)
}

/// State `i` stands before state `j`: its aggregate's name comes first, or the names are
/// the same and it was given first.
pub open spec fn state_before(items: Seq<InternalStateInfo>, i: int, j: int) -> bool {
    text_before(items[i].aggregate_id@, items[j].aggregate_id@) || (items[i].aggregate_id@
        == items[j].aggregate_id@ && i < j)
}

/// The places stand in order.
pub open spec fn in_order(items: Seq<InternalStateInfo>, order: Seq<usize>) -> bool {
    forall|a: int, b: int|
        0 <= a < b < order.len() ==> state_before(
            items,
            #[trigger] order[a] as int,
            #[trigger] order[b] as int,
        )
}

/// The list names each of the states once, in order.
pub open spec fn is_order(items: Seq<InternalStateInfo>, order: Seq<usize>) -> bool {
    &&& in_order(items, order)
    &&& order.len() == items.len()
    &&& forall|x: usize| #[trigger] order.contains(x) <==> x < items.len()
}

/// The order of states is total, and no state stands before itself.
pub proof fn lemma_state_order(items: Seq<InternalStateInfo>, i: int, j: int, k: int)
    ensures
        i == j || state_before(items, i, j) || state_before(items, j, i),
        !(state_before(items, i, j) && state_before(items, j, i)),
        state_before(items, i, j) && state_before(items, j, k) ==> state_before(items, i, k),
        !state_before(items, i, i),
{
    let a = items[i].aggregate_id@;
    let b = items[j].aggregate_id@;
    let c = items[k].aggregate_id@;
    lemma_text_order_total(a, b);
    lemma_text_order_total(b, c);
    lemma_text_order_total(a, a);
    if text_before(a, b) && text_before(b, c) {
        lemma_text_order_transitive(a, b, c);
    }
    if text_before(b, c) && text_before(c, a) {
        lemma_text_order_transitive(b, c, a);
    }
}

fn comes_first(items: &Vec<InternalStateInfo>, i: usize, j: usize) -> (r: bool)
    requires
        i < items@.len(),
        j < items@.len(),
    ensures
        r == state_before(items@, i as int, j as int),
{
    let a = items[i].aggregate_id.as_str();
    let b = items[j].aggregate_id.as_str();
    text_less(a, b) || (same_text(a, b) && i < j)
}

/// Merges two ordered lists of places.
fn merge_orders(items: &Vec<InternalStateInfo>, a: &Vec<usize>, b: &Vec<usize>) -> (out: Vec<usize>)
    requires
        in_order(items@, a@),
        in_order(items@, b@),
        forall|x: usize| #[trigger] a@.contains(x) ==> x < items@.len() && !b@.contains(x),
        forall|x: usize| #[trigger] b@.contains(x) ==> x < items@.len(),
    ensures
        in_order(items@, out@),
        out@.len() == a@.len() + b@.len(),
        forall|x: usize| #[trigger] out@.contains(x) <==> (a@.contains(x) || b@.contains(x)),
{
    let mut out: Vec<usize> = Vec::new();
    let mut i: usize = 0;
    let mut j: usize = 0;
    while i < a.len() || j < b.len()
        invariant
            i <= a@.len(),
            j <= b@.len(),
            in_order(items@, a@),
            in_order(items@, b@),
            forall|x: usize| #[trigger] a@.contains(x) ==> x < items@.len() && !b@.contains(x),
            forall|x: usize| #[trigger] b@.contains(x) ==> x < items@.len(),
            out@.len() == i + j,
            in_order(items@, out@),
            forall|k: int, m: int|
                0 <= k < out@.len() && i <= m < a@.len() ==> state_before(
                    items@,
                    #[trigger] out@[k] as int,
                    #[trigger] a@[m] as int,
                ),
            forall|k: int, m: int|
                0 <= k < out@.len() && j <= m < b@.len() ==> state_before(
                    items@,
                    #[trigger] out@[k] as int,
                    #[trigger] b@[m] as int,
                ),
            forall|k: int|
                0 <= k < out@.len() ==> a@.contains(#[trigger] out@[k]) || b@.contains(out@[k]),
            forall|m: int| 0 <= m < i ==> out@.contains(#[trigger] a@[m]),
            forall|m: int| 0 <= m < j ==> out@.contains(#[trigger] b@[m]),
        decreases a@.len() - i + b@.len() - j,
    {
        let ghost was = out@;
        proof {
            if i < a@.len() {
                assert(a@.contains(a@[i as int]));
            }
            if j < b@.len() {
                assert(b@.contains(b@[j as int]));
            }
        }
        let take_a = if j >= b.len() {
            true
        } else if i >= a.len() {
            false
        } else {
            comes_first(items, a[i], b[j])
        };
        let x: usize = if take_a {
            a[i]
        } else {
            b[j]
        };
        out.push(x);
        let ghost (i0, j0) = (i as int, j as int);
        if take_a {
            i += 1;
        } else {
            j += 1;
        }
        proof {
            assert(out@[was.len() as int] == x);
            assert forall|y: usize| was.contains(y) implies #[trigger] out@.contains(y) by {
                let k = choose|k: int| 0 <= k < was.len() && was[k] == y;
                assert(out@[k] == y);
            }
            assert forall|k: int, m: int|
                0 <= k < out@.len() && i <= m < a@.len() implies state_before(
                items@,
                #[trigger] out@[k] as int,
                #[trigger] a@[m] as int,
            ) by {
                if k < was.len() {
                    assert(out@[k] == was[k]);
                } else if take_a {
                    assert(state_before(items@, a@[i0] as int, a@[m] as int));
                } else {
                    // The place taken from `b` comes before what is left of `a`.
                    assert(a@[i0] != x);
                    lemma_state_order(items@, a@[i0] as int, x as int, a@[m] as int);
                    lemma_state_order(items@, x as int, a@[i0] as int, a@[m] as int);
                    if m > i0 {
                        assert(state_before(items@, a@[i0] as int, a@[m] as int));
                    }
                }
            }
            assert forall|k: int, m: int|
                0 <= k < out@.len() && j <= m < b@.len() implies state_before(
                items@,
                #[trigger] out@[k] as int,
                #[trigger] b@[m] as int,
            ) by {
                if k < was.len() {
                    assert(out@[k] == was[k]);
                } else if take_a {
                    lemma_state_order(items@, x as int, b@[j0] as int, b@[m] as int);
                    if m > j0 {
                        assert(state_before(items@, b@[j0] as int, b@[m] as int));
                    }
                } else {
                    assert(state_before(items@, b@[j0] as int, b@[m] as int));
                }
            }
            assert forall|p: int, q: int| 0 <= p < q < out@.len() implies state_before(
                items@,
                #[trigger] out@[p] as int,
                #[trigger] out@[q] as int,
            ) by {
                if q < was.len() {
                    assert(out@[p] == was[p] && out@[q] == was[q]);
                } else {
                    assert(out@[p] == was[p]);
                    if take_a {
                        assert(state_before(items@, was[p] as int, a@[i0] as int));
                    } else {
                        assert(state_before(items@, was[p] as int, b@[j0] as int));
                    }
                }
            }
            assert forall|m: int| 0 <= m < i implies out@.contains(#[trigger] a@[m]) by {
                if m < i0 {
                    assert(was.contains(a@[m]));
                }
            }
            assert forall|m: int| 0 <= m < j implies out@.contains(#[trigger] b@[m]) by {
                if m < j0 {
                    assert(was.contains(b@[m]));
                }
            }
        }
    }
    proof {
        assert forall|x: usize| #[trigger] out@.contains(x) <==> (a@.contains(x) || b@.contains(
            x,
        )) by {
            if a@.contains(x) {
                let m = choose|m: int| 0 <= m < a@.len() && a@[m] == x;
                assert(out@.contains(a@[m]));
            }
            if b@.contains(x) {
                let m = choose|m: int| 0 <= m < b@.len() && b@[m] == x;
                assert(out@.contains(b@[m]));
            }
            if out@.contains(x) {
                let k = choose|k: int| 0 <= k < out@.len() && out@[k] == x;
                assert(a@.contains(out@[k]) || b@.contains(out@[k]));
            }
        }
    }
    out
}

fn order_of_range(items: &Vec<InternalStateInfo>, lo: usize, hi: usize) -> (out: Vec<usize>)
    requires
        lo <= hi <= items@.len(),
    ensures
        in_order(items@, out@),
        out@.len() == hi - lo,
        forall|x: usize| #[trigger] out@.contains(x) <==> lo <= x < hi,
    decreases hi - lo,
{
    if hi - lo == 0 {
        return Vec::new();
    }
    if hi - lo == 1 {
        let mut out: Vec<usize> = Vec::new();
        out.push(lo);
        proof {
            assert(out@[0] == lo);
            assert forall|x: usize| #[trigger] out@.contains(x) <==> lo <= x < hi by {
                if x == lo {
                    assert(out@[0] == x);
                }
            }
        }
        return out;
    }
    let mid: usize = lo + (hi - lo) / 2;
    let a = order_of_range(items, lo, mid);
    let b = order_of_range(items, mid, hi);
    merge_orders(items, &a, &b)
}

/// The order of the states.
pub fn state_order(items: &Vec<InternalStateInfo>) -> (order: Vec<usize>)
    ensures
        is_order(items@, order@),
{
    let n: usize = items.len();
    order_of_range(items, 0, n)
}

/// A state, as it is shown to clients.
#[derive(Debug)]
pub struct AggregateStateInfo {
    pub aggregate_id: String,
    pub revision: u64,
    pub modified_unix_millis: u64,
}

/// `s` shows the state.
pub open spec fn shows_state(s: AggregateStateInfo, i: InternalStateInfo) -> bool {
    &&& s.aggregate_id@ == i.aggregate_id@
    &&& s.revision == i.revision
    &&& s.modified_unix_millis == i.modified_unix_millis
}

/// A page of states, and where the listing is after it.
#[derive(Debug)]
pub struct StatePage {
    pub states: Vec<AggregateStateInfo>,
    pub token: StatePageToken,
    pub has_more: bool,
}

/// Where a listing is after the states at these places were listed.
pub open spec fn listed_to(
    after: Seq<Seq<char>>,
    items: Seq<InternalStateInfo>,
    places: Seq<usize>,
) -> Seq<Seq<char>>
    decreases places.len(),
{
    if places.len() == 0 {
        after
    } else {
        let i = items[places.last() as int];
        listed_to(after, items, places.drop_last()).update(i.partition_id as int, i.aggregate_id@)
    }
}

/// How many states a page holds of so many.
pub open spec fn page_fill(total: nat, page_size: u32) -> nat {
    if total < page_size {
        total
    } else {
        page_size as nat
    }
}

/// The outcome is the page of the states that come first in this order.
pub open spec fn is_state_page(
    r: Result<StatePage, Status>,
    items: Seq<InternalStateInfo>,
    order: Seq<usize>,
    page_size: u32,
    token: PageFields,
) -> bool {
    let n = page_fill(items.len(), page_size) as int;
    match r {
        Ok(page) => {
            &&& forall|i: int|
                0 <= i < n ==> items[#[trigger] order[i] as int].partition_id <= u16::MAX
            &&& page.states@.len() == n
            &&& forall|i: int|
                0 <= i < n ==> shows_state(#[trigger] page.states@[i], items[order[i] as int])
            &&& page.token@ == (PageFields {
                after: listed_to(token.after, items, order.take(n)),
                ..token
            })
            &&& page.has_more == (items.len() > page_size)
        },
        Err(s) => {
            &&& exists|i: int|
                0 <= i < n && items[#[trigger] order[i] as int].partition_id > u16::MAX
            &&& s@ == says(Code::Internal, "内部 partition_id 超出范围"@)
        },
    }
}

/// The page lists states of partitions that the listing knows, up to the first number
/// that is none of a partition.
pub open spec fn lists_known(
    items: Seq<InternalStateInfo>,
    order: Seq<usize>,
    page_size: u32,
    partitions: nat,
) -> bool {
    forall|i: int|
        0 <= i < page_fill(items.len(), page_size) && (forall|j: int|
            0 <= j <= i ==> items[#[trigger] order[j] as int].partition_id <= u16::MAX)
            ==> items[#[trigger] order[i] as int].partition_id < partitions
}

/// Makes a page of the states that the shards gave, in the order of the aggregates'
/// names.
pub fn state_page(items: &Vec<InternalStateInfo>, page_size: u32, token: StatePageToken) -> (r:
    Result<StatePage, Status>)
    requires
        forall|order: Seq<usize>| #[trigger]
            is_order(items@, order) ==> lists_known(
                items@,
                order,
                page_size,
                token.after_aggregate_ids@.len(),
            ),
    ensures
        exists|order: Seq<usize>| #[trigger]
            is_order(items@, order) && is_state_page(r, items@, order, page_size, token@),
{
    let order = state_order(items);
    let ghost asked = token@;
    let n: usize = if items.len() < page_size as usize {
        items.len()
    } else {
        page_size as usize
    };
    let mut token = token;
    let mut states: Vec<AggregateStateInfo> = Vec::new();
    let mut k: usize = 0;
    proof {
        assert(order@.take(0) =~= Seq::<usize>::empty());
    }
    while k < n
        invariant
            k <= n <= items@.len(),
            n == page_fill(items@.len(), page_size),
            is_order(items@, order@),
            asked.after.len() == token.after_aggregate_ids@.len(),
            lists_known(items@, order@, page_size, asked.after.len()),
            token@ == (PageFields {
                after: listed_to(asked.after, items@, order@.take(k as int)),
                ..asked
            }),
            states@.len() == k,
            forall|i: int|
                0 <= i < k ==> items@[#[trigger] order@[i] as int].partition_id <= u16::MAX,
            forall|i: int|
                0 <= i < k ==> shows_state(#[trigger] states@[i], items@[order@[i] as int]),
        decreases n - k,
    {
        let at: usize = order[k];
        proof {
            assert(order@.contains(order@[k as int]));
            assert(order@.take(k + 1).drop_last() =~= order@.take(k as int));
            assert(order@.take(k + 1).last() == at);
        }
        let item = &items[at];
        if item.partition_id > 65535 {
            let bad = Err(Status::of(Code::Internal, "内部 partition_id 超出范围"));
            assert(items@[order@[k as int] as int].partition_id > u16::MAX);
            assert(is_state_page(bad, items@, order@, page_size, asked));
            return bad;
        }
        let p: usize = item.partition_id as usize;
        proof {
            assert forall|j: int| 0 <= j <= k implies items@[
                #[trigger] order@[j] as int
            ].partition_id <= u16::MAX by {}
            assert(items@[order@[k as int] as int].partition_id < asked.after.len());
        }
        let ghost was = token.after_aggregate_ids@;
        let name = item.aggregate_id.clone();
        token.after_aggregate_ids.set(p, name);
        proof {
            assert(text_views(token.after_aggregate_ids@) =~= text_views(was).update(
                p as int,
                item.aggregate_id@,
            ));
        }
        states.push(
            AggregateStateInfo {
                aggregate_id: item.aggregate_id.clone(),
                revision: item.revision,
                modified_unix_millis: item.modified_unix_millis,
            },
        );
        k += 1;
    }
    let page = Ok(StatePage { states, token, has_more: items.len() > page_size as usize });
    assert(is_state_page(page, items@, order@, page_size, asked));
    page
}

/// The reply to a listing: the states, and where it is if there is more.
#[derive(Debug)]
pub struct ListStatesResponse {
    pub states: Vec<AggregateStateInfo>,
    pub next_page_token: Vec<u8>,
}

/// Writes down where a listing is, unless it is at its end.
pub fn state_page_reply(page: StatePage) -> (r: Result<ListStatesResponse, Status>)
    ensures
        r matches Ok(reply) && reply.states == page.states && reply.next_page_token@ == (
        if page.has_more {
            written_page(page.token@)
        } else {
            Seq::empty()
        }) && (page.has_more <==> reply.next_page_token@.len() > 0),
{
    let next_page_token = if page.has_more {
        match encode_state_page_token(&page.token) {
            Ok(bytes) => bytes,
            Err(s) => return Err(s),
        }
    } else {
        Vec::new()
    };
    Ok(ListStatesResponse { states: page.states, next_page_token })
}

/// Where a listing is in a partition after the first `n` states were listed: at the last of
/// them that is of the partition, if there is one, else where it was.
pub proof fn lemma_listed_to(
    after: Seq<Seq<char>>,
    items: Seq<InternalStateInfo>,
    order: Seq<usize>,
    n: int,
    p: int,
)
    requires
        is_order(items, order),
        0 <= n <= order.len(),
        0 <= p < after.len(),
        forall|i: int|
            0 <= i < n ==> items[#[trigger] order[i] as int].partition_id < after.len(),
    ensures
        listed_to(after, items, order.take(n)).len() == after.len(),
        (forall|i: int|
            0 <= i < n ==> items[#[trigger] order[i] as int].partition_id != p) ==> listed_to(
            after,
            items,
            order.take(n),
        )[p] == after[p],
        (exists|i: int| 0 <= i < n && items[#[trigger] order[i] as int].partition_id == p) ==> (
        exists|i: int|
            0 <= i < n && items[#[trigger] order[i] as int].partition_id == p
                && items[order[i] as int].aggregate_id@ == listed_to(
                after,
                items,
                order.take(n),
            )[p] && forall|k: int|
                i < k < n ==> items[#[trigger] order[k] as int].partition_id != p),
    decreases n,
{
    if n == 0 {
        assert(order.take(0) =~= Seq::<usize>::empty());
    } else {
        lemma_listed_to(after, items, order, n - 1, p);
        assert(order.take(n).drop_last() =~= order.take(n - 1));
        assert(order.take(n).last() == order[n - 1]);
        let last = items[order[n - 1] as int];
        if last.partition_id == p {
            assert(items[order[n - 1] as int].partition_id == p);
        } else if exists|i: int| 0 <= i < n && items[#[trigger] order[i] as int].partition_id
            == p {
            let i = choose|i: int| 0 <= i < n && items[#[trigger] order[i] as int].partition_id == p;
            assert(i < n - 1);
            let m = choose|i: int|
                0 <= i < n - 1 && items[#[trigger] order[i] as int].partition_id == p
                    && items[order[i] as int].aggregate_id@ == listed_to(
                    after,
                    items,
                    order.take(n - 1),
                )[p] && forall|k: int|
                    i < k < n - 1 ==> items[#[trigger] order[k] as int].partition_id != p;
            assert forall|k: int| m < k < n implies items[#[trigger] order[k] as int].partition_id
                != p by {}
        }
    }
}

/// After a page, a listing has moved in each partition past what the page lists of it,
/// and not past anything that the page does not list.  (Aggregates have different
/// names.)
pub proof fn law_state_pages_lose_and_repeat_nothing(
    after: Seq<Seq<char>>,
    items: Seq<InternalStateInfo>,
    order: Seq<usize>,
    n: int,
    j: int,
)
    requires
        is_order(items, order),
        0 <= n <= order.len(),
        0 <= j < order.len(),
        forall|i: int| 0 <= i < items.len() ==> (#[trigger] items[i]).partition_id < after.len(),
        forall|a: int, b: int|
            0 <= a < b < items.len() ==> (#[trigger] items[a]).aggregate_id@ != (
            #[trigger] items[b]).aggregate_id@,
    ensures
        ({
            let item = items[order[j] as int];
            let now = listed_to(after, items, order.take(n))[item.partition_id as int];
            if j < n {
                now == item.aggregate_id@ || text_before(item.aggregate_id@, now)
            } else {
                now == after[item.partition_id as int] || text_before(now, item.aggregate_id@)
            }
        }),
{
    assert forall|i: int| 0 <= i < order.len() implies (#[trigger] order[i]) < items.len() by {
        assert(order.contains(order[i]));
    }
    let item = items[order[j] as int];
    let p = item.partition_id as int;
    lemma_listed_to(after, items, order, n, p);
    let now = listed_to(after, items, order.take(n))[p];
    if exists|i: int| 0 <= i < n && items[#[trigger] order[i] as int].partition_id == p {
        let m = choose|i: int|
            0 <= i < n && items[#[trigger] order[i] as int].partition_id == p
                && items[order[i] as int].aggregate_id@ == now && forall|k: int|
                i < k < n ==> items[#[trigger] order[k] as int].partition_id != p;
        if j < n {
            assert(items[order[j] as int].partition_id == p);
            assert(j <= m);
            if j < m {
                assert(state_before(items, order[j] as int, order[m] as int));
                assert(order[j] != order[m]) by {
                    lemma_state_order(items, order[j] as int, order[m] as int, 0);
                }
            }
        } else {
            assert(state_before(items, order[m] as int, order[j] as int));
            assert(order[j] != order[m]) by {
                lemma_state_order(items, order[m] as int, order[j] as int, 0);
            }
        }
    } else if j < n {
        assert(items[order[j] as int].partition_id == p);
    }
}


/// The place that a shard is asked to go on from in a partition is the one that the page
/// token holds for that partition, and only the shard that the partition is placed on is
/// asked for it.
pub proof fn law_listing_goes_on_from_the_token(
    d: AggregateTypeDefinition,
    token: StatePageToken,
    out: Vec<(u64, Vec<StateCursor>)>,
    i: int,
    m: int,
)
    requires
        d.wf(),
        call_ensures(state_sources, (&d, &token), out),
        0 <= i < out@.len(),
        0 <= m < out@[i].1@.len(),
    ensures
        ({
            let c = out@[i].1@[m];
            &&& d.placements@.dom().contains(c.partition_id as u64)
            &&& d.placements@[c.partition_id as u64].shard_id == out@[i].0
            &&& c.partition_id < token.after_aggregate_ids@.len() ==> c.after_aggregate_id@
                == token.after_aggregate_ids@[c.partition_id as int]@
        }),
{
    let entries = d.placements.entries@;
    let on = partitions_on(entries, out@[i].0);
    let views = state_cursor_views(out@[i].1@);
    let c = out@[i].1@[m];
    assert(views[m] == (c.partition_id, c.after_aggregate_id@));
    assert(views == state_cursors_for(on, token@.after));
    assert(views.len() == on.len());
    assert(views[m] == (on[m] as u32, token@.after[on[m] as int]));
    lemma_partitions_on(entries, out@[i].0, m);
    let k = choose|k: int|
        0 <= k < entries.len() && (#[trigger] entries[k]).1.shard_id == out@[i].0
            && entries[k].0 as u16 == on[m];
    d.placements.lemma_entry(k);
    assert(d.placements@.dom().contains(entries[k].0));
    assert(entries[k].0 == c.partition_id);
}

/// Every partition of the type is asked, of its shard and of no other.
pub proof fn law_listing_asks_every_partition_of_its_shard(
    d: AggregateTypeDefinition,
    token: StatePageToken,
    out: Vec<(u64, Vec<StateCursor>)>,
    partition: u16,
)
    requires
        d.wf(),
        call_ensures(state_sources, (&d, &token), out),
        d.placements@.dom().contains(partition as u64),
    ensures
        forall|i: int, j: int| 0 <= i < j < out@.len() ==> out@[i].0 < out@[j].0,
        exists|i: int|
            0 <= i < out@.len() && (#[trigger] out@[i]).0
                == d.placements@[partition as u64].shard_id && exists|m: int|
                0 <= m < out@[i].1@.len() && (#[trigger] out@[i].1@[m]).partition_id == partition,
{
    let entries = d.placements.entries@;
    let ids = out@.map_values(|g: (u64, Vec<StateCursor>)| g.0);
    assert forall|i: int, j: int| 0 <= i < j < out@.len() implies out@[i].0 < out@[j].0 by {
        assert(ids[i] < ids[j]);
    }
    let shard = d.placements@[partition as u64].shard_id;
    let k = d.placements.index(partition as u64);
    assert(0 <= k < entries.len() && d.placements.key(k) == partition as u64);
    assert(entries[k].0 == partition as u64 && entries[k].1.shard_id == shard);
    lemma_groups_name_shards(entries, ids, shard);
    let i = choose|i: int| 0 <= i < ids.len() && ids[i] == shard;
    assert(out@[i].0 == shard);
    lemma_is_on(entries, shard, partition);
    let on = partitions_on(entries, shard);
    let m = choose|m: int| 0 <= m < on.len() && on[m] == partition;
    let views = state_cursor_views(out@[i].1@);
    assert(views.len() == on.len());
    assert(views[m].0 == partition);
    assert(out@[i].1@[m].partition_id == partition);
}

/// A shard reads a partition from the place in its cursor on: from the beginning where
/// the place is empty, else from behind the aggregate named there.
pub proof fn law_states_are_read_from_the_cursor(cursor: StateCursor, r: Result<StateRead, Status>)
    requires
        call_ensures(state_read, (cursor,), r),
    ensures
        r is Ok <==> cursor.partition_id <= 65535,
        r matches Ok(read) ==> {
            &&& read.partition_id == cursor.partition_id
            &&& read.after is None <==> cursor.after_aggregate_id@.len() == 0
            &&& read.after matches Some(name) ==> name@ == cursor.after_aggregate_id@
        },
        r matches Err(s) ==> s@.code == Code::InvalidArgument,
{
}

/// A page holds a hundred states where the request does not say how many, and no more
/// than a thousand; each partition is asked for one more than the page holds.
pub proof fn law_page_sizes_are_bounded(asked: u32, n: u32, limit: u32)
    requires
        call_ensures(state_page_size, (asked,), n),
        call_ensures(state_read_limit, (n,), limit),
    ensures
        asked == 0 ==> n == 100,
        1 <= asked <= 1000 ==> n == asked,
        asked > 1000 ==> n == 1000,
        limit == n + 1,
{
}

/// The shown state is that of this item.
pub open spec fn is_state_of(s: AggregateStateInfo, i: InternalStateInfo) -> bool {
    s.aggregate_id@ == i.aggregate_id@ && s.revision == i.revision && s.modified_unix_millis
        == i.modified_unix_millis
}

/// A page lists the states with the first names, in the order of their names, as many as
/// there are but no more than the page holds, and says whether there are more.
pub proof fn law_page_lists_the_first_names(
    items: Vec<InternalStateInfo>,
    page_size: u32,
    token: StatePageToken,
    page: StatePage,
    k: int,
)
    requires
        call_ensures(
            state_page,
            (&items, page_size, token),
            Ok::<StatePage, Status>(page),
        ),
        0 <= k < items@.len(),
    ensures
        page.states@.len() <= page_size,
        page.states@.len() <= items@.len(),
        page.states@.len() == page_size || page.states@.len() == items@.len(),
        page.has_more <==> items@.len() > page_size,
        forall|a: int, b: int|
            0 <= a < b < page.states@.len() ==> page.states@[a].aggregate_id@
                == page.states@[b].aggregate_id@ || text_before(
                (#[trigger] page.states@[a]).aggregate_id@,
                (#[trigger] page.states@[b]).aggregate_id@,
            ),
        (exists|a: int|
            0 <= a < page.states@.len() && is_state_of(#[trigger] page.states@[a], items@[k])) || (
        forall|a: int|
            0 <= a < page.states@.len() ==> page.states@[a].aggregate_id@
                == items@[k].aggregate_id@ || text_before(
                (#[trigger] page.states@[a]).aggregate_id@,
                items@[k].aggregate_id@,
            )),
        forall|a: int|
            0 <= a < page.states@.len() ==> is_of_items(#[trigger] page.states@[a], items@),
{
    let r = Ok::<StatePage, Status>(page);
    let order = choose|order: Seq<usize>| #[trigger]
        is_order(items@, order) && is_state_page(r, items@, order, page_size, token@);
    let n = page.states@.len() as int;
    assert(items.len() == items@.len());
    assert forall|a: int| 0 <= a < order.len() implies (#[trigger] order[a]) < items@.len() by {
        assert(order.contains(order[a]));
    }
    assert forall|a: int, b: int| 0 <= a < b < n implies page.states@[a].aggregate_id@
        == page.states@[b].aggregate_id@ || text_before(
        (#[trigger] page.states@[a]).aggregate_id@,
        (#[trigger] page.states@[b]).aggregate_id@,
    ) by {
        assert(state_before(items@, order[a] as int, order[b] as int));
    }
    assert(order.contains(k as usize));
    let j = choose|j: int| 0 <= j < order.len() && order[j] == k as usize;
    if j < n {
        assert(shows_state(page.states@[j], items@[order[j] as int]));
        assert(is_state_of(page.states@[j], items@[k]));
    } else {
        assert forall|a: int| 0 <= a < n implies page.states@[a].aggregate_id@
            == items@[k].aggregate_id@ || text_before(
            (#[trigger] page.states@[a]).aggregate_id@,
            items@[k].aggregate_id@,
        ) by {
            assert(state_before(items@, order[a] as int, order[j] as int));
        }
    }
    assert forall|a: int| 0 <= a < n implies is_of_items(#[trigger] page.states@[a], items@) by {
        assert(shows_state(page.states@[a], items@[order[a] as int]));
        assert(is_state_of(page.states@[a], items@[order[a] as int]));
    }
}

/// The shown state is that of one of the items.
pub open spec fn is_of_items(s: AggregateStateInfo, items: Seq<InternalStateInfo>) -> bool {
    exists|k: int| 0 <= k < items.len() && is_state_of(s, #[trigger] items[k])
}

/// After a page the token holds, for each partition, the last name that the page lists of
/// it; for a partition of which it lists none, the place where it was.
pub proof fn law_token_moves_to_the_last_name_listed(
    items: Vec<InternalStateInfo>,
    page_size: u32,
    token: StatePageToken,
    page: StatePage,
    p: int,
)
    requires
        call_ensures(
            state_page,
            (&items, page_size, token),
            Ok::<StatePage, Status>(page),
        ),
        forall|k: int|
            0 <= k < items@.len() ==> (#[trigger] items@[k]).partition_id
                < token.after_aggregate_ids@.len(),
        0 <= p < token.after_aggregate_ids@.len(),
    ensures
        page.token.version == token.version,
        page.token.aggregate_type@ == token.aggregate_type@,
        page.token.after_aggregate_ids@.len() == token.after_aggregate_ids@.len(),
        ({
            let now = page.token.after_aggregate_ids@[p]@;
            ||| now == token.after_aggregate_ids@[p]@
            ||| exists|k: int|
                0 <= k < items@.len() && (#[trigger] items@[k]).partition_id == p
                    && items@[k].aggregate_id@ == now
        }),
        forall|k: int|
            0 <= k < items@.len() && page.states@.len() == items@.len() && (
            #[trigger] items@[k]).partition_id == p ==> items@[k].aggregate_id@
                == page.token.after_aggregate_ids@[p]@ || text_before(
                items@[k].aggregate_id@,
                page.token.after_aggregate_ids@[p]@,
            ),
{
    let r = Ok::<StatePage, Status>(page);
    let order = choose|order: Seq<usize>| #[trigger]
        is_order(items@, order) && is_state_page(r, items@, order, page_size, token@);
    let n = page.states@.len() as int;
    assert(items.len() == items@.len());
    assert forall|a: int| 0 <= a < order.len() implies (#[trigger] order[a]) < items@.len() by {
        assert(order.contains(order[a]));
    }
    let after = token@.after;
    lemma_listed_to(after, items@, order, n, p);
    let now = listed_to(after, items@, order.take(n));
    assert(page.token@.after == now);
    assert(page.token@.after.len() == page.token.after_aggregate_ids@.len());
    assert(page.token@.after[p] == page.token.after_aggregate_ids@[p]@);
    assert(after[p] == token.after_aggregate_ids@[p]@);
    if exists|i: int| 0 <= i < n && items@[#[trigger] order[i] as int].partition_id == p {
        let m = choose|i: int|
            0 <= i < n && items@[#[trigger] order[i] as int].partition_id == p
                && items@[order[i] as int].aggregate_id@ == now[p] && forall|k: int|
                i < k < n ==> items@[#[trigger] order[k] as int].partition_id != p;
        assert(items@[order[m] as int].partition_id == p);
        assert forall|k: int|
            0 <= k < items@.len() && n == items@.len() && (#[trigger] items@[k]).partition_id
                == p implies items@[k].aggregate_id@ == now[p] || text_before(
            items@[k].aggregate_id@,
            now[p],
        ) by {
            assert(order.contains(k as usize));
            let j = choose|j: int| 0 <= j < order.len() && order[j] == k as usize;
            assert(items@[order[j] as int].partition_id == p);
            if j < m {
                assert(state_before(items@, order[j] as int, order[m] as int));
            }
        }
    } else {
        assert forall|k: int|
            0 <= k < items@.len() && n == items@.len() && (#[trigger] items@[k]).partition_id
                == p implies false by {
            assert(order.contains(k as usize));
            let j = choose|j: int| 0 <= j < order.len() && order[j] == k as usize;
            assert(items@[order[j] as int].partition_id == p);
        }
    }
}


/// The states are ordered by name, and each of them is in the order once.
pub proof fn law_states_are_ordered_by_name(
    items: Vec<InternalStateInfo>,
    order: Vec<usize>,
    a: int,
    b: int,
    x: usize,
)
    requires
        call_ensures(state_order, (&items,), order),
        0 <= a < b < order@.len(),
    ensures
        order@.len() == items@.len(),
        order@.contains(x) <==> x < items@.len(),
        order@[a] != order@[b],
        items@[order@[a] as int].aggregate_id@ == items@[order@[b] as int].aggregate_id@
            || text_before(
            items@[order@[a] as int].aggregate_id@,
            items@[order@[b] as int].aggregate_id@,
        ),
{
    assert(state_before(items@, order@[a] as int, order@[b] as int));
    if order@[a] == order@[b] {
        let name = items@[order@[a] as int].aggregate_id@;
        law_first_difference_decides(name, name, name);
    }
}

/// A partition shows its states as it stores them, in its order, under its number.
pub proof fn law_partition_shows_its_states(
    partition_id: u16,
    stored: Vec<StoredState>,
    out: Vec<InternalStateInfo>,
    i: int,
)
    requires
        call_ensures(
            partition_states,
            (partition_id, Ok::<Vec<StoredState>, String>(stored)),
            Ok::<Vec<InternalStateInfo>, Status>(out),
        ),
        0 <= i < stored@.len(),
    ensures
        out@.len() == stored@.len(),
        out@[i].partition_id == partition_id,
        out@[i].aggregate_id == stored@[i].aggregate_id,
        out@[i].revision == stored@[i].revision,
        out@[i].modified_unix_millis == stored@[i].modified_wall,
{
}

/// The reply gives the page's states, and a token exactly while there are more.
pub proof fn law_token_is_given_while_there_is_more(
    page: StatePage,
    r: Result<ListStatesResponse, Status>,
)
    requires
        call_ensures(state_page_reply, (page,), r),
    ensures
        r matches Ok(reply) && reply.states == page.states && (reply.next_page_token@.len() > 0
            <==> page.has_more),
{
}

} // verus!
