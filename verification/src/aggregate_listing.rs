//! What a listing of states comes to, page after page.

use vstd::prelude::*;

use crate::aggregate_states::{
    InternalStateInfo, is_order, lemma_listed_to, lemma_state_order, listed_to, page_fill,
    state_before,
};
use crate::text::{lemma_text_order_total, lemma_text_order_transitive, text_before};

verus! {

/// A state as a store holds it.
pub struct StateRow {
    pub name: Seq<char>,
    pub revision: u64,
    pub modified: u64,
}

/// The state that a shard gave.
pub open spec fn row_of(i: InternalStateInfo) -> StateRow {
    StateRow {
        name: i.aggregate_id@,
        revision: i.revision,
        modified: i.modified_unix_millis,
    }
}

/// The states of a type, partition by partition: those of a partition in the order of
/// the aggregates' names, and no aggregate in two partitions.
pub open spec fn is_store(store: Seq<Seq<StateRow>>) -> bool {
    &&& forall|p: int, k: int|
        0 <= p < store.len() && 0 <= k < store[p].len() ==> (#[trigger] store[p][k]).name.len() > 0
    &&& forall|p: int, k: int, l: int|
        0 <= p < store.len() && 0 <= k < l < store[p].len() ==> text_before(
            (#[trigger] store[p][k]).name,
            (#[trigger] store[p][l]).name,
        )
    &&& forall|p: int, k: int, q: int, l: int|
        0 <= p < store.len() && 0 <= k < store[p].len() && 0 <= q < store.len() && 0 <= l
            < store[q].len() && (#[trigger] store[p][k]).name == (#[trigger] store[q][l]).name
            ==> p == q
}

/// The name lies behind the place at which a listing is; an empty place is the beginning.
pub open spec fn lies_behind(after: Seq<char>, name: Seq<char>) -> bool {
    after.len() == 0 || text_before(after, name)
}

/// How many states of a partition a listing at this place has passed.
pub open spec fn passed(rows: Seq<StateRow>, after: Seq<char>) -> nat
    decreases rows.len(),
{
    if rows.len() == 0 {
        0
    } else {
        passed(rows.drop_last(), after) + if lies_behind(after, rows.last().name) {
            0nat
        } else {
            1nat
        }
    }
}

/// What a partition gives to a listing at this place: the states behind it, up to the
/// limit.
pub open spec fn given(rows: Seq<StateRow>, after: Seq<char>, limit: int) -> Seq<StateRow> {
    let rest = rows.skip(passed(rows, after) as int);
    if rest.len() < limit {
        rest
    } else {
        rest.take(limit)
    }
}

/// One page of a listing: where it begins in each partition, what the shards gave, and
/// the order of that.
pub struct ListedPage {
    pub after: Seq<Seq<char>>,
    pub items: Seq<InternalStateInfo>,
    pub order: Seq<usize>,
}

/// The page is read from the store: the shards give what each partition gives, each state
/// once and in any order; one state more than the page holds is asked for.  (The states
/// can be counted by a machine word.)
pub open spec fn reads_states(
    store: Seq<Seq<StateRow>>,
    page: ListedPage,
    page_size: u32,
) -> bool {
    let limit = page_size + 1;
    &&& page.after.len() == store.len()
    &&& page.items.len() <= usize::MAX
    &&& forall|i: int|
        0 <= i < page.items.len() ==> (#[trigger] page.items[i]).partition_id < store.len()
            && given(
            store[page.items[i].partition_id as int],
            page.after[page.items[i].partition_id as int],
            limit,
        ).contains(row_of(page.items[i]))
    &&& forall|p: int, k: int|
        0 <= p < store.len() && 0 <= k < given(store[p], page.after[p], limit).len() ==> exists|
            i: int,
        |
            0 <= i < page.items.len() && (#[trigger] page.items[i]).partition_id == p && row_of(
                page.items[i],
            ) == #[trigger] given(store[p], page.after[p], limit)[k]
    &&& forall|a: int, b: int|
        0 <= a < b < page.items.len() ==> (#[trigger] page.items[a]).aggregate_id@ != (
        #[trigger] page.items[b]).aggregate_id@
    &&& is_order(page.items, page.order)
}

/// How many states the page lists.
pub open spec fn listed_len(page: ListedPage, page_size: u32) -> int {
    page_fill(page.items.len(), page_size) as int
}

/// Where the listing is after the page.
pub open spec fn place_after(page: ListedPage, page_size: u32) -> Seq<Seq<char>> {
    listed_to(page.after, page.items, page.order.take(listed_len(page, page_size)))
}

/// The states that the page lists, in its order.
pub open spec fn page_rows(page: ListedPage, page_size: u32) -> Seq<StateRow> {
    Seq::new(
        listed_len(page, page_size) as nat,
        |i: int| row_of(page.items[page.order[i] as int]),
    )
}

/// The pages are read one after the other, from the beginning on.
pub open spec fn is_listing(
    store: Seq<Seq<StateRow>>,
    pages: Seq<ListedPage>,
    page_size: u32,
) -> bool {
    &&& pages.len() > 0
    &&& forall|p: int| 0 <= p < store.len() ==> (#[trigger] pages[0].after[p]).len() == 0
    &&& forall|t: int| 0 <= t < pages.len() ==> reads_states(store, #[trigger] pages[t], page_size)
    &&& forall|t: int|
        0 < t < pages.len() ==> (#[trigger] pages[t]).after == place_after(pages[t - 1], page_size)
}

/// The states that the pages list together.
pub open spec fn listed_rows(pages: Seq<ListedPage>, page_size: u32) -> Seq<StateRow>
    decreases pages.len(),
{
    if pages.len() == 0 {
        Seq::empty()
    } else {
        listed_rows(pages.drop_last(), page_size) + page_rows(pages.last(), page_size)
    }
}

/// A listing at these places has passed the first `c[p]` states of each partition `p`.
spec fn stands(store: Seq<Seq<StateRow>>, after: Seq<Seq<char>>, c: Seq<int>) -> bool {
    &&& after.len() == store.len()
    &&& c.len() == store.len()
    &&& forall|p: int|
        0 <= p < store.len() ==> 0 <= #[trigger] c[p] <= store[p].len() && after[p] == (if c[p]
            == 0 {
            Seq::<char>::empty()
        } else {
            store[p][c[p] - 1].name
        })
}

proof fn lemma_passed_is(rows: Seq<StateRow>, after: Seq<char>, c: int)
    requires
        0 <= c <= rows.len(),
        forall|k: int|
            0 <= k < rows.len() ==> (lies_behind(after, (#[trigger] rows[k]).name) <==> k >= c),
    ensures
        passed(rows, after) == c,
    decreases rows.len(),
{
    if rows.len() > 0 {
        let rest = rows.drop_last();
        let n = rest.len() as int;
        assert(rows[n] == rows.last());
        assert forall|k: int| 0 <= k < n implies (lies_behind(after, (#[trigger] rest[k]).name)
            <==> k >= (if c <= n { c } else { n })) by {
            assert(rest[k] == rows[k]);
        }
        lemma_passed_is(rest, after, if c <= n { c } else { n });
    }
}

/// Where partition `p` stops to give: behind the last state, or at the limit.
spec fn end_of(store: Seq<Seq<StateRow>>, c: Seq<int>, p: int, page_size: u32) -> int {
    if store[p].len() < c[p] + page_size + 1 {
        store[p].len() as int
    } else {
        c[p] + page_size + 1
    }
}

proof fn lemma_given(
    store: Seq<Seq<StateRow>>,
    after: Seq<Seq<char>>,
    c: Seq<int>,
    p: int,
    page_size: u32,
)
    requires
        is_store(store),
        stands(store, after, c),
        0 <= p < store.len(),
    ensures
        given(store[p], after[p], page_size + 1) == store[p].subrange(
            c[p],
            end_of(store, c, p, page_size),
        ),
{
    let rows = store[p];
    let n = c[p];
    assert forall|k: int| 0 <= k < rows.len() implies (lies_behind(
        after[p],
        (#[trigger] rows[k]).name,
    ) <==> k >= n) by {
        if n > 0 {
            assert(store[p][n - 1].name.len() > 0);
            lemma_text_order_total(store[p][n - 1].name, store[p][k].name);
            if k < n - 1 {
                assert(text_before(store[p][k].name, store[p][n - 1].name));
            } else if k > n - 1 {
                assert(text_before(store[p][n - 1].name, store[p][k].name));
            }
        }
    }
    lemma_passed_is(rows, after[p], n);
    assert(given(rows, after[p], page_size + 1) =~= rows.subrange(
        n,
        end_of(store, c, p, page_size),
    ));
}

/// The state number `k` of partition `p` stands at place `j` in the order of the page.
spec fn stands_at(
    store: Seq<Seq<StateRow>>,
    page: ListedPage,
    p: int,
    k: int,
    j: int,
) -> bool {
    &&& 0 <= j < page.order.len()
    &&& page.items[page.order[j] as int].partition_id == p
    &&& row_of(page.items[page.order[j] as int]) == store[p][k]
}

/// What holds of a page while a listing stands at `c`.
spec fn is_page_at(
    store: Seq<Seq<StateRow>>,
    page: ListedPage,
    page_size: u32,
    c: Seq<int>,
) -> bool {
    is_store(store) && reads_states(store, page, page_size) && stands(store, page.after, c)
}

proof fn lemma_order_in_range(page: ListedPage)
    requires
        is_order(page.items, page.order),
    ensures
        forall|j: int|
            0 <= j < page.order.len() ==> (#[trigger] page.order[j]) < page.items.len(),
        page.order.len() == page.items.len(),
{
    assert forall|j: int| 0 <= j < page.order.len() implies (#[trigger] page.order[j])
        < page.items.len() by {
        assert(page.order.contains(page.order[j]));
    }
}

proof fn lemma_has_place(
    store: Seq<Seq<StateRow>>,
    page: ListedPage,
    page_size: u32,
    c: Seq<int>,
    p: int,
    k: int,
) -> (j: int)
    requires
        is_page_at(store, page, page_size, c),
        0 <= p < store.len(),
        c[p] <= k < end_of(store, c, p, page_size),
    ensures
        stands_at(store, page, p, k, j),
{
    lemma_given(store, page.after, c, p, page_size);
    let g = given(store[p], page.after[p], page_size + 1);
    assert(0 <= c[p]);
    assert(g[k - c[p]] == store[p][k]);
    let i = choose|i: int|
        0 <= i < page.items.len() && (#[trigger] page.items[i]).partition_id == p && row_of(
            page.items[i],
        ) == g[k - c[p]];
    assert(page.order.contains(i as usize));
    let j = choose|j: int| 0 <= j < page.order.len() && page.order[j] == i as usize;
    j
}

/// Of two states in the page, the one whose name comes first stands first.
proof fn lemma_places_follow_names(
    store: Seq<Seq<StateRow>>,
    page: ListedPage,
    page_size: u32,
    c: Seq<int>,
    a: int,
    b: int,
)
    requires
        is_page_at(store, page, page_size, c),
        0 <= a < page.order.len(),
        0 <= b < page.order.len(),
    ensures
        ({
            let x = page.items[page.order[a] as int].aggregate_id@;
            let y = page.items[page.order[b] as int].aggregate_id@;
            &&& a < b <==> text_before(x, y)
            &&& a == b <==> x == y
        }),
{
    lemma_order_in_range(page);
    let (i, j) = (page.order[a] as int, page.order[b] as int);
    let (x, y) = (page.items[i].aggregate_id@, page.items[j].aggregate_id@);
    lemma_text_order_total(x, y);
    lemma_text_order_total(y, x);
    if a < b {
        assert(state_before(page.items, i, j));
        lemma_state_order(page.items, i, j, 0);
    } else if b < a {
        assert(state_before(page.items, j, i));
        lemma_state_order(page.items, j, i, 0);
    }
}

/// A state of a partition stands no earlier than there are states of the partition before
/// it in the page.
proof fn lemma_place_is_late(
    store: Seq<Seq<StateRow>>,
    page: ListedPage,
    page_size: u32,
    c: Seq<int>,
    p: int,
    k: int,
    j: int,
)
    requires
        is_page_at(store, page, page_size, c),
        0 <= p < store.len(),
        c[p] <= k < end_of(store, c, p, page_size),
        stands_at(store, page, p, k, j),
    ensures
        j >= k - c[p],
    decreases k,
{
    assert(0 <= c[p]);
    if k > c[p] {
        let m = lemma_has_place(store, page, page_size, c, p, k - 1);
        assert(text_before(store[p][k - 1].name, store[p][k].name));
        lemma_places_follow_names(store, page, page_size, c, m, j);
        lemma_place_is_late(store, page, page_size, c, p, k - 1, m);
    }
}

/// The place of a state in the order of the page.
spec fn place_of(store: Seq<Seq<StateRow>>, page: ListedPage, p: int, k: int) -> int {
    choose|j: int| stands_at(store, page, p, k, j)
}

/// The first state of partition `p`, from `k` on and before `end`, that does not stand
/// among the first `n` of the page.
spec fn first_unlisted(
    store: Seq<Seq<StateRow>>,
    page: ListedPage,
    p: int,
    k: int,
    end: int,
    n: int,
) -> int
    decreases end - k,
{
    if k >= end {
        end
    } else if place_of(store, page, p, k) < n {
        first_unlisted(store, page, p, k + 1, end, n)
    } else {
        k
    }
}

/// The states of a partition that the page lists are the first that it gave.
proof fn lemma_first_unlisted(
    store: Seq<Seq<StateRow>>,
    page: ListedPage,
    page_size: u32,
    c: Seq<int>,
    p: int,
    k: int,
    n: int,
)
    requires
        is_page_at(store, page, page_size, c),
        0 <= p < store.len(),
        c[p] <= k <= end_of(store, c, p, page_size),
    ensures
        ({
            let end = end_of(store, c, p, page_size);
            let d = first_unlisted(store, page, p, k, end, n);
            &&& k <= d <= end
            &&& forall|l: int, j: int|
                k <= l < end && #[trigger] stands_at(store, page, p, l, j) ==> (j < n <==> l < d)
        }),
    decreases end_of(store, c, p, page_size) - k,
{
    let end = end_of(store, c, p, page_size);
    let d = first_unlisted(store, page, p, k, end, n);
    assert(0 <= c[p]);
    if k < end {
        let here = lemma_has_place(store, page, page_size, c, p, k);
        let at = place_of(store, page, p, k);
        assert(stands_at(store, page, p, k, at));
        if at < n {
            lemma_first_unlisted(store, page, page_size, c, p, k + 1, n);
        }
        assert forall|l: int, j: int|
            k <= l < end && #[trigger] stands_at(store, page, p, l, j) implies (j < n <==> l
            < d) by {
            lemma_places_follow_names(store, page, page_size, c, at, j);
            if l > k {
                assert(text_before(store[p][k].name, store[p][l].name));
            }
        }
    }
}

/// How far a listing is in each partition after the page.
spec fn counts_after(
    store: Seq<Seq<StateRow>>,
    page: ListedPage,
    page_size: u32,
    c: Seq<int>,
) -> Seq<int> {
    Seq::new(
        store.len(),
        |p: int|
            first_unlisted(
                store,
                page,
                p,
                c[p],
                end_of(store, c, p, page_size),
                listed_len(page, page_size),
            ),
    )
}

/// The state at a place of the page, in the store.
proof fn lemma_is_stored(
    store: Seq<Seq<StateRow>>,
    page: ListedPage,
    page_size: u32,
    c: Seq<int>,
    j: int,
) -> (r: (int, int))
    requires
        is_page_at(store, page, page_size, c),
        0 <= j < page.order.len(),
    ensures
        0 <= r.0 < store.len(),
        c[r.0] <= r.1 < end_of(store, c, r.0, page_size),
        stands_at(store, page, r.0, r.1, j),
{
    lemma_order_in_range(page);
    let item = page.items[page.order[j] as int];
    let p = item.partition_id as int;
    lemma_given(store, page.after, c, p, page_size);
    let g = given(store[p], page.after[p], page_size + 1);
    assert(g.contains(row_of(item)));
    let m = choose|m: int| 0 <= m < g.len() && g[m] == row_of(item);
    assert(0 <= c[p]);
    assert(g[m] == store[p][c[p] + m]);
    (p, c[p] + m)
}

/// After the page a listing stands behind what the page lists.
proof fn lemma_stands_after(
    store: Seq<Seq<StateRow>>,
    page: ListedPage,
    page_size: u32,
    c: Seq<int>,
)
    requires
        is_page_at(store, page, page_size, c),
    ensures
        stands(store, place_after(page, page_size), counts_after(store, page, page_size, c)),
{
    let n = listed_len(page, page_size);
    let d = counts_after(store, page, page_size, c);
    let now = place_after(page, page_size);
    lemma_order_in_range(page);
    assert forall|i: int| 0 <= i < n implies page.items[
        #[trigger] page.order[i] as int
    ].partition_id < page.after.len() by {}
    if store.len() > 0 {
        lemma_listed_to(page.after, page.items, page.order, n, 0);
    } else {
        assert(page.items.len() == 0) by {
            if page.items.len() > 0 {
                assert(page.items[0].partition_id < store.len());
            }
        }
        assert(page.order.take(n) =~= Seq::<usize>::empty());
    }
    assert forall|p: int| 0 <= p < store.len() implies 0 <= #[trigger] d[p] <= store[p].len()
        && now[p] == (if d[p] == 0 {
        Seq::<char>::empty()
    } else {
        store[p][d[p] - 1].name
    }) by {
        assert(0 <= c[p] <= store[p].len());
        lemma_listed_to(page.after, page.items, page.order, n, p);
        lemma_first_unlisted(store, page, page_size, c, p, c[p], n);
        if exists|i: int| 0 <= i < n && page.items[#[trigger] page.order[i] as int].partition_id
            == p {
            let i = choose|i: int|
                0 <= i < n && page.items[#[trigger] page.order[i] as int].partition_id == p
                    && page.items[page.order[i] as int].aggregate_id@ == now[p] && forall|k: int|
                    i < k < n ==> page.items[#[trigger] page.order[k] as int].partition_id != p;
            let (q, k) = lemma_is_stored(store, page, page_size, c, i);
            assert(q == p);
            assert(k < d[p]);
            if k + 1 < d[p] {
                let m = lemma_has_place(store, page, page_size, c, p, k + 1);
                assert(m < n);
                assert(text_before(store[p][k].name, store[p][k + 1].name));
                lemma_places_follow_names(store, page, page_size, c, i, m);
                assert(page.items[page.order[m] as int].partition_id == p);
                assert(false);
            }
        } else if d[p] > c[p] {
            let m = lemma_has_place(store, page, page_size, c, p, c[p]);
            assert(m < n);
            assert(page.items[page.order[m] as int].partition_id == p);
            assert(false);
        }
    }
}

/// The state is one of those that a listing passes from `c` to `d`.
spec fn is_between(store: Seq<Seq<StateRow>>, c: Seq<int>, d: Seq<int>, row: StateRow) -> bool {
    exists|p: int, k: int|
        0 <= p < store.len() && c[p] <= k < d[p] && #[trigger] store[p][k] == row
}

/// What the page lists: in the order of the names, exactly the states between where the
/// listing stood and where it stands, and before all that is left; and there is more
/// exactly if states are left.
proof fn lemma_page(
    store: Seq<Seq<StateRow>>,
    page: ListedPage,
    page_size: u32,
    c: Seq<int>,
)
    requires
        is_page_at(store, page, page_size, c),
    ensures
        ({
            let d = counts_after(store, page, page_size, c);
            let rows = page_rows(page, page_size);
            &&& forall|p: int| 0 <= p < store.len() ==> c[p] <= #[trigger] d[p]
            &&& forall|a: int, b: int|
                0 <= a < b < rows.len() ==> text_before(
                    (#[trigger] rows[a]).name,
                    (#[trigger] rows[b]).name,
                )
            &&& forall|a: int|
                0 <= a < rows.len() ==> is_between(store, c, d, #[trigger] rows[a])
            &&& forall|p: int, k: int|
                0 <= p < store.len() && c[p] <= k < d[p] ==> rows.contains(#[trigger] store[p][k])
            &&& forall|a: int, p: int, k: int|
                0 <= a < rows.len() && 0 <= p < store.len() && d[p] <= k < store[p].len()
                    ==> text_before((#[trigger] rows[a]).name, (#[trigger] store[p][k]).name)
            &&& page.items.len() <= page_size <==> forall|p: int|
                0 <= p < store.len() ==> #[trigger] d[p] == store[p].len()
        }),
{
    let n = listed_len(page, page_size);
    let d = counts_after(store, page, page_size, c);
    let rows = page_rows(page, page_size);
    lemma_order_in_range(page);
    lemma_stands_after(store, page, page_size, c);
    assert forall|p: int| 0 <= p < store.len() implies c[p] <= #[trigger] d[p] <= end_of(
        store,
        c,
        p,
        page_size,
    ) by {
        assert(0 <= c[p] <= store[p].len());
        lemma_first_unlisted(store, page, page_size, c, p, c[p], n);
    }
    assert forall|a: int, b: int| 0 <= a < b < rows.len() implies text_before(
        (#[trigger] rows[a]).name,
        (#[trigger] rows[b]).name,
    ) by {
        lemma_places_follow_names(store, page, page_size, c, a, b);
    }
    assert forall|a: int| 0 <= a < rows.len() implies is_between(
        store,
        c,
        d,
        #[trigger] rows[a],
    ) by {
        let (p, k) = lemma_is_stored(store, page, page_size, c, a);
        lemma_first_unlisted(store, page, page_size, c, p, c[p], n);
        assert(k < d[p]);
        assert(store[p][k] == rows[a]);
    }
    assert forall|p: int, k: int| 0 <= p < store.len() && c[p] <= k < d[p] implies rows.contains(
        #[trigger] store[p][k],
    ) by {
        assert(0 <= c[p] <= store[p].len());
        let j = lemma_has_place(store, page, page_size, c, p, k);
        lemma_first_unlisted(store, page, page_size, c, p, c[p], n);
        assert(j < n);
        assert(rows[j] == store[p][k]);
    }
    assert forall|a: int, p: int, k: int|
        0 <= a < rows.len() && 0 <= p < store.len() && d[p] <= k
            < store[p].len() implies text_before(
        (#[trigger] rows[a]).name,
        (#[trigger] store[p][k]).name,
    ) by {
        assert(0 <= c[p] <= store[p].len());
        let end = end_of(store, c, p, page_size);
        lemma_first_unlisted(store, page, page_size, c, p, c[p], n);
        if k < end {
            let j = lemma_has_place(store, page, page_size, c, p, k);
            lemma_places_follow_names(store, page, page_size, c, a, j);
        } else {
            // The partition gave one state more than the page holds; the last of these is
            // not listed, and what was not given comes behind it.
            let j = lemma_has_place(store, page, page_size, c, p, end - 1);
            lemma_place_is_late(store, page, page_size, c, p, end - 1, j);
            lemma_places_follow_names(store, page, page_size, c, a, j);
            assert(text_before(store[p][end - 1].name, store[p][k].name));
            lemma_text_order_transitive(rows[a].name, store[p][end - 1].name, store[p][k].name);
        }
    }
    if page.items.len() <= page_size {
        assert forall|p: int| 0 <= p < store.len() implies #[trigger] d[p] == store[p].len() by {
            assert(0 <= c[p] <= store[p].len());
            let end = end_of(store, c, p, page_size);
            lemma_first_unlisted(store, page, page_size, c, p, c[p], n);
            if end < store[p].len() {
                let j = lemma_has_place(store, page, page_size, c, p, end - 1);
                lemma_place_is_late(store, page, page_size, c, p, end - 1, j);
                assert(false);
            }
            if d[p] < end {
                let j = lemma_has_place(store, page, page_size, c, p, d[p]);
                assert(j < n);
                assert(false);
            }
        }
    } else {
        let (p, k) = lemma_is_stored(store, page, page_size, c, n);
        lemma_first_unlisted(store, page, page_size, c, p, c[p], n);
        assert(d[p] <= k);
        assert(d[p] != store[p].len());
    }
}

/// The state is one of the store.
pub open spec fn is_stored(store: Seq<Seq<StateRow>>, row: StateRow) -> bool {
    exists|p: int, k: int|
        0 <= p < store.len() && 0 <= k < store[p].len() && #[trigger] store[p][k] == row
}

/// What the pages list is what a listing at `c` has passed, in the order of the names and
/// before all that is left.
spec fn lists_up_to(store: Seq<Seq<StateRow>>, c: Seq<int>, rows: Seq<StateRow>) -> bool {
    &&& forall|a: int, b: int|
        0 <= a < b < rows.len() ==> text_before(
            (#[trigger] rows[a]).name,
            (#[trigger] rows[b]).name,
        )
    &&& forall|a: int| 0 <= a < rows.len() ==> is_stored(store, #[trigger] rows[a])
    &&& forall|p: int, k: int|
        0 <= p < store.len() && 0 <= k < c[p] ==> rows.contains(#[trigger] store[p][k])
    &&& forall|a: int, p: int, k: int|
        0 <= a < rows.len() && 0 <= p < store.len() && c[p] <= k < store[p].len() ==> text_before(
            (#[trigger] rows[a]).name,
            (#[trigger] store[p][k]).name,
        )
}

proof fn lemma_listing(
    store: Seq<Seq<StateRow>>,
    pages: Seq<ListedPage>,
    page_size: u32,
) -> (d: Seq<int>)
    requires
        is_store(store),
        is_listing(store, pages, page_size),
    ensures
        stands(store, place_after(pages.last(), page_size), d),
        lists_up_to(store, d, listed_rows(pages, page_size)),
        pages.last().items.len() <= page_size <==> forall|p: int|
            0 <= p < store.len() ==> #[trigger] d[p] == store[p].len(),
    decreases pages.len(),
{
    let last = pages.last();
    let rest = pages.drop_last();
    let before = listed_rows(rest, page_size);
    let n = pages.len() - 1;
    assert(reads_states(store, pages[n], page_size));
    let c = if rest.len() == 0 {
        let zero = Seq::new(store.len(), |p: int| 0int);
        assert(before =~= Seq::<StateRow>::empty());
        assert forall|p: int| 0 <= p < store.len() implies last.after[p] == Seq::<
            char,
        >::empty() by {
            assert(pages[0].after[p] =~= Seq::<char>::empty());
        }
        zero
    } else {
        assert(is_listing(store, rest, page_size)) by {
            assert(rest[0] == pages[0]);
            assert forall|t: int| 0 <= t < rest.len() implies reads_states(
                store,
                #[trigger] rest[t],
                page_size,
            ) by {
                assert(rest[t] == pages[t]);
            }
            assert forall|t: int| 0 < t < rest.len() implies (#[trigger] rest[t]).after
                == place_after(rest[t - 1], page_size) by {
                assert(rest[t] == pages[t] && rest[t - 1] == pages[t - 1]);
            }
        }
        assert(pages[n].after == place_after(pages[n - 1], page_size));
        assert(rest.last() == pages[n - 1]);
        lemma_listing(store, rest, page_size)
    };
    assert(stands(store, last.after, c));
    assert(lists_up_to(store, c, before));
    lemma_page(store, last, page_size, c);
    lemma_stands_after(store, last, page_size, c);
    let d = counts_after(store, last, page_size, c);
    let rows = page_rows(last, page_size);
    let all = before + rows;
    assert forall|p: int| 0 <= p < store.len() implies 0 <= #[trigger] c[p] <= d[p]
        && d[p] <= store[p].len() by {
        assert(c[p] <= d[p]);
    }
    assert forall|a: int| 0 <= a < rows.len() implies #[trigger] all[before.len() + a]
        == rows[a] by {}
    assert forall|a: int| 0 <= a < all.len() implies is_stored(store, #[trigger] all[a]) by {
        if a < before.len() {
            assert(all[a] == before[a]);
        } else {
            assert(is_between(store, c, d, rows[a - before.len()]));
            let (p, k) = choose|p: int, k: int|
                0 <= p < store.len() && c[p] <= k < d[p] && #[trigger] store[p][k] == rows[a
                    - before.len()];
            assert(store[p][k] == all[a]);
        }
    }
    assert forall|a: int, b: int| 0 <= a < b < all.len() implies text_before(
        (#[trigger] all[a]).name,
        (#[trigger] all[b]).name,
    ) by {
        if b < before.len() {
            assert(all[a] == before[a] && all[b] == before[b]);
        } else if a < before.len() {
            assert(all[a] == before[a]);
            let r = rows[b - before.len()];
            assert(is_between(store, c, d, r));
            let (p, k) = choose|p: int, k: int|
                0 <= p < store.len() && c[p] <= k < d[p] && #[trigger] store[p][k] == r;
            assert(text_before(before[a].name, store[p][k].name));
        } else {
            assert(text_before(rows[a - before.len()].name, rows[b - before.len()].name));
        }
    }
    assert forall|p: int, k: int| 0 <= p < store.len() && 0 <= k < d[p] implies all.contains(
        #[trigger] store[p][k],
    ) by {
        if k < c[p] {
            let a = choose|a: int| 0 <= a < before.len() && before[a] == store[p][k];
            assert(all[a] == store[p][k]);
        } else {
            assert(rows.contains(store[p][k]));
            let a = choose|a: int| 0 <= a < rows.len() && rows[a] == store[p][k];
            assert(all[before.len() + a] == store[p][k]);
        }
    }
    assert forall|a: int, p: int, k: int|
        0 <= a < all.len() && 0 <= p < store.len() && d[p] <= k
            < store[p].len() implies text_before(
        (#[trigger] all[a]).name,
        (#[trigger] store[p][k]).name,
    ) by {
        if a < before.len() {
            assert(all[a] == before[a]);
            assert(c[p] <= d[p]);
            assert(text_before(before[a].name, store[p][k].name));
        } else {
            assert(text_before(rows[a - before.len()].name, store[p][k].name));
        }
    }
    d
}

/// A listing that is read page after page, with no change of the states in between: each
/// page holds at most as many states as it may; the pages together list states of the
/// type in the order of the aggregates' names, over all partitions, and so none twice;
/// and there is nothing behind the last page exactly if every state of the type has been
/// listed.
pub proof fn law_listing_lists_every_state_once(
    store: Seq<Seq<StateRow>>,
    pages: Seq<ListedPage>,
    page_size: u32,
)
    requires
        is_store(store),
        is_listing(store, pages, page_size),
    ensures
        forall|t: int|
            0 <= t < pages.len() ==> page_rows(#[trigger] pages[t], page_size).len() <= page_size,
        ({
            let rows = listed_rows(pages, page_size);
            &&& forall|a: int, b: int|
                0 <= a < b < rows.len() ==> text_before(
                    (#[trigger] rows[a]).name,
                    (#[trigger] rows[b]).name,
                )
            &&& forall|a: int| 0 <= a < rows.len() ==> is_stored(store, #[trigger] rows[a])
            &&& pages.last().items.len() <= page_size <==> forall|row: StateRow| #[trigger]
                is_stored(store, row) ==> rows.contains(row)
        }),
{
    let rows = listed_rows(pages, page_size);
    let d = lemma_listing(store, pages, page_size);
    if pages.last().items.len() <= page_size {
        assert forall|row: StateRow| #[trigger] is_stored(store, row) implies rows.contains(
            row,
        ) by {
            let (p, k) = choose|p: int, k: int|
                0 <= p < store.len() && 0 <= k < store[p].len() && #[trigger] store[p][k] == row;
            assert(d[p] == store[p].len());
            assert(rows.contains(store[p][k]));
        }
    } else {
        let p = choose|p: int| 0 <= p < store.len() && #[trigger] d[p] != store[p].len();
        let k = d[p];
        let row = store[p][k];
        assert(is_stored(store, row));
        if rows.contains(row) {
            let a = choose|a: int| 0 <= a < rows.len() && rows[a] == row;
            assert(text_before(rows[a].name, store[p][k].name));
            lemma_text_order_total(row.name, row.name);
        }
    }
}


/// What a partition gives lies behind the place that it is asked to go on from: of the
/// states named behind that place it gives the first ones, as many as it is asked for,
/// and none that is not behind it.
pub proof fn law_given_states_lie_behind_the_place(
    rows: Seq<StateRow>,
    after: Seq<char>,
    limit: int,
    k: int,
)
    requires
        limit > 0,
        forall|i: int, j: int|
            0 <= i < j < rows.len() ==> text_before(
                (#[trigger] rows[i]).name,
                (#[trigger] rows[j]).name,
            ),
        0 <= k < rows.len(),
    ensures
        given(rows, after, limit).len() <= limit,
        given(rows, after, limit).contains(rows[k]) ==> after.len() == 0 || text_before(
            after,
            rows[k].name,
        ),
        after.len() == 0 || text_before(after, rows[k].name) ==> given(
            rows,
            after,
            limit,
        ).contains(rows[k]) || given(rows, after, limit).len() == limit,
        after.len() == 0 && k < limit ==> given(rows, after, limit).contains(rows[k]),
{
    lemma_passed_splits(rows, after);
    let n = passed(rows, after) as int;
    let out = given(rows, after, limit);
    if out.contains(rows[k]) {
        let m = choose|m: int| 0 <= m < out.len() && out[m] == rows[k];
        assert(out[m] == rows[n + m]);
        assert(lies_behind(after, rows[n + m].name));
    }
    if lies_behind(after, rows[k].name) {
        assert(k >= n);
        if k - n < out.len() {
            assert(out[k - n] == rows[k]);
        }
    }
    if after.len() == 0 {
        if n > 0 {
            assert(lies_behind(after, rows[0].name));
        }
    }
}

proof fn lemma_passed_splits(rows: Seq<StateRow>, after: Seq<char>)
    requires
        forall|i: int, j: int|
            0 <= i < j < rows.len() ==> text_before(
                (#[trigger] rows[i]).name,
                (#[trigger] rows[j]).name,
            ),
    ensures
        passed(rows, after) <= rows.len(),
        forall|k: int|
            0 <= k < rows.len() ==> (lies_behind(after, (#[trigger] rows[k]).name) <==> k >= passed(
                rows,
                after,
            )),
    decreases rows.len(),
{
    if rows.len() > 0 {
        let rest = rows.drop_last();
        assert forall|i: int, j: int| 0 <= i < j < rest.len() implies text_before(
            (#[trigger] rest[i]).name,
            (#[trigger] rest[j]).name,
        ) by {
            assert(text_before(rows[i].name, rows[j].name));
        }
        lemma_passed_splits(rest, after);
        let n = rows.len() - 1;
        assert(rows[n] == rows.last());
        assert forall|k: int| 0 <= k < rows.len() implies (lies_behind(
            after,
            (#[trigger] rows[k]).name,
        ) <==> k >= passed(rows, after)) by {
            if k < n {
                assert(rest[k] == rows[k]);
                assert(text_before(rows[k].name, rows[n].name));
                if lies_behind(after, rows[k].name) && after.len() > 0 {
                    lemma_text_order_transitive(after, rows[k].name, rows[n].name);
                }
            }
            if !lies_behind(after, rows[n].name) && n > 0 && passed(rest, after) < n {
                assert(lies_behind(after, rest[n - 1].name));
                assert(rest[n - 1] == rows[n - 1]);
                assert(text_before(rows[n - 1].name, rows[n].name));
                if after.len() > 0 {
                    lemma_text_order_transitive(after, rows[n - 1].name, rows[n].name);
                }
            }
        }
    }
}

} // verus!
