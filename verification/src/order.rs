//! Sorted lists of numbers.

use vstd::prelude::*;

verus! {

/// Ascending, repetitions allowed.
pub open spec fn ascending(s: Seq<u64>) -> bool {
    forall|i: int, j: int| 0 <= i < j < s.len() ==> s[i] <= s[j]
}

/// Strictly ascending: no number occurs twice.
pub open spec fn increasing(s: Seq<u64>) -> bool {
    forall|i: int, j: int| 0 <= i < j < s.len() ==> s[i] < s[j]
}

/// `s` is the ascending arrangement of `v`, each number as often as in `v`.
pub open spec fn is_sort_of(s: Seq<u64>, v: Seq<u64>) -> bool {
    ascending(s) && s.to_multiset() == v.to_multiset()
}

/// `s` lists each number of `set` once, in ascending order.
pub open spec fn lists(s: Seq<u64>, set: Set<u64>) -> bool {
    increasing(s) && forall|x: u64| s.contains(x) <==> set.contains(x)
}

/// Two increasing lists of the same numbers are the same list.
pub proof fn lemma_lists_unique(a: Seq<u64>, b: Seq<u64>, set: Set<u64>)
    requires
        lists(a, set),
        lists(b, set),
    ensures
        a == b,
    decreases a.len(),
{
    if a.len() == 0 {
        if b.len() > 0 {
            assert(b.contains(b[0]));
            assert(a.contains(b[0]));
        }
        assert(a =~= b);
    } else if b.len() == 0 {
        assert(a.contains(a[0]));
        assert(b.contains(a[0]));
    } else {
        let x = a.last();
        let y = b.last();
        assert(a.contains(x) && b.contains(y));
        let i = choose|i: int| 0 <= i < b.len() && b[i] == x;
        let j = choose|j: int| 0 <= j < a.len() && a[j] == y;
        assert(b.contains(x) && a.contains(y));
        assert(x <= y && y <= x);
        let rest = set.remove(x);
        assert forall|z: u64| a.drop_last().contains(z) <==> rest.contains(z) by {
            if a.drop_last().contains(z) {
                let k = choose|k: int| 0 <= k < a.drop_last().len() && a.drop_last()[k] == z;
                assert(a[k] == z);
                assert(a.contains(z));
            }
            if rest.contains(z) {
                assert(a.contains(z));
                let k = choose|k: int| 0 <= k < a.len() && a[k] == z;
                assert(a.drop_last()[k] == z);
            }
        }
        assert forall|z: u64| b.drop_last().contains(z) <==> rest.contains(z) by {
            if b.drop_last().contains(z) {
                let k = choose|k: int| 0 <= k < b.drop_last().len() && b.drop_last()[k] == z;
                assert(b[k] == z);
                assert(b.contains(z));
            }
            if rest.contains(z) {
                assert(b.contains(z));
                let k = choose|k: int| 0 <= k < b.len() && b[k] == z;
                assert(b.drop_last()[k] == z);
            }
        }
        lemma_lists_unique(a.drop_last(), b.drop_last(), rest);
        assert(a =~= a.drop_last().push(x));
        assert(b =~= b.drop_last().push(x));
    }
}

/// Two ascending arrangements of the same numbers are the same list.
pub proof fn lemma_sort_unique(a: Seq<u64>, b: Seq<u64>)
    requires
        ascending(a),
        ascending(b),
        a.to_multiset() == b.to_multiset(),
    ensures
        a == b,
    decreases a.len(),
{
    broadcast use vstd::seq_lib::group_to_multiset_ensures;

    a.to_multiset_ensures();
    b.to_multiset_ensures();
    assert(a.len() == b.len());
    if a.len() > 0 {
        let x = a.last();
        let y = b.last();
        assert(a.to_multiset().count(x) > 0) by {
            assert(a.contains(x));
        }
        assert(b.to_multiset().count(y) > 0) by {
            assert(b.contains(y));
        }
        assert(b.contains(x));
        assert(a.contains(y));
        let i = choose|i: int| 0 <= i < b.len() && b[i] == x;
        let j = choose|j: int| 0 <= j < a.len() && a[j] == y;
        assert(x == y);
        assert(a =~= a.drop_last().push(x));
        assert(b =~= b.drop_last().push(x));
        assert(a.to_multiset() =~= a.drop_last().to_multiset().insert(x));
        assert(b.to_multiset() =~= b.drop_last().to_multiset().insert(x));
        assert(a.drop_last().to_multiset() =~= a.to_multiset().remove(x));
        assert(b.drop_last().to_multiset() =~= b.to_multiset().remove(x));
        lemma_sort_unique(a.drop_last(), b.drop_last());
    } else {
        assert(a =~= b);
    }
}

proof fn lemma_insert_multiset(s: Seq<u64>, k: int, x: u64)
    requires
        0 <= k <= s.len(),
    ensures
        s.insert(k, x).to_multiset() == s.to_multiset().insert(x),
{
    broadcast use vstd::seq_lib::group_to_multiset_ensures;
    broadcast use vstd::multiset::group_multiset_axioms;

    let t = s.insert(k, x);
    assert(t.remove(k) =~= s);
    assert(t[k] == x);
    assert(t.contains(x));
    assert(s.to_multiset() =~= t.to_multiset().remove(x));
    assert(t.to_multiset() =~= s.to_multiset().insert(x));
}

/// True if `x` is in the list.
pub fn holds(v: &Vec<u64>, x: u64) -> (r: bool)
    ensures
        r == v@.contains(x),
{
    let mut i: usize = 0;
    while i < v.len()
        invariant
            i <= v.len(),
            forall|j: int| 0 <= j < i ==> v[j] != x,
        decreases v.len() - i,
    {
        if v[i] == x {
            assert(v@[i as int] == x);
            return true;
        }
        i += 1;
    }
    false
}

/// The numbers of `v` in ascending order.
pub fn sort(v: &Vec<u64>) -> (out: Vec<u64>)
    ensures
        is_sort_of(out@, v@),
{
    broadcast use vstd::seq_lib::group_to_multiset_ensures;

    let mut out: Vec<u64> = Vec::new();
    let mut i: usize = 0;
    proof {
        assert(v@.take(0) =~= out@);
    }
    while i < v.len()
        invariant
            i <= v.len(),
            ascending(out@),
            out@.to_multiset() == v@.take(i as int).to_multiset(),
        decreases v.len() - i,
    {
        let x = v[i];
        let mut k: usize = out.len();
        while k > 0 && out[k - 1] > x
            invariant
                k <= out.len(),
                ascending(out@),
                forall|j: int| k <= j < out.len() ==> out[j] > x,
            decreases k,
        {
            k -= 1;
        }
        let ghost before = out@;
        out.insert(k, x);
        proof {
            assert(out@ == before.insert(k as int, x));
            lemma_insert_multiset(before, k as int, x);
            assert(v@.take(i + 1) =~= v@.take(i as int).push(v@[i as int]));
            v@.take(i as int).to_multiset_ensures();
        }
        i += 1;
    }
    proof {
        assert(v@.take(v.len() as int) =~= v@);
    }
    out
}

/// The numbers of `v`, each once, in ascending order.
pub fn distinct(v: &Vec<u64>) -> (out: Vec<u64>)
    ensures
        lists(out@, v@.to_set()),
{
    let mut out: Vec<u64> = Vec::new();
    let mut i: usize = 0;
    while i < v.len()
        invariant
            i <= v.len(),
            lists(out@, v@.take(i as int).to_set()),
        decreases v.len() - i,
    {
        let x = v[i];
        insert_distinct(&mut out, x);
        proof {
            assert forall|y: u64| v@.take(i + 1).contains(y) <==> (v@.take(i as int).contains(y)
                || y == x) by {
                let t = v@.take(i + 1);
                if t.contains(y) {
                    let k = choose|k: int| 0 <= k < t.len() && t[k] == y;
                    if k < i {
                        assert(v@.take(i as int)[k] == y);
                    }
                }
                if v@.take(i as int).contains(y) {
                    let k = choose|k: int|
                        0 <= k < v@.take(i as int).len() && v@.take(i as int)[k] == y;
                    assert(t[k] == y);
                }
                assert(t[i as int] == x);
            }
        }
        i += 1;
    }
    proof {
        assert(v@.take(v.len() as int) =~= v@);
    }
    out
}

/// Puts `x` into an increasing list, unless it is there.
pub fn insert_distinct(v: &mut Vec<u64>, x: u64)
    requires
        increasing(old(v)@),
    ensures
        increasing(final(v)@),
        forall|y: u64| #[trigger] final(v)@.contains(y) <==> (old(v)@.contains(y) || y == x),
{
    let mut k: usize = v.len();
    while k > 0 && v[k - 1] > x
        invariant
            k <= v.len(),
            increasing(v@),
            v@ == old(v)@,
            forall|j: int| k <= j < v.len() ==> v[j] > x,
        decreases k,
    {
        k -= 1;
    }
    if k > 0 && v[k - 1] == x {
        assert(v@[k - 1] == x);
        return;
    }
    let ghost before = v@;
    v.insert(k, x);
    proof {
        assert(v@ == before.insert(k as int, x));
        assert forall|y: u64| #[trigger] v@.contains(y) <==> (before.contains(y) || y == x) by {
            if before.contains(y) {
                let i = choose|i: int| 0 <= i < before.len() && before[i] == y;
                if i < k {
                    assert(v@[i] == y);
                } else {
                    assert(v@[i + 1] == y);
                }
            }
            if v@.contains(y) && y != x {
                let i = choose|i: int| 0 <= i < v@.len() && v@[i] == y;
                if i < k {
                    assert(before[i] == y);
                } else {
                    assert(before[i - 1] == y);
                }
            }
            assert(v@[k as int] == x);
        }
    }
}

/// The numbers of `a` that are not in `b`, in the order of `a`.
pub fn difference(a: &Vec<u64>, b: &Vec<u64>) -> (out: Vec<u64>)
    ensures
        out@ == a@.filter(|x: u64| !b@.contains(x)),
{
    let mut out: Vec<u64> = Vec::new();
    let ghost keep = |x: u64| !b@.contains(x);
    let mut i: usize = 0;
    proof {
        reveal(Seq::filter);
        assert(a@.take(0) =~= Seq::<u64>::empty());
    }
    while i < a.len()
        invariant
            i <= a.len(),
            keep == (|x: u64| !b@.contains(x)),
            out@ == a@.take(i as int).filter(keep),
        decreases a.len() - i,
    {
        let x = a[i];
        let inside = holds(b, x);
        proof {
            reveal(Seq::filter);
            assert(a@.take(i + 1).drop_last() =~= a@.take(i as int));
            assert(a@.take(i + 1).last() == x);
        }
        if !inside {
            out.push(x);
        }
        i += 1;
    }
    proof {
        assert(a@.take(a.len() as int) =~= a@);
    }
    out
}


/// Sorting keeps every number as often as it is there, and puts none before a smaller one.
pub proof fn law_sorting_keeps_every_number(v: Vec<u64>, out: Vec<u64>, x: u64)
    requires
        call_ensures(sort, (&v,), out),
    ensures
        out@.len() == v@.len(),
        out@.contains(x) <==> v@.contains(x),
        out@.to_multiset().count(x) == v@.to_multiset().count(x),
        forall|i: int, j: int| 0 <= i < j < out@.len() ==> out@[i] <= out@[j],
{
    v@.to_multiset_ensures();
    out@.to_multiset_ensures();
    assert(out@.contains(x) <==> out@.to_multiset().count(x) > 0);
    assert(v@.contains(x) <==> v@.to_multiset().count(x) > 0);
}

/// Listing numbers without repetition keeps each number once, in rising order.
pub proof fn law_listing_keeps_each_number_once(v: Vec<u64>, out: Vec<u64>, x: u64)
    requires
        call_ensures(distinct, (&v,), out),
    ensures
        out@.contains(x) <==> v@.contains(x),
        forall|i: int, j: int| 0 <= i < j < out@.len() ==> out@[i] < out@[j],
{
    assert(v@.to_set().contains(x) <==> v@.contains(x));
    assert(out@.contains(x) <==> v@.to_set().contains(x));
}

/// What is left of a list after a choice: what is in it and is chosen.
pub proof fn lemma_filter_has<A>(list: Seq<A>, keep: spec_fn(A) -> bool, x: A)
    ensures
        list.filter(keep).contains(x) <==> list.contains(x) && keep(x),
    decreases list.len(),
{
    reveal(Seq::filter);
    if list.len() > 0 {
        let rest = list.drop_last();
        let was = rest.filter(keep);
        let now = list.filter(keep);
        lemma_filter_has(rest, keep, x);
        if was.contains(x) {
            let k = choose|k: int| 0 <= k < was.len() && was[k] == x;
            assert(now[k] == x);
            let m = choose|m: int| 0 <= m < rest.len() && rest[m] == x;
            assert(list[m] == x);
        }
        if now.contains(x) && !was.contains(x) {
            let k = choose|k: int| 0 <= k < now.len() && now[k] == x;
            if k < was.len() {
                assert(was[k] == x);
            }
            assert(list[list.len() - 1] == x);
        }
        if list.contains(x) && keep(x) && !was.contains(x) {
            let m = choose|m: int| 0 <= m < list.len() && list[m] == x;
            if m < rest.len() {
                assert(rest[m] == x);
            }
            assert(now[was.len() as int] == x);
        }
    }
}

} // verus!
