//! Maps with a stream and a version as key, kept in the order of their keys.

use vstd::prelude::*;

use crate::text::{
    holds_text, lemma_text_order_total, lemma_text_order_transitive, same_text, text_before,
    text_less, text_views,
};

verus! {

/// Order of keys: by stream, then by version.
pub open spec fn key_before(a: (Seq<char>, u64), b: (Seq<char>, u64)) -> bool {
    text_before(a.0, b.0) || (a.0 == b.0 && a.1 < b.1)
}

proof fn lemma_key_total(a: (Seq<char>, u64), b: (Seq<char>, u64))
    ensures
        key_before(a, b) || key_before(b, a) || a == b,
        !(key_before(a, b) && key_before(b, a)),
        key_before(a, b) ==> a != b,
{
    lemma_text_order_total(a.0, b.0);
}

proof fn lemma_key_transitive(
    a: (Seq<char>, u64),
    b: (Seq<char>, u64),
    c: (Seq<char>, u64),
)
    requires
        key_before(a, b),
        key_before(b, c),
    ensures
        key_before(a, c),
{
    if text_before(a.0, b.0) && text_before(b.0, c.0) {
        lemma_text_order_transitive(a.0, b.0, c.0);
    }
}

fn key_less(a: &str, v: u64, b: &str, w: u64) -> (r: bool)
    ensures
        r == key_before((a@, v), (b@, w)),
{
    proof {
        lemma_text_order_total(a@, b@);
    }
    text_less(a, b) || (same_text(a, b) && v < w)
}

/// One entry.
#[derive(Debug)]
pub struct Entry<V> {
    pub stream: String,
    pub version: u64,
    pub value: V,
}

/// A map from streams and versions to values.
#[derive(Debug)]
pub struct VersionMap<V> {
    pub entries: Vec<Entry<V>>,
}

impl<V> View for VersionMap<V> {
    type V = Map<(Seq<char>, u64), V>;

    open spec fn view(&self) -> Map<(Seq<char>, u64), V> {
        Map::new(
            |k: (Seq<char>, u64)| exists|i: int| 0 <= i < self.entries@.len() && self.key(i) == k,
            |k: (Seq<char>, u64)| self.entries@[self.index(k)].value,
        )
    }
}

impl<V> VersionMap<V> {
    /// The `i`-th key.
    pub open spec fn key(&self, i: int) -> (Seq<char>, u64) {
        (self.entries@[i].stream@, self.entries@[i].version)
    }

    /// Where the key stands.
    pub open spec fn index(&self, k: (Seq<char>, u64)) -> int {
        choose|i: int| 0 <= i < self.entries@.len() && self.key(i) == k
    }

    /// The keys go up, so none occurs twice.
    pub open spec fn wf(&self) -> bool {
        forall|i: int, j: int|
            0 <= i < j < self.entries@.len() ==> key_before(
                #[trigger] self.key(i),
                #[trigger] self.key(j),
            )
    }

    /// Entry `i` is what the map holds under its key.
    pub proof fn lemma_entry(&self, i: int)
        requires
            self.wf(),
            0 <= i < self.entries@.len(),
        ensures
            self@.dom().contains(self.key(i)),
            self@[self.key(i)] == self.entries@[i].value,
    {
        let k = self.key(i);
        let j = self.index(k);
        assert(0 <= j < self.entries@.len() && self.key(j) == k);
        lemma_key_total(k, k);
        assert(i == j) by {
            if i < j {
                assert(key_before(self.key(i), self.key(j)));
            }
            if j < i {
                assert(key_before(self.key(j), self.key(i)));
            }
        }
    }

    /// The empty map.
    pub fn new() -> (m: VersionMap<V>)
        ensures
            m.wf(),
            m.entries@.len() == 0,
            m@ == Map::<(Seq<char>, u64), V>::empty(),
    {
        let m: VersionMap<V> = VersionMap { entries: Vec::new() };
        assert(m@ =~= Map::<(Seq<char>, u64), V>::empty());
        m
    }

    /// Where the key stands or belongs.
    fn place(&self, stream: &str, version: u64) -> (k: usize)
        requires
            self.wf(),
        ensures
            k <= self.entries@.len(),
            forall|i: int|
                0 <= i < k ==> key_before(#[trigger] self.key(i), (stream@, version)),
            forall|i: int|
                k <= i < self.entries@.len() ==> #[trigger] self.key(i) == (stream@, version)
                    || key_before((stream@, version), self.key(i)),
            self@.dom().contains((stream@, version)) <==> (k < self.entries@.len() && self.key(
                k as int,
            ) == (stream@, version)),
    {
        let ghost x = (stream@, version);
        let mut lo: usize = 0;
        let mut hi: usize = self.entries.len();
        while lo < hi
            invariant
                lo <= hi <= self.entries@.len(),
                self.wf(),
                x == (stream@, version),
                forall|i: int| 0 <= i < lo ==> key_before(#[trigger] self.key(i), x),
                forall|i: int|
                    hi <= i < self.entries@.len() ==> #[trigger] self.key(i) == x || key_before(
                        x,
                        self.key(i),
                    ),
            decreases hi - lo,
        {
            let mid: usize = lo + (hi - lo) / 2;
            assert(self.key(mid as int) == (
                self.entries@[mid as int].stream@,
                self.entries@[mid as int].version,
            ));
            if key_less(
                self.entries[mid].stream.as_str(),
                self.entries[mid].version,
                stream,
                version,
            ) {
                proof {
                    assert forall|i: int| 0 <= i < mid + 1 implies key_before(
                        #[trigger] self.key(i),
                        x,
                    ) by {
                        if i < mid {
                            lemma_key_transitive(self.key(i), self.key(mid as int), x);
                        }
                    }
                }
                lo = mid + 1;
            } else {
                proof {
                    lemma_key_total(self.key(mid as int), x);
                    assert forall|i: int| mid <= i < self.entries@.len() implies #[trigger] self.key(
                        i,
                    ) == x || key_before(x, self.key(i)) by {
                        if i > mid && key_before(x, self.key(mid as int)) {
                            lemma_key_transitive(x, self.key(mid as int), self.key(i));
                        }
                    }
                }
                hi = mid;
            }
        }
        proof {
            if self@.dom().contains(x) {
                let j = choose|j: int| 0 <= j < self.entries@.len() && self.key(j) == x;
                lemma_key_total(x, x);
                if j > lo {
                    assert(key_before(self.key(lo as int), self.key(j)));
                    lemma_key_total(x, self.key(lo as int));
                }
            }
            if lo < self.entries@.len() && self.key(lo as int) == x {
                self.lemma_entry(lo as int);
            }
        }
        lo
    }

    /// The value under the key.
    pub fn get(&self, stream: &str, version: u64) -> (r: Option<&V>)
        requires
            self.wf(),
        ensures
            match r {
                Some(v) => self@.dom().contains((stream@, version)) && *v == self@[(
                    stream@,
                    version,
                )],
                None => !self@.dom().contains((stream@, version)),
            },
    {
        let k = self.place(stream, version);
        if k < self.entries.len() && self.entries[k].version == version && same_text(
            self.entries[k].stream.as_str(),
            stream,
        ) {
            proof {
                assert(self.key(k as int) == (stream@, version));
                self.lemma_entry(k as int);
            }
            Some(&self.entries[k].value)
        } else {
            proof {
                assert(k < self.entries@.len() ==> self.key(k as int) != (stream@, version));
            }
            None
        }
    }

    /// Puts the value under the key.
    pub fn insert(&mut self, stream: String, version: u64, value: V)
        requires
            old(self).wf(),
        ensures
            final(self).wf(),
            final(self)@ == old(self)@.insert((stream@, version), value),
            final(self).entries@.len() == old(self).entries@.len() + (if old(self)@.dom().contains((stream@, version)) {
                0int
            } else {
                1int
            }),
    {
        let k = self.place(stream.as_str(), version);
        let ghost x = (stream@, version);
        let ghost before = *self;
        if k < self.entries.len() && self.entries[k].version == version && same_text(
            self.entries[k].stream.as_str(),
            stream.as_str(),
        ) {
            assert(self.key(k as int) == x);
            self.entries.set(k, Entry { stream, version, value });
            proof {
                assert forall|i: int| 0 <= i < self.entries@.len() implies #[trigger] self.key(i)
                    == before.key(i) by {}
                assert(self.wf());
                assert forall|q: (Seq<char>, u64)|
                    #![trigger self@.dom().contains(q)]
                    self@.dom().contains(q) == before@.insert(x, value).dom().contains(q) && (
                    self@.dom().contains(q) ==> self@[q] == before@.insert(x, value)[q]) by {
                    assert(self.key(k as int) == x);
                    if self@.dom().contains(q) {
                        let i = self.index(q);
                        assert(self.key(i) == q);
                        assert(before.key(i) == q);
                        self.lemma_entry(i);
                        before.lemma_entry(i);
                        if i != k {
                            lemma_key_total(q, x);
                            if i < k {
                                assert(key_before(self.key(i), self.key(k as int)));
                            } else {
                                assert(key_before(self.key(k as int), self.key(i)));
                            }
                        }
                    } else if before@.dom().contains(q) {
                        let i = before.index(q);
                        assert(before.key(i) == q);
                        assert(self.key(i) == q);
                        self.lemma_entry(i);
                    } else if q == x {
                        self.lemma_entry(k as int);
                    }
                }
                assert(self@ =~= before@.insert(x, value));
            }
        } else {
            proof {
                assert(k < self.entries@.len() ==> self.key(k as int) != x);
            }
            self.entries.insert(k, Entry { stream, version, value });
            proof {
                assert forall|i: int| 0 <= i < self.entries@.len() implies #[trigger] self.key(i)
                    == (if i < k {
                    before.key(i)
                } else if i == k {
                    x
                } else {
                    before.key(i - 1)
                }) by {}
                assert(self.wf()) by {
                    assert forall|i: int, j: int|
                        0 <= i < j < self.entries@.len() implies key_before(
                        #[trigger] self.key(i),
                        #[trigger] self.key(j),
                    ) by {
                        if i < k && j < k {
                            assert(key_before(before.key(i), before.key(j)));
                        } else if i < k && j > k {
                            assert(key_before(before.key(i), before.key(j - 1)));
                        } else if i > k {
                            assert(key_before(before.key(i - 1), before.key(j - 1)));
                        } else if i == k {
                            assert(before.key(j - 1) == x || key_before(x, before.key(j - 1)));
                            if before.key(j - 1) == x {
                                before.lemma_entry(j - 1);
                            }
                        }
                    }
                }
                assert forall|q: (Seq<char>, u64)|
                    #![trigger self@.dom().contains(q)]
                    self@.dom().contains(q) == before@.insert(x, value).dom().contains(q) && (
                    self@.dom().contains(q) ==> self@[q] == before@.insert(x, value)[q]) by {
                    self.lemma_entry(k as int);
                    if self@.dom().contains(q) && q != x {
                        let i = self.index(q);
                        assert(self.key(i) == q);
                        self.lemma_entry(i);
                        if i < k {
                            before.lemma_entry(i);
                        } else {
                            before.lemma_entry(i - 1);
                        }
                    }
                    if before@.dom().contains(q) {
                        let i = before.index(q);
                        assert(before.key(i) == q);
                        before.lemma_entry(i);
                        if i < k {
                            assert(self.key(i) == q);
                            self.lemma_entry(i);
                        } else {
                            assert(self.key(i + 1) == q);
                            self.lemma_entry(i + 1);
                        }
                    }
                }
                assert(self@ =~= before@.insert(x, value));
            }
        }
    }

    /// Takes the key out and gives its value.
    pub fn remove(&mut self, stream: &str, version: u64) -> (r: Option<V>)
        requires
            old(self).wf(),
        ensures
            final(self).wf(),
            final(self)@ == old(self)@.remove((stream@, version)),
            match r {
                Some(v) => old(self)@.dom().contains((stream@, version)) && v == old(self)@[(
                    stream@,
                    version,
                )],
                None => !old(self)@.dom().contains((stream@, version)),
            },
    {
        let k = self.place(stream, version);
        let ghost x = (stream@, version);
        let ghost before = *self;
        if k < self.entries.len() && self.entries[k].version == version && same_text(
            self.entries[k].stream.as_str(),
            stream,
        ) {
            proof {
                assert(before.key(k as int) == x);
                before.lemma_entry(k as int);
            }
            let gone = self.entries.remove(k);
            proof {
                assert forall|i: int| 0 <= i < self.entries@.len() implies #[trigger] self.key(i)
                    == (if i < k {
                    before.key(i)
                } else {
                    before.key(i + 1)
                }) by {}
                assert(self.wf()) by {
                    assert forall|i: int, j: int|
                        0 <= i < j < self.entries@.len() implies key_before(
                        #[trigger] self.key(i),
                        #[trigger] self.key(j),
                    ) by {
                        let a = if i < k {
                            i
                        } else {
                            i + 1
                        };
                        let b = if j < k {
                            j
                        } else {
                            j + 1
                        };
                        assert(key_before(before.key(a), before.key(b)));
                    }
                }
                assert forall|q: (Seq<char>, u64)|
                    #![trigger self@.dom().contains(q)]
                    self@.dom().contains(q) == before@.remove(x).dom().contains(q) && (
                    self@.dom().contains(q) ==> self@[q] == before@.remove(x)[q]) by {
                    if self@.dom().contains(q) {
                        let i = self.index(q);
                        assert(self.key(i) == q);
                        self.lemma_entry(i);
                        lemma_key_total(q, x);
                        if i < k {
                            before.lemma_entry(i);
                            assert(key_before(before.key(i), before.key(k as int)));
                        } else {
                            before.lemma_entry(i + 1);
                            assert(key_before(before.key(k as int), before.key(i + 1)));
                        }
                    }
                    if before@.dom().contains(q) && q != x {
                        let i = before.index(q);
                        assert(before.key(i) == q);
                        before.lemma_entry(i);
                        if i < k {
                            assert(self.key(i) == q);
                            self.lemma_entry(i);
                        } else {
                            assert(self.key(i - 1) == q);
                            self.lemma_entry(i - 1);
                        }
                    }
                }
                assert(self@ =~= before@.remove(x));
            }
            Some(gone.value)
        } else {
            proof {
                assert(k < self.entries@.len() ==> self.key(k as int) != x);
                assert(self@ =~= before@.remove(x));
            }
            None
        }
    }

    /// Keeps the entries of these streams.
    pub fn restrict(self, keep: &Vec<String>) -> (m: VersionMap<V>)
        requires
            self.wf(),
        ensures
            m.wf(),
            m@ == self@.restrict(
                Set::new(|k: (Seq<char>, u64)| text_views(keep@).contains(k.0)),
            ),
    {
        let ghost kept = text_views(keep@);
        let ghost whole = self;
        let all = self.entries;
        let mut out: Vec<Entry<V>> = Vec::new();
        let ghost mut from: Seq<int> = Seq::empty();
        for e in it: all
            invariant
                it.seq() == all@,
                all == whole.entries,
                kept == text_views(keep@),
                from.len() == out@.len(),
                forall|k: int|
                    0 <= k < from.len() ==> 0 <= #[trigger] from[k] < it.index() && out@[k]
                        == all@[from[k]] && kept.contains(all@[from[k]].stream@),
                forall|a: int, b: int|
                    0 <= a < b < from.len() ==> #[trigger] from[a] < #[trigger] from[b],
                forall|i: int|
                    0 <= i < it.index() && kept.contains((#[trigger] all@[i]).stream@)
                        ==> from.contains(i),
        {
            let ghost n = it.index() as int;
            let ghost before_from = from;
            if holds_text(keep, e.stream.as_str()) {
                out.push(e);
                proof {
                    from = from.push(n);
                    assert forall|i: int|
                        0 <= i < n + 1 && kept.contains((#[trigger] all@[i]).stream@) implies
                        from.contains(i) by {
                        if i < n {
                            let k = choose|k: int|
                                0 <= k < before_from.len() && before_from[k] == i;
                            assert(from[k] == i);
                        } else {
                            assert(from[before_from.len() as int] == n);
                        }
                    }
                }
            }
        }
        let m: VersionMap<V> = VersionMap { entries: out };
        proof {
            assert forall|k: int| 0 <= k < m.entries@.len() implies #[trigger] m.key(k)
                == whole.key(from[k]) by {
                assert(m.entries@[k] == all@[from[k]]);
            }
            assert(m.wf()) by {
                assert forall|i: int, j: int| 0 <= i < j < m.entries@.len() implies key_before(
                    #[trigger] m.key(i),
                    #[trigger] m.key(j),
                ) by {
                    assert(from[i] < from[j]);
                    assert(key_before(whole.key(from[i]), whole.key(from[j])));
                }
            }
            let goal = whole@.restrict(Set::new(|k: (Seq<char>, u64)| kept.contains(k.0)));
            assert forall|q: (Seq<char>, u64)|
                #![trigger m@.dom().contains(q)]
                m@.dom().contains(q) == goal.dom().contains(q) && (m@.dom().contains(q) ==> m@[q]
                    == goal[q]) by {
                if m@.dom().contains(q) {
                    let k = m.index(q);
                    assert(m.key(k) == q);
                    m.lemma_entry(k);
                    whole.lemma_entry(from[k]);
                }
                if goal.dom().contains(q) {
                    let i = whole.index(q);
                    assert(whole.key(i) == q);
                    assert(kept.contains(all@[i].stream@));
                    let k = choose|k: int| 0 <= k < from.len() && from[k] == i;
                    assert(m.key(k) == q);
                    m.lemma_entry(k);
                }
            }
            assert(m@ =~= goal);
        }
        m
    }

    /// Drops the entries of a stream.
    pub fn without(self, stream: &str) -> (m: VersionMap<V>)
        requires
            self.wf(),
        ensures
            m.wf(),
            m@ == self@.restrict(Set::new(|k: (Seq<char>, u64)| k.0 != stream@)),
    {
        let ghost whole = self;
        let all = self.entries;
        let mut out: Vec<Entry<V>> = Vec::new();
        let ghost mut from: Seq<int> = Seq::empty();
        for e in it: all
            invariant
                it.seq() == all@,
                all == whole.entries,
                from.len() == out@.len(),
                forall|k: int|
                    0 <= k < from.len() ==> 0 <= #[trigger] from[k] < it.index() && out@[k]
                        == all@[from[k]] && all@[from[k]].stream@ != stream@,
                forall|a: int, b: int|
                    0 <= a < b < from.len() ==> #[trigger] from[a] < #[trigger] from[b],
                forall|i: int|
                    0 <= i < it.index() && (#[trigger] all@[i]).stream@ != stream@
                        ==> from.contains(i),
        {
            let ghost n = it.index() as int;
            let ghost before_from = from;
            if !same_text(e.stream.as_str(), stream) {
                out.push(e);
                proof {
                    from = from.push(n);
                    assert forall|i: int|
                        0 <= i < n + 1 && (#[trigger] all@[i]).stream@ != stream@ implies
                        from.contains(i) by {
                        if i < n {
                            let k = choose|k: int|
                                0 <= k < before_from.len() && before_from[k] == i;
                            assert(from[k] == i);
                        } else {
                            assert(from[before_from.len() as int] == n);
                        }
                    }
                }
            }
        }
        let m: VersionMap<V> = VersionMap { entries: out };
        proof {
            assert forall|k: int| 0 <= k < m.entries@.len() implies #[trigger] m.key(k)
                == whole.key(from[k]) by {
                assert(m.entries@[k] == all@[from[k]]);
            }
            assert(m.wf()) by {
                assert forall|i: int, j: int| 0 <= i < j < m.entries@.len() implies key_before(
                    #[trigger] m.key(i),
                    #[trigger] m.key(j),
                ) by {
                    assert(from[i] < from[j]);
                    assert(key_before(whole.key(from[i]), whole.key(from[j])));
                }
            }
            let goal = whole@.restrict(Set::new(|k: (Seq<char>, u64)| k.0 != stream@));
            assert forall|q: (Seq<char>, u64)|
                #![trigger m@.dom().contains(q)]
                m@.dom().contains(q) == goal.dom().contains(q) && (m@.dom().contains(q) ==> m@[q]
                    == goal[q]) by {
                if m@.dom().contains(q) {
                    let k = m.index(q);
                    assert(m.key(k) == q);
                    m.lemma_entry(k);
                    whole.lemma_entry(from[k]);
                }
                if goal.dom().contains(q) {
                    let i = whole.index(q);
                    assert(whole.key(i) == q);
                    assert(all@[i].stream@ != stream@);
                    let k = choose|k: int| 0 <= k < from.len() && from[k] == i;
                    assert(m.key(k) == q);
                    m.lemma_entry(k);
                }
            }
            assert(m@ =~= goal);
        }
        m
    }
}


/// What is put under a stream and version is found there, and nothing else changes.
pub proof fn law_version_map_finds_what_was_put<V>(
    this: &mut VersionMap<V>,
    stream: String,
    version: u64,
    value: V,
    other: &str,
    w: u64,
    before: Option<&V>,
    after: Option<&V>,
)
    requires
        call_ensures(VersionMap::<V>::get, (old(this), other, w), before),
        call_ensures(VersionMap::<V>::insert, (this, stream, version, value), ()),
        call_ensures(VersionMap::<V>::get, (final(this), other, w), after),
    ensures
        other@ == stream@ && w == version ==> after == Some(&value),
        other@ != stream@ || w != version ==> (after is Some <==> before is Some),
        other@ != stream@ || w != version ==> (before matches Some(b) ==> (after matches Some(a)
            && *a == *b)),
{
}

/// A version of a stream is found exactly where an entry has it, with its value.
pub proof fn law_version_map_finds_its_entries<V>(
    m: VersionMap<V>,
    stream: &str,
    version: u64,
    r: Option<&V>,
    i: int,
)
    requires
        m.wf(),
        call_ensures(VersionMap::<V>::get, (&m, stream, version), r),
    ensures
        0 <= i < m.entries@.len() && m.entries@[i].stream@ == stream@ && m.entries@[i].version
            == version ==> (r matches Some(v) && *v == m.entries@[i].value),
        r is Some ==> exists|k: int|
            0 <= k < m.entries@.len() && (#[trigger] m.entries@[k]).stream@ == stream@
                && m.entries@[k].version == version,
{
    if 0 <= i < m.entries@.len() && m.entries@[i].stream@ == stream@ && m.entries@[i].version
        == version {
        m.lemma_entry(i);
        assert(m.key(i) == (stream@, version));
    }
    if r is Some {
        let k = m.index((stream@, version));
        assert(0 <= k < m.entries@.len() && m.key(k) == (stream@, version));
        assert(m.entries@[k].stream@ == stream@);
    }
}

} // verus!
