//! Maps kept in the order of their keys: texts or numbers.

use vstd::prelude::*;

use crate::order::lists;
use crate::text::{
    holds_text, lemma_text_order_total, lemma_text_order_transitive, same_text, text_before,
    text_less, text_views, texts_increase,
};

verus! {

/// A map from texts to values, in ascending order of the texts.
#[derive(Debug)]
pub struct TextMap<V> {
    pub entries: Vec<(String, V)>,
}

impl<V> View for TextMap<V> {
    type V = Map<Seq<char>, V>;

    open spec fn view(&self) -> Map<Seq<char>, V> {
        Map::new(
            |k: Seq<char>| exists|i: int| 0 <= i < self.entries@.len() && self.key(i) == k,
            |k: Seq<char>| self.entries@[self.index(k)].1,
        )
    }
}

impl<V> TextMap<V> {
    /// The `i`-th key.
    pub open spec fn key(&self, i: int) -> Seq<char> {
        self.entries@[i].0@
    }

    /// Where the key stands.
    pub open spec fn index(&self, k: Seq<char>) -> int {
        choose|i: int| 0 <= i < self.entries@.len() && self.key(i) == k
    }

    /// The keys go up, so none occurs twice.
    pub open spec fn wf(&self) -> bool {
        forall|i: int, j: int|
            0 <= i < j < self.entries@.len() ==> text_before(
                #[trigger] self.key(i),
                #[trigger] self.key(j),
            )
    }

    /// Entry `i` is what the map holds under its key.
    pub proof fn lemma_entry(&self, i: int)
        requires
            self.wf(),
            0 <= i < self.entries@.len(),
        ensures
            self@.dom().contains(self.key(i)),
            self@[self.key(i)] == self.entries@[i].1,
    {
        let k = self.key(i);
        let j = self.index(k);
        assert(0 <= j < self.entries@.len() && self.key(j) == k);
        lemma_text_order_total(k, k);
        assert(i == j) by {
            if i < j {
                assert(text_before(self.key(i), self.key(j)));
            }
            if j < i {
                assert(text_before(self.key(j), self.key(i)));
            }
        }
    }

    /// The empty map.
    pub fn new() -> (m: TextMap<V>)
        ensures
            m.wf(),
            m@ == Map::<Seq<char>, V>::empty(),
    {
        let m: TextMap<V> = TextMap { entries: Vec::new() };
        assert(m@ =~= Map::<Seq<char>, V>::empty());
        m
    }

    /// Where the key stands or belongs.
    fn place(&self, x: &str) -> (k: usize)
        requires
            self.wf(),
        ensures
            k <= self.entries@.len(),
            forall|i: int| 0 <= i < k ==> text_before(#[trigger] self.key(i), x@),
            forall|i: int|
                k <= i < self.entries@.len() ==> #[trigger] self.key(i) == x@ || text_before(
                    x@,
                    self.key(i),
                ),
            self@.dom().contains(x@) <==> (k < self.entries@.len() && self.key(k as int) == x@),
    {
        let mut lo: usize = 0;
        let mut hi: usize = self.entries.len();
        while lo < hi
            invariant
                lo <= hi <= self.entries@.len(),
                self.wf(),
                forall|i: int| 0 <= i < lo ==> text_before(#[trigger] self.key(i), x@),
                forall|i: int|
                    hi <= i < self.entries@.len() ==> #[trigger] self.key(i) == x@ || text_before(
                        x@,
                        self.key(i),
                    ),
            decreases hi - lo,
        {
            let mid: usize = lo + (hi - lo) / 2;
            assert(self.key(mid as int) == self.entries@[mid as int].0@);
            if text_less(self.entries[mid].0.as_str(), x) {
                proof {
                    assert forall|i: int| 0 <= i < mid + 1 implies text_before(
                        #[trigger] self.key(i),
                        x@,
                    ) by {
                        if i < mid {
                            lemma_text_order_transitive(self.key(i), self.key(mid as int), x@);
                        }
                    }
                }
                lo = mid + 1;
            } else {
                proof {
                    lemma_text_order_total(self.key(mid as int), x@);
                    assert forall|i: int| mid <= i < self.entries@.len() implies #[trigger] self.key(
                        i,
                    ) == x@ || text_before(x@, self.key(i)) by {
                        if i > mid && text_before(x@, self.key(mid as int)) {
                            lemma_text_order_transitive(x@, self.key(mid as int), self.key(i));
                        }
                    }
                }
                hi = mid;
            }
        }
        proof {
            if self@.dom().contains(x@) {
                let j = choose|j: int| 0 <= j < self.entries@.len() && self.key(j) == x@;
                lemma_text_order_total(x@, x@);
                if j > lo {
                    assert(text_before(self.key(lo as int), self.key(j)));
                    lemma_text_order_total(x@, self.key(lo as int));
                }
            }
            if lo < self.entries@.len() && self.key(lo as int) == x@ {
                self.lemma_entry(lo as int);
            }
        }
        lo
    }

    /// The value under the key.
    pub fn get(&self, x: &str) -> (r: Option<&V>)
        requires
            self.wf(),
        ensures
            match r {
                Some(v) => self@.dom().contains(x@) && *v == self@[x@],
                None => !self@.dom().contains(x@),
            },
    {
        let k = self.place(x);
        if k < self.entries.len() && same_text(self.entries[k].0.as_str(), x) {
            proof {
                assert(self.key(k as int) == x@);
                self.lemma_entry(k as int);
            }
            Some(&self.entries[k].1)
        } else {
            None
        }
    }

    /// Puts the value under the key.
    pub fn insert(&mut self, x: String, v: V)
        requires
            old(self).wf(),
        ensures
            final(self).wf(),
            final(self)@ == old(self)@.insert(x@, v),
    {
        let k = self.place(x.as_str());
        let ghost t = x@;
        let ghost before = *self;
        if k < self.entries.len() && same_text(self.entries[k].0.as_str(), x.as_str()) {
            self.entries.set(k, (x, v));
            proof {
                assert forall|i: int| 0 <= i < self.entries@.len() implies #[trigger] self.key(i)
                    == before.key(i) by {}
                assert(self.wf());
                assert forall|q: Seq<char>|
                    #![trigger self@.dom().contains(q)]
                    self@.dom().contains(q) == before@.insert(t, v).dom().contains(q) && (
                    self@.dom().contains(q) ==> self@[q] == before@.insert(t, v)[q]) by {
                    assert(self.key(k as int) == t);
                    if self@.dom().contains(q) {
                        let i = self.index(q);
                        assert(self.key(i) == q);
                        assert(before.key(i) == q);
                        self.lemma_entry(i);
                        before.lemma_entry(i);
                        if i == k {
                            assert(q == t);
                        } else {
                            lemma_text_order_total(q, t);
                            assert(q != t) by {
                                if i < k {
                                    assert(text_before(self.key(i), self.key(k as int)));
                                } else {
                                    assert(text_before(self.key(k as int), self.key(i)));
                                }
                            }
                        }
                    } else if before@.dom().contains(q) {
                        let i = before.index(q);
                        assert(before.key(i) == q);
                        assert(self.key(i) == q);
                        self.lemma_entry(i);
                    } else if q == t {
                        self.lemma_entry(k as int);
                    }
                }
                assert(self@ =~= before@.insert(t, v));
            }
        } else {
            self.entries.insert(k, (x, v));
            proof {
                assert forall|i: int| 0 <= i < self.entries@.len() implies #[trigger] self.key(i)
                    == (if i < k {
                    before.key(i)
                } else if i == k {
                    t
                } else {
                    before.key(i - 1)
                }) by {}
                assert(self.wf()) by {
                    assert forall|i: int, j: int|
                        0 <= i < j < self.entries@.len() implies text_before(
                        #[trigger] self.key(i),
                        #[trigger] self.key(j),
                    ) by {
                        if i < k && j < k {
                            assert(text_before(before.key(i), before.key(j)));
                        } else if i < k && j > k {
                            assert(text_before(before.key(i), before.key(j - 1)));
                        } else if i > k {
                            assert(text_before(before.key(i - 1), before.key(j - 1)));
                        } else if i == k {
                            assert(before.key(j - 1) == t || text_before(t, before.key(j - 1)));
                            if before.key(j - 1) == t {
                                before.lemma_entry(j - 1);
                            }
                        }
                    }
                }
                assert forall|q: Seq<char>|
                    #![trigger self@.dom().contains(q)]
                    self@.dom().contains(q) == before@.insert(t, v).dom().contains(q) && (
                    self@.dom().contains(q) ==> self@[q] == before@.insert(t, v)[q]) by {
                    self.lemma_entry(k as int);
                    if self@.dom().contains(q) && q != t {
                        let i = self.index(q);
                        assert(self.key(i) == q);
                        self.lemma_entry(i);
                        if i < k {
                            before.lemma_entry(i);
                        } else {
                            before.lemma_entry(i - 1);
                        }
                    }
                    if before@.dom().contains(q) {
                        let i = before.index(q);
                        assert(before.key(i) == q);
                        before.lemma_entry(i);
                        if i < k {
                            assert(self.key(i) == q);
                            self.lemma_entry(i);
                        } else {
                            assert(self.key(i + 1) == q);
                            self.lemma_entry(i + 1);
                        }
                    }
                }
                assert(self@ =~= before@.insert(t, v));
            }
        }
    }

    /// Takes the key out.
    pub fn remove(&mut self, x: &str)
        requires
            old(self).wf(),
        ensures
            final(self).wf(),
            final(self)@ == old(self)@.remove(x@),
    {
        let k = self.place(x);
        let ghost before = *self;
        if k < self.entries.len() && same_text(self.entries[k].0.as_str(), x) {
            let _gone = self.entries.remove(k);
            proof {
                assert forall|i: int| 0 <= i < self.entries@.len() implies #[trigger] self.key(i)
                    == (if i < k {
                    before.key(i)
                } else {
                    before.key(i + 1)
                }) by {}
                assert(self.wf()) by {
                    assert forall|i: int, j: int|
                        0 <= i < j < self.entries@.len() implies text_before(
                        #[trigger] self.key(i),
                        #[trigger] self.key(j),
                    ) by {
                        let a = if i < k {
                            i
                        } else {
                            i + 1
                        };
                        let b = if j < k {
                            j
                        } else {
                            j + 1
                        };
                        assert(text_before(before.key(a), before.key(b)));
                    }
                }
                assert forall|q: Seq<char>|
                    #![trigger self@.dom().contains(q)]
                    self@.dom().contains(q) == before@.remove(x@).dom().contains(q) && (
                    self@.dom().contains(q) ==> self@[q] == before@.remove(x@)[q]) by {
                    assert(before.key(k as int) == x@);
                    if self@.dom().contains(q) {
                        let i = self.index(q);
                        assert(self.key(i) == q);
                        self.lemma_entry(i);
                        lemma_text_order_total(q, x@);
                        if i < k {
                            before.lemma_entry(i);
                            assert(text_before(before.key(i), before.key(k as int)));
                        } else {
                            before.lemma_entry(i + 1);
                            assert(text_before(before.key(k as int), before.key(i + 1)));
                        }
                    }
                    if before@.dom().contains(q) && q != x@ {
                        let i = before.index(q);
                        assert(before.key(i) == q);
                        before.lemma_entry(i);
                        if i < k {
                            assert(self.key(i) == q);
                            self.lemma_entry(i);
                        } else {
                            assert(self.key(i - 1) == q);
                            self.lemma_entry(i - 1);
                        }
                    }
                }
                assert(self@ =~= before@.remove(x@));
            }
        } else {
            assert(self@ =~= before@.remove(x@));
        }
    }
}

/// A map from numbers to values, in ascending order of the numbers.
#[derive(Debug)]
pub struct IdMap<V> {
    pub entries: Vec<(u64, V)>,
}

impl<V> View for IdMap<V> {
    type V = Map<u64, V>;

    open spec fn view(&self) -> Map<u64, V> {
        Map::new(
            |k: u64| exists|i: int| 0 <= i < self.entries@.len() && self.key(i) == k,
            |k: u64| self.entries@[self.index(k)].1,
        )
    }
}

impl<V> IdMap<V> {
    /// The `i`-th key.
    pub open spec fn key(&self, i: int) -> u64 {
        self.entries@[i].0
    }

    /// All keys, in order.
    pub open spec fn keys(&self) -> Seq<u64> {
        self.entries@.map_values(|e: (u64, V)| e.0)
    }

    /// Where the key stands.
    pub open spec fn index(&self, k: u64) -> int {
        choose|i: int| 0 <= i < self.entries@.len() && self.key(i) == k
    }

    /// The keys go up, so none occurs twice.
    pub open spec fn wf(&self) -> bool {
        forall|i: int, j: int|
            0 <= i < j < self.entries@.len() ==> #[trigger] self.key(i) < #[trigger] self.key(j)
    }

    /// Entry `i` is what the map holds under its key.
    pub proof fn lemma_entry(&self, i: int)
        requires
            self.wf(),
            0 <= i < self.entries@.len(),
        ensures
            self@.dom().contains(self.key(i)),
            self@[self.key(i)] == self.entries@[i].1,
    {
        let k = self.key(i);
        let j = self.index(k);
        assert(0 <= j < self.entries@.len() && self.key(j) == k);
        if i < j {
            assert(self.key(i) < self.key(j));
        }
        if j < i {
            assert(self.key(j) < self.key(i));
        }
    }

    /// The empty map.
    pub fn new() -> (m: IdMap<V>)
        ensures
            m.wf(),
            m@ == Map::<u64, V>::empty(),
    {
        let m: IdMap<V> = IdMap { entries: Vec::new() };
        assert(m@ =~= Map::<u64, V>::empty());
        m
    }

    /// Where the key stands or belongs.
    fn place(&self, x: u64) -> (k: usize)
        requires
            self.wf(),
        ensures
            k <= self.entries@.len(),
            forall|i: int| 0 <= i < k ==> #[trigger] self.key(i) < x,
            forall|i: int| k <= i < self.entries@.len() ==> #[trigger] self.key(i) >= x,
            self@.dom().contains(x) <==> (k < self.entries@.len() && self.key(k as int) == x),
    {
        let mut lo: usize = 0;
        let mut hi: usize = self.entries.len();
        while lo < hi
            invariant
                lo <= hi <= self.entries@.len(),
                self.wf(),
                forall|i: int| 0 <= i < lo ==> #[trigger] self.key(i) < x,
                forall|i: int| hi <= i < self.entries@.len() ==> #[trigger] self.key(i) >= x,
            decreases hi - lo,
        {
            let mid: usize = lo + (hi - lo) / 2;
            assert(self.key(mid as int) == self.entries@[mid as int].0);
            if self.entries[mid].0 < x {
                lo = mid + 1;
            } else {
                hi = mid;
            }
        }
        proof {
            if self@.dom().contains(x) {
                let j = choose|j: int| 0 <= j < self.entries@.len() && self.key(j) == x;
                assert(self.key(j) == x);
                if j > lo {
                    assert(self.key(lo as int) < self.key(j));
                }
            }
            if lo < self.entries@.len() && self.key(lo as int) == x {
                self.lemma_entry(lo as int);
            }
        }
        lo
    }

    /// The value under the key.
    pub fn get(&self, x: u64) -> (r: Option<&V>)
        requires
            self.wf(),
        ensures
            match r {
                Some(v) => self@.dom().contains(x) && *v == self@[x],
                None => !self@.dom().contains(x),
            },
    {
        let k = self.place(x);
        if k < self.entries.len() && self.entries[k].0 == x {
            proof {
                assert(self.key(k as int) == x);
                self.lemma_entry(k as int);
            }
            Some(&self.entries[k].1)
        } else {
            None
        }
    }

    /// Puts the value under the key.
    pub fn insert(&mut self, x: u64, v: V)
        requires
            old(self).wf(),
        ensures
            final(self).wf(),
            final(self)@ == old(self)@.insert(x, v),
    {
        let k = self.place(x);
        let ghost before = *self;
        if k < self.entries.len() && self.entries[k].0 == x {
            self.entries.set(k, (x, v));
            proof {
                assert forall|i: int| 0 <= i < self.entries@.len() implies #[trigger] self.key(i)
                    == before.key(i) by {}
                assert(self.wf());
                assert forall|q: u64|
                    #![trigger self@.dom().contains(q)]
                    self@.dom().contains(q) == before@.insert(x, v).dom().contains(q) && (
                    self@.dom().contains(q) ==> self@[q] == before@.insert(x, v)[q]) by {
                    assert(self.key(k as int) == x);
                    if self@.dom().contains(q) {
                        let i = self.index(q);
                        assert(self.key(i) == q);
                        assert(before.key(i) == q);
                        self.lemma_entry(i);
                        before.lemma_entry(i);
                        if i < k {
                            assert(self.key(i) < self.key(k as int));
                        } else if i > k {
                            assert(self.key(k as int) < self.key(i));
                        }
                    } else if before@.dom().contains(q) {
                        let i = before.index(q);
                        assert(before.key(i) == q);
                        assert(self.key(i) == q);
                        self.lemma_entry(i);
                    } else if q == x {
                        self.lemma_entry(k as int);
                    }
                }
                assert(self@ =~= before@.insert(x, v));
            }
        } else {
            self.entries.insert(k, (x, v));
            proof {
                assert forall|i: int| 0 <= i < self.entries@.len() implies #[trigger] self.key(i)
                    == (if i < k {
                    before.key(i)
                } else if i == k {
                    x
                } else {
                    before.key(i - 1)
                }) by {}
                assert(self.wf()) by {
                    assert forall|i: int, j: int|
                        0 <= i < j < self.entries@.len() implies #[trigger] self.key(i)
                        < #[trigger] self.key(j) by {
                        if i < k && j < k {
                            assert(before.key(i) < before.key(j));
                        } else if i < k && j > k {
                            assert(before.key(i) < before.key(j - 1));
                        } else if i > k {
                            assert(before.key(i - 1) < before.key(j - 1));
                        } else if i == k {
                            assert(before.key(j - 1) >= x);
                            if before.key(j - 1) == x {
                                before.lemma_entry(j - 1);
                            }
                        }
                    }
                }
                assert forall|q: u64|
                    #![trigger self@.dom().contains(q)]
                    self@.dom().contains(q) == before@.insert(x, v).dom().contains(q) && (
                    self@.dom().contains(q) ==> self@[q] == before@.insert(x, v)[q]) by {
                    self.lemma_entry(k as int);
                    if self@.dom().contains(q) && q != x {
                        let i = self.index(q);
                        assert(self.key(i) == q);
                        self.lemma_entry(i);
                        if i < k {
                            before.lemma_entry(i);
                        } else {
                            before.lemma_entry(i - 1);
                        }
                    }
                    if before@.dom().contains(q) {
                        let i = before.index(q);
                        assert(before.key(i) == q);
                        before.lemma_entry(i);
                        if i < k {
                            assert(self.key(i) == q);
                            self.lemma_entry(i);
                        } else {
                            assert(self.key(i + 1) == q);
                            self.lemma_entry(i + 1);
                        }
                    }
                }
                assert(self@ =~= before@.insert(x, v));
            }
        }
    }

    /// The keys in ascending order.
    pub fn ids(&self) -> (out: Vec<u64>)
        requires
            self.wf(),
        ensures
            out@ == self.keys(),
            lists(out@, self@.dom()),
    {
        let mut out: Vec<u64> = Vec::new();
        let mut i: usize = 0;
        while i < self.entries.len()
            invariant
                i <= self.entries@.len(),
                out@.len() == i,
                forall|k: int| 0 <= k < i ==> #[trigger] out@[k] == self.key(k),
            decreases self.entries@.len() - i,
        {
            out.push(self.entries[i].0);
            i += 1;
        }
        proof {
            assert(out@ =~= self.keys());
            assert forall|i: int, j: int| 0 <= i < j < out@.len() implies out@[i] < out@[j] by {
                assert(self.key(i) < self.key(j));
            }
            assert forall|x: u64| out@.contains(x) <==> self@.dom().contains(x) by {
                if out@.contains(x) {
                    let k = choose|k: int| 0 <= k < out@.len() && out@[k] == x;
                    self.lemma_entry(k);
                }
                if self@.dom().contains(x) {
                    let k = self.index(x);
                    assert(self.key(k) == x);
                    assert(out@[k] == x);
                }
            }
        }
        out
    }
}

impl<V> IdMap<V> {
    /// Takes the key out, and gives what stood under it.
    pub fn remove(&mut self, x: u64) -> (r: Option<V>)
        requires
            old(self).wf(),
        ensures
            final(self).wf(),
            final(self)@ == old(self)@.remove(x),
            match r {
                Some(v) => old(self)@.dom().contains(x) && v == old(self)@[x],
                None => !old(self)@.dom().contains(x),
            },
    {
        let k = self.place(x);
        let ghost before = *self;
        if k < self.entries.len() && self.entries[k].0 == x {
            proof {
                assert(before.key(k as int) == x);
                before.lemma_entry(k as int);
            }
            let gone = self.entries.remove(k);
            proof {
                assert forall|i: int| 0 <= i < self.entries@.len() implies #[trigger] self.key(i)
                    == (if i < k {
                    before.key(i)
                } else {
                    before.key(i + 1)
                }) by {}
                assert(self.wf()) by {
                    assert forall|i: int, j: int| 0 <= i < j < self.entries@.len() implies (
                    #[trigger] self.key(i)) < #[trigger] self.key(j) by {
                        let a = if i < k {
                            i
                        } else {
                            i + 1
                        };
                        let b = if j < k {
                            j
                        } else {
                            j + 1
                        };
                        assert(before.key(a) < before.key(b));
                    }
                }
                assert forall|q: u64|
                    #![trigger self@.dom().contains(q)]
                    self@.dom().contains(q) == before@.remove(x).dom().contains(q) && (
                    self@.dom().contains(q) ==> self@[q] == before@.remove(x)[q]) by {
                    if self@.dom().contains(q) {
                        let i = self.index(q);
                        assert(self.key(i) == q);
                        self.lemma_entry(i);
                        if i < k {
                            before.lemma_entry(i);
                            assert(before.key(i) < before.key(k as int));
                        } else {
                            before.lemma_entry(i + 1);
                            assert(before.key(k as int) < before.key(i + 1));
                        }
                    }
                    if before@.dom().contains(q) && q != x {
                        let i = before.index(q);
                        assert(before.key(i) == q);
                        before.lemma_entry(i);
                        if i < k {
                            assert(self.key(i) == q);
                            self.lemma_entry(i);
                        } else {
                            assert(self.key(i - 1) == q);
                            self.lemma_entry(i - 1);
                        }
                    }
                }
                assert(self@ =~= before@.remove(x));
            }
            Some(gone.1)
        } else {
            assert(self@ =~= before@.remove(x));
            None
        }
    }

    /// The largest key.
    pub fn last_key(&self) -> (r: Option<u64>)
        requires
            self.wf(),
        ensures
            match r {
                Some(k) => self@.dom().contains(k) && forall|q: u64| #[trigger]
                    self@.dom().contains(q) ==> q <= k,
                None => self@ == Map::<u64, V>::empty(),
            },
    {
        let n: usize = self.entries.len();
        if n == 0 {
            assert(self@ =~= Map::<u64, V>::empty());
            return None;
        }
        proof {
            self.lemma_entry(n - 1);
            assert forall|q: u64| #[trigger] self@.dom().contains(q) implies q <= self.key(
                n - 1,
            ) by {
                let i = self.index(q);
                assert(self.key(i) == q);
                if i < n - 1 {
                    assert(self.key(i) < self.key(n - 1));
                }
            }
        }
        Some(self.entries[n - 1].0)
    }
}

impl<V> TextMap<V> {
    /// Keeps the entries with these keys.
    pub fn restrict(self, keep: &Vec<String>) -> (m: TextMap<V>)
        requires
            self.wf(),
        ensures
            m.wf(),
            m@ == self@.restrict(Set::new(|k: Seq<char>| text_views(keep@).contains(k))),
    {
        let ghost kept = text_views(keep@);
        let ghost whole = self;
        let all = self.entries;
        let mut out: Vec<(String, V)> = Vec::new();
        let ghost mut from: Seq<int> = Seq::empty();
        for e in it: all
            invariant
                it.seq() == all@,
                all == whole.entries,
                kept == text_views(keep@),
                from.len() == out@.len(),
                forall|k: int|
                    0 <= k < from.len() ==> 0 <= #[trigger] from[k] < it.index() && out@[k]
                        == all@[from[k]] && kept.contains(all@[from[k]].0@),
                forall|a: int, b: int|
                    0 <= a < b < from.len() ==> #[trigger] from[a] < #[trigger] from[b],
                forall|i: int|
                    0 <= i < it.index() && kept.contains((#[trigger] all@[i]).0@)
                        ==> from.contains(i),
        {
            let ghost n = it.index() as int;
            let ghost before_from = from;
            if holds_text(keep, e.0.as_str()) {
                out.push(e);
                proof {
                    from = from.push(n);
                    assert forall|i: int|
                        0 <= i < n + 1 && kept.contains((#[trigger] all@[i]).0@) implies
                        from.contains(i) by {
                        if i < n {
                            let k = choose|k: int|
                                0 <= k < before_from.len() && before_from[k] == i;
                            assert(from[k] == i);
                        } else {
                            assert(from[before_from.len() as int] == n);
                        }
                    }
                }
            }
        }
        let m: TextMap<V> = TextMap { entries: out };
        proof {
            assert forall|k: int| 0 <= k < m.entries@.len() implies #[trigger] m.key(k)
                == whole.key(from[k]) by {
                assert(m.entries@[k] == all@[from[k]]);
            }
            assert(m.wf()) by {
                assert forall|i: int, j: int| 0 <= i < j < m.entries@.len() implies text_before(
                    #[trigger] m.key(i),
                    #[trigger] m.key(j),
                ) by {
                    assert(from[i] < from[j]);
                    assert(text_before(whole.key(from[i]), whole.key(from[j])));
                }
            }
            let goal = whole@.restrict(Set::new(|k: Seq<char>| kept.contains(k)));
            assert forall|q: Seq<char>|
                #![trigger m@.dom().contains(q)]
                m@.dom().contains(q) == goal.dom().contains(q) && (m@.dom().contains(q) ==> m@[q]
                    == goal[q]) by {
                if m@.dom().contains(q) {
                    let k = m.index(q);
                    assert(m.key(k) == q);
                    m.lemma_entry(k);
                    whole.lemma_entry(from[k]);
                }
                if goal.dom().contains(q) {
                    let i = whole.index(q);
                    assert(whole.key(i) == q);
                    assert(kept.contains(all@[i].0@));
                    let k = choose|k: int| 0 <= k < from.len() && from[k] == i;
                    assert(m.key(k) == q);
                    m.lemma_entry(k);
                }
            }
            assert(m@ =~= goal);
        }
        m
    }

    /// The keys, in ascending order.
    pub fn names(&self) -> (out: Vec<String>)
        requires
            self.wf(),
        ensures
            texts_increase(text_views(out@)),
            forall|x: Seq<char>| #[trigger]
                text_views(out@).contains(x) <==> self@.dom().contains(x),
    {
        let mut out: Vec<String> = Vec::new();
        let mut i: usize = 0;
        while i < self.entries.len()
            invariant
                i <= self.entries@.len(),
                out@.len() == i,
                forall|k: int| 0 <= k < i ==> (#[trigger] out@[k])@ == self.key(k),
            decreases self.entries@.len() - i,
        {
            out.push(self.entries[i].0.clone());
            i += 1;
        }
        proof {
            let s = text_views(out@);
            assert forall|i: int, j: int| 0 <= i < j < s.len() implies text_before(
                #[trigger] s[i],
                #[trigger] s[j],
            ) by {
                assert(out@[i]@ == self.key(i) && out@[j]@ == self.key(j));
                assert(text_before(self.key(i), self.key(j)));
            }
            assert forall|x: Seq<char>| #[trigger] s.contains(x) <==> self@.dom().contains(x) by {
                if s.contains(x) {
                    let k = choose|k: int| 0 <= k < s.len() && s[k] == x;
                    assert(out@[k]@ == self.key(k));
                    self.lemma_entry(k);
                }
                if self@.dom().contains(x) {
                    let k = self.index(x);
                    assert(self.key(k) == x);
                    assert(s[k] == out@[k]@);
                }
            }
        }
        out
    }
}

impl TextMap<u64> {
    /// A copy of the entries.
    pub fn copy_entries(&self) -> (out: Vec<(String, u64)>)
        ensures
            out@.len() == self.entries@.len(),
            forall|k: int|
                0 <= k < out@.len() ==> (#[trigger] out@[k]).0@ == self.entries@[k].0@
                    && out@[k].1 == self.entries@[k].1,
    {
        let mut out: Vec<(String, u64)> = Vec::new();
        let mut i: usize = 0;
        while i < self.entries.len()
            invariant
                i <= self.entries@.len(),
                out@.len() == i,
                forall|k: int|
                    0 <= k < i ==> (#[trigger] out@[k]).0@ == self.entries@[k].0@ && out@[k].1
                        == self.entries@[k].1,
            decreases self.entries@.len() - i,
        {
            out.push((self.entries[i].0.clone(), self.entries[i].1));
            i += 1;
        }
        out
    }

    /// A copy of the map.
    pub fn copy(&self) -> (m: TextMap<u64>)
        requires
            self.wf(),
        ensures
            m.wf(),
            m@ == self@,
    {
        let m: TextMap<u64> = TextMap { entries: self.copy_entries() };
        proof {
            assert forall|k: int| 0 <= k < m.entries@.len() implies #[trigger] m.key(k)
                == self.key(k) by {
                assert(m.entries@[k].0@ == self.entries@[k].0@);
            }
            assert(m.wf()) by {
                assert forall|i: int, j: int| 0 <= i < j < m.entries@.len() implies text_before(
                    #[trigger] m.key(i),
                    #[trigger] m.key(j),
                ) by {
                    assert(text_before(self.key(i), self.key(j)));
                }
            }
            assert forall|q: Seq<char>|
                #![trigger m@.dom().contains(q)]
                m@.dom().contains(q) == self@.dom().contains(q) && (m@.dom().contains(q) ==> m@[q]
                    == self@[q]) by {
                if m@.dom().contains(q) {
                    let k = m.index(q);
                    assert(m.key(k) == q);
                    m.lemma_entry(k);
                    self.lemma_entry(k);
                }
                if self@.dom().contains(q) {
                    let k = self.index(q);
                    assert(self.key(k) == q);
                    assert(m.key(k) == q);
                    m.lemma_entry(k);
                }
            }
            assert(m@ =~= self@);
        }
        m
    }

    /// True if every entry is also in the other map.
    fn is_within(&self, other: &TextMap<u64>) -> (r: bool)
        requires
            self.wf(),
            other.wf(),
        ensures
            r <==> forall|q: Seq<char>| #[trigger]
                self@.dom().contains(q) ==> other@.dom().contains(q) && other@[q] == self@[q],
    {
        let mut i: usize = 0;
        while i < self.entries.len()
            invariant
                i <= self.entries@.len(),
                self.wf(),
                other.wf(),
                forall|k: int|
                    0 <= k < i ==> other@.dom().contains(#[trigger] self.key(k))
                        && other@[self.key(k)] == self.entries@[k].1,
            decreases self.entries@.len() - i,
        {
            proof {
                self.lemma_entry(i as int);
            }
            match other.get(self.entries[i].0.as_str()) {
                Some(v) => {
                    if *v != self.entries[i].1 {
                        return false;
                    }
                },
                None => {
                    return false;
                },
            }
            i += 1;
        }
        proof {
            assert forall|q: Seq<char>| #[trigger] self@.dom().contains(q) implies other@.dom().contains(
                q,
            ) && other@[q] == self@[q] by {
                let k = self.index(q);
                assert(self.key(k) == q);
                self.lemma_entry(k);
            }
        }
        true
    }

    /// True if both maps hold the same.
    pub fn same(&self, other: &TextMap<u64>) -> (r: bool)
        requires
            self.wf(),
            other.wf(),
        ensures
            r == (self@ == other@),
    {
        let r = self.is_within(other) && other.is_within(self);
        proof {
            if r {
                assert(self@ =~= other@);
            }
        }
        r
    }
}

impl IdMap<u64> {
    /// A copy of the map.
    pub fn copy(&self) -> (m: IdMap<u64>)
        requires
            self.wf(),
        ensures
            m.wf(),
            m@ == self@,
    {
        let mut m: IdMap<u64> = IdMap { entries: Vec::new() };
        let mut i: usize = 0;
        while i < self.entries.len()
            invariant
                i <= self.entries@.len(),
                m.entries@ == self.entries@.take(i as int),
            decreases self.entries@.len() - i,
        {
            m.entries.push(self.entries[i]);
            proof {
                assert(self.entries@.take(i + 1) =~= self.entries@.take(i as int).push(
                    self.entries@[i as int],
                ));
            }
            i += 1;
        }
        proof {
            assert(m.entries@ =~= self.entries@);
            assert forall|k: int| #[trigger] m.key(k) == self.key(k) by {}
            assert(m.wf()) by {
                assert forall|i: int, j: int| 0 <= i < j < m.entries@.len() implies #[trigger] m.key(
                    i,
                ) < #[trigger] m.key(j) by {
                    assert(self.key(i) < self.key(j));
                }
            }
            assert forall|q: u64|
                #![trigger m@.dom().contains(q)]
                m@.dom().contains(q) == self@.dom().contains(q) && (m@.dom().contains(q) ==> m@[q]
                    == self@[q]) by {
                if m@.dom().contains(q) {
                    let k = m.index(q);
                    assert(m.key(k) == q);
                    m.lemma_entry(k);
                    self.lemma_entry(k);
                }
                if self@.dom().contains(q) {
                    let k = self.index(q);
                    assert(self.key(k) == q);
                    assert(m.key(k) == q);
                    m.lemma_entry(k);
                }
            }
            assert(m@ =~= self@);
        }
        m
    }

    /// True if every entry is also in the other map.
    fn is_within(&self, other: &IdMap<u64>) -> (r: bool)
        requires
            self.wf(),
            other.wf(),
        ensures
            r <==> forall|q: u64| #[trigger]
                self@.dom().contains(q) ==> other@.dom().contains(q) && other@[q] == self@[q],
    {
        let mut i: usize = 0;
        while i < self.entries.len()
            invariant
                i <= self.entries@.len(),
                self.wf(),
                other.wf(),
                forall|k: int|
                    0 <= k < i ==> other@.dom().contains(#[trigger] self.key(k))
                        && other@[self.key(k)] == self.entries@[k].1,
            decreases self.entries@.len() - i,
        {
            proof {
                self.lemma_entry(i as int);
            }
            match other.get(self.entries[i].0) {
                Some(v) => {
                    if *v != self.entries[i].1 {
                        return false;
                    }
                },
                None => {
                    return false;
                },
            }
            i += 1;
        }
        proof {
            assert forall|q: u64| #[trigger] self@.dom().contains(q) implies other@.dom().contains(
                q,
            ) && other@[q] == self@[q] by {
                let k = self.index(q);
                assert(self.key(k) == q);
                self.lemma_entry(k);
            }
        }
        true
    }

    /// True if both maps hold the same.
    pub fn same(&self, other: &IdMap<u64>) -> (r: bool)
        requires
            self.wf(),
            other.wf(),
        ensures
            r == (self@ == other@),
    {
        let r = self.is_within(other) && other.is_within(self);
        proof {
            if r {
                assert(self@ =~= other@);
            }
        }
        r
    }
}


/// What is put under a name is found under it, and nothing else changes.
pub proof fn law_text_map_finds_what_was_put<V>(
    this: &mut TextMap<V>,
    x: String,
    v: V,
    y: &str,
    before: Option<&V>,
    after: Option<&V>,
)
    requires
        call_ensures(TextMap::<V>::get, (old(this), y), before),
        call_ensures(TextMap::<V>::insert, (this, x, v), ()),
        call_ensures(TextMap::<V>::get, (final(this), y), after),
    ensures
        y@ == x@ ==> after == Some(&v),
        y@ != x@ ==> (after is Some <==> before is Some),
        y@ != x@ ==> (before matches Some(b) ==> (after matches Some(a) && *a == *b)),
{
}

/// What is taken away is found no longer, and nothing else changes.
pub proof fn law_text_map_forgets_what_was_removed<V>(
    this: &mut TextMap<V>,
    x: &str,
    y: &str,
    before: Option<&V>,
    after: Option<&V>,
)
    requires
        call_ensures(TextMap::<V>::get, (old(this), y), before),
        call_ensures(TextMap::<V>::remove, (this, x), ()),
        call_ensures(TextMap::<V>::get, (final(this), y), after),
    ensures
        y@ == x@ ==> after is None,
        y@ != x@ ==> (after is Some <==> before is Some),
        y@ != x@ ==> (before matches Some(b) ==> (after matches Some(a) && *a == *b)),
{
}

/// A name is found exactly where an entry has it, with the value of that entry.
pub proof fn law_text_map_finds_its_entries<V>(m: TextMap<V>, x: &str, r: Option<&V>, i: int)
    requires
        m.wf(),
        call_ensures(TextMap::<V>::get, (&m, x), r),
    ensures
        0 <= i < m.entries@.len() && m.entries@[i].0@ == x@ ==> (r matches Some(v) && *v
            == m.entries@[i].1),
        r is Some ==> exists|k: int| 0 <= k < m.entries@.len() && (#[trigger] m.entries@[k]).0@
            == x@,
{
    if 0 <= i < m.entries@.len() && m.entries@[i].0@ == x@ {
        m.lemma_entry(i);
        assert(m.key(i) == x@);
    }
    if r is Some {
        let k = m.index(x@);
        assert(0 <= k < m.entries@.len() && m.key(k) == x@);
        assert(m.entries@[k].0@ == x@);
    }
}

/// The same of numbers: what is put under one is found, what is taken away is handed back
/// and found no longer.
pub proof fn law_id_map_finds_what_was_put<V>(
    this: &mut IdMap<V>,
    x: u64,
    v: V,
    y: u64,
    before: Option<&V>,
    after: Option<&V>,
)
    requires
        call_ensures(IdMap::<V>::get, (old(this), y), before),
        call_ensures(IdMap::<V>::insert, (this, x, v), ()),
        call_ensures(IdMap::<V>::get, (final(this), y), after),
    ensures
        y == x ==> after == Some(&v),
        y != x ==> (after is Some <==> before is Some),
        y != x ==> (before matches Some(b) ==> (after matches Some(a) && *a == *b)),
{
}

/// What is taken away is handed back.
pub proof fn law_id_map_hands_back_what_was_removed<V>(
    this: &mut IdMap<V>,
    x: u64,
    y: u64,
    before: Option<&V>,
    removed: Option<V>,
    after: Option<&V>,
)
    requires
        call_ensures(IdMap::<V>::get, (old(this), y), before),
        call_ensures(IdMap::<V>::remove, (this, x), removed),
        call_ensures(IdMap::<V>::get, (final(this), y), after),
    ensures
        y == x ==> after is None && (removed is Some <==> before is Some),
        y == x ==> (before matches Some(b) ==> (removed matches Some(v) && v == *b)),
        y != x ==> (after is Some <==> before is Some),
        y != x ==> (before matches Some(b) ==> (after matches Some(a) && *a == *b)),
{
}

/// A number is found exactly where an entry has it, with the value of that entry.
pub proof fn law_id_map_finds_its_entries<V>(m: IdMap<V>, x: u64, r: Option<&V>, i: int)
    requires
        m.wf(),
        call_ensures(IdMap::<V>::get, (&m, x), r),
    ensures
        0 <= i < m.entries@.len() && m.entries@[i].0 == x ==> (r matches Some(v) && *v
            == m.entries@[i].1),
        r is Some ==> exists|k: int| 0 <= k < m.entries@.len() && (#[trigger] m.entries@[k]).0
            == x,
{
    if 0 <= i < m.entries@.len() && m.entries@[i].0 == x {
        m.lemma_entry(i);
        assert(m.key(i) == x);
    }
    if r is Some {
        let k = m.index(x);
        assert(0 <= k < m.entries@.len() && m.key(k) == x);
        assert(m.entries@[k].0 == x);
    }
}

} // verus!
