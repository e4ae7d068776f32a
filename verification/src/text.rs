//! Text building: decimal numbers and concatenation.

use vstd::prelude::*;

verus! {

/// The character of one decimal digit.
pub open spec fn digit_char(d: nat) -> char {
    (48 + d) as char
}

/// Decimal notation without sign or leading zeros.
pub open spec fn decimal_text(n: nat) -> Seq<char>
    decreases n,
{
    if n < 10 {
        seq![digit_char(n)]
    } else {
        decimal_text(n / 10).push(digit_char(n % 10))
    }
}

fn digit(d: u128) -> (s: &'static str)
    requires
        d < 10,
    ensures
        s@ == seq![digit_char(d as nat)],
{
    proof {
        reveal_strlit("0");
        reveal_strlit("1");
        reveal_strlit("2");
        reveal_strlit("3");
        reveal_strlit("4");
        reveal_strlit("5");
        reveal_strlit("6");
        reveal_strlit("7");
        reveal_strlit("8");
        reveal_strlit("9");
    }
    if d == 0 {
        "0"
    } else if d == 1 {
        "1"
    } else if d == 2 {
        "2"
    } else if d == 3 {
        "3"
    } else if d == 4 {
        "4"
    } else if d == 5 {
        "5"
    } else if d == 6 {
        "6"
    } else if d == 7 {
        "7"
    } else if d == 8 {
        "8"
    } else {
        "9"
    }
}

/// `n` in decimal notation.
pub fn decimal_wide(n: u128) -> (s: String)
    ensures
        s@ == decimal_text(n as nat),
    decreases n,
{
    if n < 10 {
        String::from_str(digit(n))
    } else {
        let mut s = decimal_wide(n / 10);
        s.append(digit(n % 10));
        proof {
            assert(decimal_text(n as nat / 10) + seq![digit_char(n as nat % 10)] =~= decimal_text(
                n as nat / 10,
            ).push(digit_char(n as nat % 10)));
        }
        s
    }
}

/// `n` in decimal notation.
pub fn decimal(n: u64) -> (s: String)
    ensures
        s@ == decimal_text(n as nat),
{
    decimal_wide(n as u128)
}

/// The numbers from the `n`-th on, each behind a comma.
pub open spec fn list_tail(v: Seq<u64>, n: int) -> Seq<char>
    decreases v.len() - n,
{
    if n < 0 || n >= v.len() {
        Seq::empty()
    } else {
        ", "@ + decimal_text(v[n] as nat) + list_tail(v, n + 1)
    }
}

/// The numbers in brackets, commas between them.
pub open spec fn list_text(v: Seq<u64>) -> Seq<char> {
    if v.len() == 0 {
        "[]"@
    } else {
        "["@ + decimal_text(v[0] as nat) + list_tail(v, 1) + "]"@
    }
}

/// The list of numbers as text.
pub fn list_string(v: &Vec<u64>) -> (s: String)
    ensures
        s@ == list_text(v@),
{
    if v.is_empty() {
        return String::from_str("[]");
    }
    let first = decimal(v[0]);
    let mut s = join2("[", first.as_str());
    let ghost head = s@;
    let mut i: usize = 1;
    proof {
        assert(head + list_tail(v@, 1) =~= s@ + list_tail(v@, i as int));
    }
    while i < v.len()
        invariant
            1 <= i <= v@.len(),
            head + list_tail(v@, 1) == s@ + list_tail(v@, i as int),
        decreases v@.len() - i,
    {
        let n = decimal(v[i]);
        let ghost was = s@;
        s.append(", ");
        s.append(n.as_str());
        proof {
            assert(was + list_tail(v@, i as int) =~= s@ + list_tail(v@, i + 1));
        }
        i += 1;
    }
    proof {
        assert(s@ + list_tail(v@, i as int) =~= s@);
    }
    s.append("]");
    s
}

/// The two texts, one behind the other.
pub fn join2(a: &str, b: &str) -> (s: String)
    ensures
        s@ == a@ + b@,
{
    let mut s = String::from_str(a);
    s.append(b);
    s
}

/// The three texts, one behind the other.
pub fn join3(a: &str, b: &str, c: &str) -> (s: String)
    ensures
        s@ == a@ + b@ + c@,
{
    let mut s = join2(a, b);
    s.append(c);
    s
}

/// The four texts, one behind the other.
pub fn join4(a: &str, b: &str, c: &str, d: &str) -> (s: String)
    ensures
        s@ == a@ + b@ + c@ + d@,
{
    let mut s = join3(a, b, c);
    s.append(d);
    s
}

/// The five texts, one behind the other.
pub fn join5(a: &str, b: &str, c: &str, d: &str, e: &str) -> (s: String)
    ensures
        s@ == a@ + b@ + c@ + d@ + e@,
{
    let mut s = join4(a, b, c, d);
    s.append(e);
    s
}

/// Order of texts: by the first character in which they differ, a text before its
/// extensions.
pub open spec fn text_before(a: Seq<char>, b: Seq<char>) -> bool
    decreases a.len(),
{
    if b.len() == 0 {
        false
    } else if a.len() == 0 {
        true
    } else if a[0] == b[0] {
        text_before(a.skip(1), b.skip(1))
    } else {
        (a[0] as int) < (b[0] as int)
    }
}

/// `<` on `str`: texts are ordered by their bytes, which orders them by the code
/// points of their characters.
#[verifier::external_body]
pub(crate) fn text_less(a: &str, b: &str) -> (r: bool)
    ensures
        r == text_before(a@, b@),
{
    a < b
}

/// Of two texts one comes first, unless they are equal.
pub proof fn lemma_text_order_total(a: Seq<char>, b: Seq<char>)
    ensures
        text_before(a, b) || text_before(b, a) || a == b,
        !(text_before(a, b) && text_before(b, a)),
        text_before(a, b) ==> a != b,
    decreases a.len(),
{
    if a.len() > 0 && b.len() > 0 {
        lemma_text_order_total(a.skip(1), b.skip(1));
        if a[0] == b[0] && a.skip(1) == b.skip(1) {
            assert(a =~= seq![a[0]] + a.skip(1));
            assert(b =~= seq![b[0]] + b.skip(1));
        }
    } else if a.len() == 0 && b.len() == 0 {
        assert(a =~= b);
    }
}

/// What comes before a text comes before all that comes after it.
pub proof fn lemma_text_order_transitive(a: Seq<char>, b: Seq<char>, c: Seq<char>)
    requires
        text_before(a, b),
        text_before(b, c),
    ensures
        text_before(a, c),
    decreases a.len(),
{
    if a.len() > 0 {
        if a[0] == b[0] && b[0] == c[0] {
            lemma_text_order_transitive(a.skip(1), b.skip(1), c.skip(1));
        }
    }
}

/// Texts in ascending order, none twice.
pub open spec fn texts_increase(s: Seq<Seq<char>>) -> bool {
    forall|i: int, j: int| 0 <= i < j < s.len() ==> text_before(#[trigger] s[i], #[trigger] s[j])
}

/// Contents of a list of texts.
pub open spec fn text_views(v: Seq<String>) -> Seq<Seq<char>> {
    v.map_values(|s: String| s@)
}

/// True if the text is in the list.
pub fn holds_text(v: &Vec<String>, x: &str) -> (r: bool)
    ensures
        r == text_views(v@).contains(x@),
{
    let mut i: usize = 0;
    while i < v.len()
        invariant
            i <= v@.len(),
            forall|j: int| 0 <= j < i ==> #[trigger] v@[j]@ != x@,
        decreases v@.len() - i,
    {
        if same_text(v[i].as_str(), x) {
            assert(text_views(v@)[i as int] == x@);
            return true;
        }
        i += 1;
    }
    proof {
        if text_views(v@).contains(x@) {
            let k = choose|k: int| 0 <= k < v@.len() && text_views(v@)[k] == x@;
            assert(v@[k]@ == x@);
        }
    }
    false
}

/// True if both lists hold the same texts in the same order.
pub fn same_texts(a: &Vec<String>, b: &Vec<String>) -> (r: bool)
    ensures
        r == (text_views(a@) == text_views(b@)),
{
    if a.len() != b.len() {
        assert(text_views(a@).len() != text_views(b@).len());
        return false;
    }
    let mut i: usize = 0;
    while i < a.len()
        invariant
            i <= a@.len(),
            a@.len() == b@.len(),
            forall|k: int| 0 <= k < i ==> (#[trigger] a@[k])@ == b@[k]@,
        decreases a@.len() - i,
    {
        if !same_text(a[i].as_str(), b[i].as_str()) {
            assert(text_views(a@)[i as int] != text_views(b@)[i as int]);
            return false;
        }
        i += 1;
    }
    assert(text_views(a@) =~= text_views(b@));
    true
}

/// A copy of the texts.
pub fn copy_texts(v: &Vec<String>) -> (out: Vec<String>)
    ensures
        text_views(out@) == text_views(v@),
{
    let mut out: Vec<String> = Vec::new();
    let mut i: usize = 0;
    while i < v.len()
        invariant
            i <= v@.len(),
            out@.len() == i,
            forall|k: int| 0 <= k < i ==> (#[trigger] out@[k])@ == v@[k]@,
        decreases v@.len() - i,
    {
        out.push(v[i].clone());
        i += 1;
    }
    assert(text_views(out@) =~= text_views(v@));
    out
}

/// The texts of `v` that are (`inside`) or are not in `other`, in the order of `v`.
pub fn select_texts(v: &Vec<String>, other: &Vec<String>, inside: bool) -> (out: Vec<String>)
    ensures
        text_views(out@) == text_views(v@).filter(
            |x: Seq<char>| text_views(other@).contains(x) == inside,
        ),
{
    let ghost all = text_views(v@);
    let ghost keep = |x: Seq<char>| text_views(other@).contains(x) == inside;
    let mut out: Vec<String> = Vec::new();
    let mut i: usize = 0;
    proof {
        reveal(Seq::filter);
        assert(all.take(0) =~= Seq::<Seq<char>>::empty());
        assert(text_views(out@) =~= Seq::<Seq<char>>::empty());
    }
    while i < v.len()
        invariant
            i <= v@.len(),
            all == text_views(v@),
            keep == (|x: Seq<char>| text_views(other@).contains(x) == inside),
            text_views(out@) == all.take(i as int).filter(keep),
        decreases v@.len() - i,
    {
        proof {
            reveal(Seq::filter);
            assert(all.take(i + 1).drop_last() =~= all.take(i as int));
            assert(all.take(i + 1).last() == v@[i as int]@);
        }
        if holds_text(other, v[i].as_str()) == inside {
            let ghost was = out@;
            let name = v[i].clone();
            out.push(name);
            assert(text_views(out@) =~= text_views(was).push(name@));
        }
        i += 1;
    }
    proof {
        assert(all.take(all.len() as int) =~= all);
    }
    out
}

/// True if the texts are equal.
pub fn same_text(a: &str, b: &str) -> (r: bool)
    ensures
        r == (a@ == b@),
{
    proof {
        lemma_text_order_total(a@, b@);
    }
    !text_less(a, b) && !text_less(b, a)
}

/// The texts of `v`, each once, in ascending order.
pub fn distinct_texts(v: Vec<String>) -> (out: Vec<String>)
    ensures
        texts_increase(text_views(out@)),
        forall|x: Seq<char>| #[trigger]
            text_views(out@).contains(x) <==> text_views(v@).contains(x),
{
    let mut out: Vec<String> = Vec::new();
    for s in it: v
        invariant
            it.seq() == v@,
            texts_increase(text_views(out@)),
            forall|x: Seq<char>| #[trigger]
                text_views(out@).contains(x) <==> text_views(v@.take(it.index() as int)).contains(
                    x,
                ),
    {
        let ghost n = it.index() as int;
        let ghost before = text_views(out@);
        let ghost t = s@;
        let k = place_of(&out, s.as_str());
        if k < out.len() && same_text(out[k].as_str(), s.as_str()) {
            assert(before[k as int] == t);
        } else {
            let ghost old_out = out@;
            out.insert(k, s);
            proof {
                assert(text_views(out@) =~= before.insert(k as int, t));
                lemma_insert_text(before, k as int, t);
            }
        }
        proof {
            assert forall|x: Seq<char>| #[trigger]
                text_views(out@).contains(x) <==> text_views(v@.take(n + 1)).contains(x) by {
                let now = text_views(v@.take(n + 1));
                let was = text_views(v@.take(n));
                assert(now =~= was.push(t));
                if now.contains(x) {
                    let i = choose|i: int| 0 <= i < now.len() && now[i] == x;
                    if i < n {
                        assert(was[i] == x);
                    }
                }
                if was.contains(x) {
                    let i = choose|i: int| 0 <= i < was.len() && was[i] == x;
                    assert(now[i] == x);
                }
                assert(now[n] == t);
                assert(before.contains(x) <==> was.contains(x));
            }
        }
    }
    proof {
        assert(v@.take(v@.len() as int) =~= v@);
    }
    out
}

proof fn lemma_insert_text(s: Seq<Seq<char>>, k: int, t: Seq<char>)
    requires
        texts_increase(s),
        0 <= k <= s.len(),
        forall|i: int| 0 <= i < k ==> text_before(#[trigger] s[i], t),
        k < s.len() ==> text_before(t, s[k]),
    ensures
        texts_increase(s.insert(k, t)),
        forall|x: Seq<char>| #[trigger] s.insert(k, t).contains(x) <==> (s.contains(x) || x == t),
{
    let r = s.insert(k, t);
    assert forall|i: int, j: int| 0 <= i < j < r.len() implies text_before(
        #[trigger] r[i],
        #[trigger] r[j],
    ) by {
        if i == k {
            if j > k + 1 {
                lemma_text_order_transitive(t, s[k], s[j - 1]);
            }
        }
    }
    assert forall|x: Seq<char>| #[trigger] r.contains(x) <==> (s.contains(x) || x == t) by {
        if s.contains(x) {
            let i = choose|i: int| 0 <= i < s.len() && s[i] == x;
            if i < k {
                assert(r[i] == x);
            } else {
                assert(r[i + 1] == x);
            }
        }
        if r.contains(x) && x != t {
            let i = choose|i: int| 0 <= i < r.len() && r[i] == x;
            if i < k {
                assert(s[i] == x);
            } else {
                assert(s[i - 1] == x);
            }
        }
        assert(r[k] == t);
    }
}

/// Where `x` belongs in an increasing list: all before it are smaller, none from
/// there on is.
fn place_of(v: &Vec<String>, x: &str) -> (k: usize)
    requires
        texts_increase(text_views(v@)),
    ensures
        k <= v@.len(),
        forall|i: int| 0 <= i < k ==> text_before(#[trigger] text_views(v@)[i], x@),
        forall|i: int| k <= i < v@.len() ==> !text_before(#[trigger] text_views(v@)[i], x@),
        k < v@.len() && text_views(v@)[k as int] != x@ ==> text_before(x@, text_views(v@)[k as int]),
{
    let ghost s = text_views(v@);
    let mut lo: usize = 0;
    let mut hi: usize = v.len();
    while lo < hi
        invariant
            lo <= hi <= v@.len(),
            s == text_views(v@),
            texts_increase(s),
            forall|i: int| 0 <= i < lo ==> text_before(#[trigger] s[i], x@),
            forall|i: int| hi <= i < v@.len() ==> !text_before(#[trigger] s[i], x@),
        decreases hi - lo,
    {
        let mid: usize = lo + (hi - lo) / 2;
        assert(s[mid as int] == v@[mid as int]@);
        if text_less(v[mid].as_str(), x) {
            proof {
                assert forall|i: int| 0 <= i < mid + 1 implies text_before(#[trigger] s[i], x@) by {
                    if i < mid {
                        lemma_text_order_transitive(s[i], s[mid as int], x@);
                    }
                }
            }
            lo = mid + 1;
        } else {
            proof {
                assert forall|i: int| mid <= i < v@.len() implies !text_before(
                    #[trigger] s[i],
                    x@,
                ) by {
                    if i > mid && text_before(s[i], x@) {
                        lemma_text_order_transitive(s[mid as int], s[i], x@);
                    }
                }
            }
            hi = mid;
        }
    }
    proof {
        if lo < v@.len() {
            lemma_text_order_total(s[lo as int], x@);
        }
    }
    lo
}

/// True if `text` begins with `prefix`.
pub open spec fn has_prefix(text: Seq<char>, prefix: Seq<char>) -> bool {
    prefix.len() <= text.len() && text.subrange(0, prefix.len() as int) == prefix
}

/// True if `text` ends with `suffix`.
pub open spec fn has_suffix(text: Seq<char>, suffix: Seq<char>) -> bool {
    suffix.len() <= text.len() && text.subrange(
        text.len() - suffix.len(),
        text.len() as int,
    ) == suffix
}

/// `str::starts_with` with a string pattern: true exactly if the text begins
/// with the pattern's characters.
#[verifier::external_body]
pub(crate) fn starts_with(text: &str, prefix: &str) -> (r: bool)
    ensures
        r == has_prefix(text@, prefix@),
{
    text.starts_with(prefix)
}

/// `str::ends_with` with a string pattern: true exactly if the text ends with
/// the pattern's characters.
#[verifier::external_body]
pub(crate) fn ends_with(text: &str, suffix: &str) -> (r: bool)
    ensures
        r == has_suffix(text@, suffix@),
{
    text.ends_with(suffix)
}


/// The number that a text of decimal digits stands for.
pub open spec fn number_of(text: Seq<char>) -> nat
    decreases text.len(),
{
    if text.len() == 0 {
        0
    } else {
        number_of(text.drop_last()) * 10 + (text.last() as nat - '0' as nat) as nat
    }
}

/// A number is written in decimal digits, without a leading zero, so that the digits stand
/// for it.
pub proof fn law_decimal_text_stands_for_its_number(n: nat)
    ensures
        decimal_text(n).len() > 0,
        forall|i: int|
            0 <= i < decimal_text(n).len() ==> '0' <= #[trigger] decimal_text(n)[i] <= '9',
        n > 0 ==> decimal_text(n)[0] != '0',
        number_of(decimal_text(n)) == n,
    decreases n,
{
    let text = decimal_text(n);
    if n < 10 {
        assert(text.drop_last() =~= Seq::<char>::empty());
        assert(text.last() == digit_char(n));
        assert(number_of(text.drop_last()) == 0);
    } else {
        let rest = decimal_text(n / 10);
        law_decimal_text_stands_for_its_number(n / 10);
        assert(text.drop_last() =~= rest);
        assert(text.last() == digit_char(n % 10));
        assert(text[0] == rest[0]);
        assert forall|i: int| 0 <= i < text.len() implies '0' <= #[trigger] text[i] <= '9' by {
            if i < rest.len() {
                assert(text[i] == rest[i]);
            }
        }
    }
}

/// Two numbers that are written the same are the same.
pub proof fn law_different_numbers_are_written_differently(a: nat, b: nat)
    ensures
        decimal_text(a) == decimal_text(b) ==> a == b,
{
    law_decimal_text_stands_for_its_number(a);
    law_decimal_text_stands_for_its_number(b);
}

/// Texts are in the order of their first different character; a text that another one goes
/// on from lies before it.
pub proof fn law_first_difference_decides(
    common: Seq<char>,
    a: Seq<char>,
    b: Seq<char>,
)
    ensures
        a.len() > 0 && b.len() > 0 && a[0] != b[0] ==> (text_before(common + a, common + b)
            <==> a[0] < b[0]),
        b.len() > 0 ==> text_before(common, common + b) && !text_before(common + b, common),
        !text_before(common, common),
    decreases common.len(),
{
    if common.len() > 0 {
        let rest = common.skip(1);
        law_first_difference_decides(rest, a, b);
        assert((common + a).skip(1) =~= rest + a);
        assert((common + b).skip(1) =~= rest + b);
        assert((common + a)[0] == common[0] && (common + b)[0] == common[0]);
    } else {
        assert(common + a =~= a);
        assert(common + b =~= b);
    }
}

/// A list of numbers is written between brackets, its numbers apart by a comma and a
/// space.
pub proof fn law_list_is_written_number_by_number(v: Vec<u64>, s: String)
    requires
        call_ensures(list_string, (&v,), s),
    ensures
        v@.len() == 0 ==> s@ == "[]"@,
        v@.len() == 1 ==> s@ == "["@ + decimal_text(v@[0] as nat) + "]"@,
        v@.len() == 2 ==> s@ == "["@ + decimal_text(v@[0] as nat) + ", "@ + decimal_text(
            v@[1] as nat,
        ) + "]"@,
        v@.len() > 0 ==> s@.len() >= 3,
{
    reveal_with_fuel(list_tail, 3);
    reveal_strlit("[");
    reveal_strlit("]");
    reveal_strlit(", ");
    if v@.len() > 0 {
        law_decimal_text_stands_for_its_number(v@[0] as nat);
    }
    if v@.len() == 1 {
        assert(list_tail(v@, 1) =~= Seq::<char>::empty());
        assert(s@ =~= "["@ + decimal_text(v@[0] as nat) + "]"@);
    }
    if v@.len() == 2 {
        assert(list_tail(v@, 2) =~= Seq::<char>::empty());
        assert(s@ =~= "["@ + decimal_text(v@[0] as nat) + ", "@ + decimal_text(v@[1] as nat)
            + "]"@);
    }
}

/// Searching and selecting texts goes by what they hold.
pub proof fn law_texts_are_found_by_what_they_hold(
    v: Vec<String>,
    x: &str,
    r: bool,
    distinct: Vec<String>,
)
    requires
        call_ensures(holds_text, (&v, x), r),
        call_ensures(distinct_texts, (v,), distinct),
    ensures
        r <==> exists|i: int| 0 <= i < v@.len() && (#[trigger] v@[i])@ == x@,
        r <==> exists|i: int| 0 <= i < distinct@.len() && (#[trigger] distinct@[i])@ == x@,
        forall|i: int, j: int|
            0 <= i < j < distinct@.len() ==> (#[trigger] distinct@[i])@ != (
            #[trigger] distinct@[j])@,
{
    let all = text_views(v@);
    let kept = text_views(distinct@);
    assert(kept.contains(x@) <==> all.contains(x@));
    if all.contains(x@) {
        let i = choose|i: int| 0 <= i < all.len() && all[i] == x@;
        assert(v@[i]@ == x@);
        let j = choose|j: int| 0 <= j < kept.len() && kept[j] == x@;
        assert(distinct@[j]@ == x@);
    }
    if exists|i: int| 0 <= i < v@.len() && (#[trigger] v@[i])@ == x@ {
        let i = choose|i: int| 0 <= i < v@.len() && (#[trigger] v@[i])@ == x@;
        assert(all[i] == x@);
    }
    if exists|i: int| 0 <= i < distinct@.len() && (#[trigger] distinct@[i])@ == x@ {
        let i = choose|i: int| 0 <= i < distinct@.len() && (#[trigger] distinct@[i])@ == x@;
        assert(kept[i] == x@);
    }
    assert forall|i: int, j: int| 0 <= i < j < distinct@.len() implies (#[trigger] distinct@[i])@
        != (#[trigger] distinct@[j])@ by {
        assert(text_before(kept[i], kept[j]));
        lemma_text_order_total(kept[i], kept[j]);
    }
}

} // verus!
