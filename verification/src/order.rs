//! The order of texts (character by character, by code point, which is the
//! order of `str`) and of pairs of texts, and a stable arrangement of items
//! from the greatest key to the least.

use vstd::prelude::*;

verus! {

/// Lexicographic comparison of `a` and `b` from position `i` on, assuming
/// they agree before `i`.
pub open spec fn chars_less_from(a: Seq<char>, b: Seq<char>, i: int) -> bool
    decreases a.len() - i,
{
    if i >= a.len() {
        i < b.len()
    } else if i >= b.len() {
        false
    } else if a[i] != b[i] {
        (a[i] as u32) < (b[i] as u32)
    } else {
        chars_less_from(a, b, i + 1)
    }
}

/// `a` comes strictly before `b` in the order of texts.
pub open spec fn chars_less(a: Seq<char>, b: Seq<char>) -> bool {
    chars_less_from(a, b, 0)
}

/// A key made of two texts, compared by the first, then by the second.
pub type TextPair = (Seq<char>, Seq<char>);

/// `a` comes strictly before `b`: by the first text, then by the second.
pub open spec fn pair_less(a: TextPair, b: TextPair) -> bool {
    chars_less(a.0, b.0) || (a.0 == b.0 && chars_less(a.1, b.1))
}

proof fn lemma_chars_less_from_irreflexive(a: Seq<char>, i: int)
    requires
        0 <= i,
    ensures
        !chars_less_from(a, a, i),
    decreases a.len() - i,
{
    if i < a.len() {
        lemma_chars_less_from_irreflexive(a, i + 1);
    }
}

proof fn lemma_chars_less_from_total(a: Seq<char>, b: Seq<char>, i: int)
    requires
        0 <= i <= a.len(),
        i <= b.len(),
        a.take(i) == b.take(i),
    ensures
        chars_less_from(a, b, i) || chars_less_from(b, a, i) || a == b,
    decreases a.len() - i,
{
    if i < a.len() && i < b.len() {
        if a[i] == b[i] {
            assert(a.take(i + 1) =~= a.take(i).push(a[i]));
            assert(b.take(i + 1) =~= b.take(i).push(b[i]));
            lemma_chars_less_from_total(a, b, i + 1);
        } else {
            vstd::utf8::char_u32_cast(a[i], a[i] as u32);
            vstd::utf8::char_u32_cast(b[i], b[i] as u32);
        }
    } else if i == a.len() && i == b.len() {
        assert(a =~= a.take(i));
        assert(b =~= b.take(i));
    }
}

proof fn lemma_chars_less_from_transitive(a: Seq<char>, b: Seq<char>, c: Seq<char>, i: int)
    requires
        0 <= i,
        chars_less_from(a, b, i),
        chars_less_from(b, c, i),
    ensures
        chars_less_from(a, c, i),
    decreases a.len() - i,
{
    if i < a.len() && i < b.len() && i < c.len() && a[i] == b[i] && b[i] == c[i] {
        lemma_chars_less_from_transitive(a, b, c, i + 1);
    }
}

proof fn lemma_chars_less_from_asymmetric(a: Seq<char>, b: Seq<char>, i: int)
    requires
        0 <= i,
        chars_less_from(a, b, i),
    ensures
        !chars_less_from(b, a, i),
    decreases a.len() - i,
{
    if i < a.len() && i < b.len() && a[i] == b[i] {
        lemma_chars_less_from_asymmetric(a, b, i + 1);
    }
}

/// `a` and `b` agree before position `i`, and `i` is where `a` comes first:
/// `a` ends there while `b` goes on, or both go on and `a`'s character there
/// has the smaller code point.
pub open spec fn first_difference_favours(a: Seq<char>, b: Seq<char>, i: int) -> bool {
    &&& 0 <= i <= a.len()
    &&& i <= b.len()
    &&& a.take(i) == b.take(i)
    &&& ((i == a.len() && i < b.len()) || (i < a.len() && i < b.len() && (a[i] as u32) < (b[i]
        as u32)))
}

proof fn lemma_chars_less_from_characterized(a: Seq<char>, b: Seq<char>, k: int)
    requires
        0 <= k <= a.len(),
        k <= b.len(),
        a.take(k) == b.take(k),
    ensures
        chars_less_from(a, b, k) <==> exists|i: int| k <= i && #[trigger] first_difference_favours(a, b, i),
    decreases a.len() - k,
{
    if k < a.len() && k < b.len() {
        if a[k] == b[k] {
            assert(a.take(k + 1) =~= a.take(k).push(a[k]));
            assert(b.take(k + 1) =~= b.take(k).push(b[k]));
            lemma_chars_less_from_characterized(a, b, k + 1);
            if exists|i: int| k <= i && #[trigger] first_difference_favours(a, b, i) {
                let i = choose|i: int| k <= i && #[trigger] first_difference_favours(a, b, i);
                if i == k {
                    assert(false);
                }
            }
        } else {
            if chars_less_from(a, b, k) {
                assert(first_difference_favours(a, b, k));
            }
            if exists|i: int| k <= i && #[trigger] first_difference_favours(a, b, i) {
                let i = choose|i: int| k <= i && #[trigger] first_difference_favours(a, b, i);
                if i > k {
                    assert(a.take(i)[k] == a[k]);
                    assert(b.take(i)[k] == b[k]);
                }
            }
        }
    } else {
        if chars_less_from(a, b, k) {
            assert(first_difference_favours(a, b, k));
        }
    }
}

/// The order of texts is the order of `str`: `a` comes before `b` exactly
/// when, at the first position where they differ, `a`'s character has the
/// smaller code point, or `a` ends where `b` goes on.
pub proof fn lemma_chars_less_is_code_point_order(a: Seq<char>, b: Seq<char>)
    ensures
        chars_less(a, b) <==> exists|i: int| #[trigger] first_difference_favours(a, b, i),
{
    assert(a.take(0) =~= b.take(0));
    lemma_chars_less_from_characterized(a, b, 0);
}

/// On texts of one character, the order of texts is the order of code points.
pub proof fn lemma_chars_less_single(x: char, y: char)
    ensures
        chars_less(seq![x], seq![y]) <==> (x as u32) < (y as u32),
{
    lemma_chars_less_is_code_point_order(seq![x], seq![y]);
    if (x as u32) < (y as u32) {
        assert(seq![x].take(0) =~= seq![y].take(0));
        assert(first_difference_favours(seq![x], seq![y], 0));
    }
}

/// The order of texts is a strict total order.
pub proof fn lemma_chars_order(a: Seq<char>, b: Seq<char>, c: Seq<char>)
    ensures
        !chars_less(a, a),
        chars_less(a, b) ==> !chars_less(b, a),
        chars_less(a, b) || chars_less(b, a) || a == b,
        chars_less(a, b) && chars_less(b, c) ==> chars_less(a, c),
{
    lemma_chars_less_from_irreflexive(a, 0);
    if chars_less(a, b) {
        lemma_chars_less_from_asymmetric(a, b, 0);
    }
    assert(a.take(0) =~= b.take(0));
    lemma_chars_less_from_total(a, b, 0);
    if chars_less(a, b) && chars_less(b, c) {
        lemma_chars_less_from_transitive(a, b, c, 0);
    }
}

/// The order of pairs of texts is a strict total order.
pub proof fn lemma_pair_order(a: TextPair, b: TextPair, c: TextPair)
    ensures
        !pair_less(a, a),
        pair_less(a, b) ==> !pair_less(b, a),
        pair_less(a, b) || pair_less(b, a) || a == b,
        pair_less(a, b) && pair_less(b, c) ==> pair_less(a, c),
{
    lemma_chars_order(a.0, b.0, c.0);
    lemma_chars_order(a.1, b.1, c.1);
    lemma_chars_order(b.0, a.0, c.0);
    lemma_chars_order(b.1, a.1, c.1);
    lemma_chars_order(a.0, a.0, a.0);
    lemma_chars_order(a.1, a.1, a.1);
    lemma_chars_order(a.0, c.0, b.0);
    lemma_chars_order(a.1, c.1, b.1);
}

/// Whether `a` comes strictly before `b` in the order of texts.
pub fn chars_lt(a: &Vec<char>, b: &Vec<char>) -> (r: bool)
    ensures
        r == chars_less(a@, b@),
{
    let mut i: usize = 0;
    while i < a.len() && i < b.len() && a[i] == b[i]
        invariant
            i <= a.len(),
            i <= b.len(),
            chars_less(a@, b@) == chars_less_from(a@, b@, i as int),
        decreases a.len() - i,
    {
        i = i + 1;
    }
    if i >= a.len() {
        i < b.len()
    } else if i >= b.len() {
        false
    } else {
        (a[i] as u32) < (b[i] as u32)
    }
}

/// A sort key of two texts, held as characters.
pub struct PairKey {
    pub first: Vec<char>,
    pub second: Vec<char>,
}

impl View for PairKey {
    type V = TextPair;

    open spec fn view(&self) -> TextPair {
        (self.first@, self.second@)
    }
}

/// Whether key `a` comes strictly before key `b`.
pub fn pair_lt(a: &PairKey, b: &PairKey) -> (r: bool)
    ensures
        r == pair_less(a@, b@),
{
    proof {
        lemma_chars_order(a.first@, b.first@, b.first@);
    }
    if chars_lt(&a.first, &b.first) {
        true
    } else if chars_lt(&b.first, &a.first) {
        false
    } else {
        chars_lt(&a.second, &b.second)
    }
}

/// The views of a list of keys.
pub open spec fn key_views(keys: Seq<PairKey>) -> Seq<TextPair> {
    keys.map_values(|k: PairKey| k@)
}

/// In the arrangement from the greatest key to the least, the item at index
/// `x` stands before the item at index `y`: its key is greater, or the keys are
/// equal and `x` came later.
pub open spec fn goes_before(keys: Seq<TextPair>, x: int, y: int) -> bool {
    pair_less(keys[y], keys[x]) || (keys[x] == keys[y] && x > y)
}

/// `p` lists every index of `keys` once, from the greatest key to the least;
/// items with equal keys stand in the reverse of their original order.
pub open spec fn is_descending_order(keys: Seq<TextPair>, p: Seq<usize>) -> bool {
    &&& p.len() == keys.len()
    &&& forall|i: int| 0 <= i < p.len() ==> #[trigger] p[i] < keys.len()
    &&& forall|i: int, j: int|
        0 <= i < j < p.len() ==> goes_before(keys, #[trigger] p[i] as int, #[trigger] p[j] as int)
}

/// An item never goes before itself, and of two items at most one goes before
/// the other.
pub proof fn lemma_goes_before_strict(keys: Seq<TextPair>, x: int, y: int)
    requires
        0 <= x < keys.len(),
        0 <= y < keys.len(),
    ensures
        !goes_before(keys, x, x),
        !(goes_before(keys, x, y) && goes_before(keys, y, x)),
{
    lemma_pair_order(keys[x], keys[y], keys[x]);
    lemma_pair_order(keys[y], keys[x], keys[y]);
}

/// Index `k` stands somewhere in `p`.
pub open spec fn lists_index(p: Seq<usize>, k: int) -> bool {
    exists|i: int| 0 <= i < p.len() && #[trigger] p[i] as int == k
}

/// A descending order lists each index of the keys exactly once.
pub proof fn lemma_descending_order_is_permutation(keys: Seq<TextPair>, p: Seq<usize>)
    requires
        is_descending_order(keys, p),
    ensures
        p.no_duplicates(),
        forall|k: int| 0 <= k < keys.len() ==> #[trigger] lists_index(p, k),
{
    let n = keys.len() as int;
    assert forall|i: int, j: int| 0 <= i < p.len() && 0 <= j < p.len() && i != j implies p[i]
        != p[j] by {
        if i < j {
            lemma_goes_before_strict(keys, p[i] as int, p[j] as int);
        } else {
            lemma_goes_before_strict(keys, p[j] as int, p[i] as int);
        }
    }
    let q = p.map_values(|v: usize| v as int);
    assert forall|i: int, j: int| 0 <= i < q.len() && 0 <= j < q.len() && i != j implies q[i]
        != q[j] by {
        assert(p[i] != p[j]);
    }
    assert(q.no_duplicates());
    q.unique_seq_to_set();
    let range = vstd::set_lib::set_int_range(0, n);
    vstd::set_lib::lemma_int_range(0, n);
    assert(q.to_set().subset_of(range)) by {
        assert forall|v: int| q.to_set().contains(v) implies range.contains(v) by {
            let i = choose|i: int| 0 <= i < q.len() && q[i] == v;
            assert(p[i] < keys.len());
        }
    }
    vstd::set_lib::lemma_subset_equality(q.to_set(), range);
    assert forall|k: int| 0 <= k < keys.len() implies #[trigger] lists_index(p, k) by {
        assert(range.contains(k));
        assert(q.to_set().contains(k));
        let i = choose|i: int| 0 <= i < q.len() && q[i] == k;
        assert(p[i] as int == k);
    }
}

proof fn lemma_descending_orders_agree_before(keys: Seq<TextPair>, p: Seq<usize>, q: Seq<usize>, i: int)
    requires
        is_descending_order(keys, p),
        is_descending_order(keys, q),
        0 <= i <= p.len(),
    ensures
        forall|j: int| 0 <= j < i ==> p[j] == q[j],
    decreases i,
{
    if i > 0 {
        lemma_descending_orders_agree_before(keys, p, q, i - 1);
        let k = i - 1;
        lemma_descending_order_is_permutation(keys, p);
        lemma_descending_order_is_permutation(keys, q);
        if p[k] != q[k] {
            assert(lists_index(q, p[k] as int));
            let m = choose|m: int| 0 <= m < q.len() && #[trigger] q[m] as int == p[k] as int;
            assert(lists_index(p, q[k] as int));
            let n = choose|n: int| 0 <= n < p.len() && #[trigger] p[n] as int == q[k] as int;
            if m < k {
                assert(q[m] == p[m]);
                assert(p[m] == p[k]);
            }
            if n < k {
                assert(p[n] == q[n]);
                assert(q[n] == q[k]);
            }
            assert(m > k && n > k);
            assert(goes_before(keys, q[k] as int, q[m] as int));
            assert(goes_before(keys, p[k] as int, p[n] as int));
            lemma_goes_before_strict(keys, p[k] as int, q[k] as int);
        }
    }
}

/// The arrangement of indices from the greatest key to the least, equal keys
/// in reverse original order, is unique.
pub proof fn lemma_descending_order_unique(keys: Seq<TextPair>, p: Seq<usize>, q: Seq<usize>)
    requires
        is_descending_order(keys, p),
        is_descending_order(keys, q),
    ensures
        p == q,
{
    lemma_descending_orders_agree_before(keys, p, q, p.len() as int);
    assert(p =~= q);
}

/// `s` goes strictly up in the order of texts.
pub open spec fn strictly_ascending(s: Seq<Seq<char>>) -> bool {
    forall|i: int, j: int| 0 <= i < j < s.len() ==> chars_less(#[trigger] s[i], #[trigger] s[j])
}

/// Two lists of texts that go strictly up and hold the same texts are equal.
pub proof fn lemma_ascending_unique(a: Seq<Seq<char>>, b: Seq<Seq<char>>)
    requires
        strictly_ascending(a),
        strictly_ascending(b),
        forall|x: Seq<char>| a.contains(x) <==> b.contains(x),
    ensures
        a == b,
    decreases a.len(),
{
    if a.len() == 0 {
        if b.len() > 0 {
            assert(b.contains(b[0]));
        }
        assert(a =~= b);
    } else {
        assert(a.contains(a[0]));
        let j = choose|j: int| 0 <= j < b.len() && b[j] == a[0];
        assert(b.contains(b[0]));
        let k = choose|k: int| 0 <= k < a.len() && a[k] == b[0];
        if a[0] != b[0] {
            assert(j > 0 && k > 0);
            assert(chars_less(b[0], b[j]));
            assert(chars_less(a[0], a[k]));
            lemma_chars_order(a[0], b[0], a[0]);
        }
        let ra = a.drop_first();
        let rb = b.drop_first();
        assert forall|x: Seq<char>| ra.contains(x) <==> rb.contains(x) by {
            if ra.contains(x) {
                let i = choose|i: int| 0 <= i < ra.len() && ra[i] == x;
                assert(a[i + 1] == x);
                assert(a.contains(x));
                let m = choose|m: int| 0 <= m < b.len() && b[m] == x;
                if m == 0 {
                    assert(chars_less(a[0], a[i + 1]));
                    lemma_chars_order(x, x, x);
                }
                assert(rb[m - 1] == x);
            }
            if rb.contains(x) {
                let i = choose|i: int| 0 <= i < rb.len() && rb[i] == x;
                assert(b[i + 1] == x);
                assert(b.contains(x));
                let m = choose|m: int| 0 <= m < a.len() && a[m] == x;
                if m == 0 {
                    assert(chars_less(b[0], b[i + 1]));
                    lemma_chars_order(x, x, x);
                }
                assert(ra[m - 1] == x);
            }
        }
        assert forall|i: int, j2: int| 0 <= i < j2 < ra.len() implies chars_less(#[trigger] ra[i], #[trigger] ra[j2]) by {
            assert(chars_less(a[i + 1], a[j2 + 1]));
        }
        assert forall|i: int, j2: int| 0 <= i < j2 < rb.len() implies chars_less(#[trigger] rb[i], #[trigger] rb[j2]) by {
            assert(chars_less(b[i + 1], b[j2 + 1]));
        }
        lemma_ascending_unique(ra, rb);
        assert(a =~= b) by {
            assert forall|i: int| 0 <= i < a.len() implies a[i] == b[i] by {
                if i > 0 {
                    assert(a[i] == ra[i - 1]);
                    assert(b[i] == rb[i - 1]);
                }
            }
        }
    }
}

/// Arranges the indices of `keys` from the greatest key to the least; equal
/// keys keep the reverse of their original order (a stable ascending sort,
/// then reversed).
pub fn descending_order(keys: &Vec<PairKey>) -> (p: Vec<usize>)
    ensures
        is_descending_order(key_views(keys@), p@),
{
    let ghost kv = key_views(keys@);
    let mut p: Vec<usize> = Vec::new();
    let mut i: usize = 0;
    while i < keys.len()
        invariant
            kv == key_views(keys@),
            kv.len() == keys.len(),
            i <= keys.len(),
            p.len() == i,
            forall|a: int| 0 <= a < p.len() ==> #[trigger] p[a] < i,
            forall|a: int, b: int|
                0 <= a < b < p.len() ==> goes_before(kv, #[trigger] p[a] as int, #[trigger] p[b] as int),
        decreases keys.len() - i,
    {
        let mut pos: usize = 0;
        while pos < p.len() && pair_lt(&keys[i], &keys[p[pos]])
            invariant
                kv == key_views(keys@),
                kv.len() == keys.len(),
                i < keys.len(),
                p.len() == i,
                pos <= p.len(),
                forall|a: int| 0 <= a < p.len() ==> #[trigger] p[a] < i,
                forall|a: int| 0 <= a < pos ==> pair_less(kv[i as int], kv[#[trigger] p[a] as int]),
            decreases p.len() - pos,
        {
            pos = pos + 1;
        }
        proof {
            assert(kv[i as int] == keys@[i as int]@);
            if pos < p.len() {
                assert(!pair_less(kv[i as int], kv[p[pos as int] as int]));
            }
        }
        let ghost old_p = p@;
        p.insert(pos, i);
        proof {
            assert forall|a: int| 0 <= a < p.len() implies #[trigger] p[a] < i + 1 by {
                if a < pos {
                    assert(p[a] == old_p[a]);
                } else if a > pos {
                    assert(p[a] == old_p[a - 1]);
                }
            }
            assert forall|a: int, b: int| 0 <= a < b < p.len() implies goes_before(
                kv,
                #[trigger] p[a] as int,
                #[trigger] p[b] as int,
            ) by {
                let x = p[a] as int;
                let y = p[b] as int;
                if a < pos && b < pos {
                    assert(x == old_p[a] && y == old_p[b]);
                } else if a < pos && b == pos {
                    assert(x == old_p[a]);
                    assert(pair_less(kv[i as int], kv[x]));
                } else if a < pos && b > pos {
                    assert(x == old_p[a] && y == old_p[b - 1]);
                } else if a == pos {
                    let q = old_p[pos as int] as int;
                    assert(y == old_p[b - 1]);
                    assert(!pair_less(kv[i as int], kv[q]));
                    lemma_pair_order(kv[i as int], kv[q], kv[y]);
                    lemma_pair_order(kv[y], kv[q], kv[i as int]);
                    if b - 1 > pos {
                        assert(goes_before(kv, old_p[pos as int] as int, old_p[b - 1] as int));
                    }
                    assert(y < i);
                } else {
                    assert(x == old_p[a - 1] && y == old_p[b - 1]);
                }
            }
        }
        i = i + 1;
    }
    p
}

/// `arrangement` holds the items of `items`, whose keys are `keys`, arranged
/// from the greatest key to the least, equal keys in reverse original order.
pub open spec fn arranged<T>(items: Seq<T>, keys: Seq<TextPair>, arrangement: Seq<T>) -> bool {
    exists|p: Seq<usize>|
        {
            &&& is_descending_order(keys, p)
            &&& arrangement.len() == p.len()
            &&& forall|k: int|
                0 <= k < arrangement.len() ==> #[trigger] arrangement[k] == items[p[k] as int]
        }
}

/// Items with given keys have exactly one arrangement.
pub proof fn lemma_arranged_unique<T>(items: Seq<T>, keys: Seq<TextPair>, a: Seq<T>, b: Seq<T>)
    requires
        arranged(items, keys, a),
        arranged(items, keys, b),
    ensures
        a == b,
{
    let p = choose|p: Seq<usize>|
        {
            &&& is_descending_order(keys, p)
            &&& a.len() == p.len()
            &&& forall|k: int| 0 <= k < a.len() ==> #[trigger] a[k] == items[p[k] as int]
        };
    let q = choose|q: Seq<usize>|
        {
            &&& is_descending_order(keys, q)
            &&& b.len() == q.len()
            &&& forall|k: int| 0 <= k < b.len() ==> #[trigger] b[k] == items[q[k] as int]
        };
    lemma_descending_order_unique(keys, p, q);
    assert(a =~= b);
}

/// An arrangement holds every item, as many items as before, and goes from the
/// greatest key to the least.
pub proof fn lemma_arranged_properties<T>(
    items: Seq<T>,
    keys: Seq<TextPair>,
    arrangement: Seq<T>,
    key_of: spec_fn(T) -> TextPair,
)
    requires
        arranged(items, keys, arrangement),
        keys == items.map_values(key_of),
    ensures
        arrangement.len() == items.len(),
        forall|k: int| 0 <= k < items.len() ==> arrangement.contains(#[trigger] items[k]),
        forall|i: int, j: int|
            0 <= i < j < arrangement.len() ==> !pair_less(
                key_of(#[trigger] arrangement[i]),
                key_of(#[trigger] arrangement[j]),
            ),
{
    let p = choose|p: Seq<usize>|
        {
            &&& is_descending_order(keys, p)
            &&& arrangement.len() == p.len()
            &&& forall|k: int|
                0 <= k < arrangement.len() ==> #[trigger] arrangement[k] == items[p[k] as int]
        };
    lemma_descending_order_is_permutation(keys, p);
    assert forall|k: int| 0 <= k < items.len() implies arrangement.contains(#[trigger] items[k]) by {
        assert(lists_index(p, k));
        let i = choose|i: int| 0 <= i < p.len() && #[trigger] p[i] as int == k;
        assert(arrangement[i] == items[k]);
    }
    assert forall|i: int, j: int| 0 <= i < j < arrangement.len() implies !pair_less(
        key_of(#[trigger] arrangement[i]),
        key_of(#[trigger] arrangement[j]),
    ) by {
        let x = p[i] as int;
        let y = p[j] as int;
        assert(goes_before(keys, x, y));
        assert(keys[x] == key_of(items[x]));
        assert(keys[y] == key_of(items[y]));
        lemma_pair_order(keys[x], keys[y], keys[x]);
    }
}

} // verus!
