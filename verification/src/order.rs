//! Sorting: the order of names, and a stable merge sort over positions.

use vstd::prelude::*;

use crate::text::chars_of;

verus! {

/// The first text comes before the second, character by character; a text
/// comes before each longer one that it begins.
pub open spec fn text_lt(a: Seq<char>, b: Seq<char>) -> bool
    decreases a.len(),
{
    if b.len() == 0 {
        false
    } else if a.len() == 0 {
        true
    } else if a[0] != b[0] {
        a[0] < b[0]
    } else {
        text_lt(a.skip(1), b.skip(1))
    }
}

pub proof fn lemma_text_lt_irreflexive(a: Seq<char>)
    ensures
        !text_lt(a, a),
    decreases a.len(),
{
    if a.len() > 0 {
        lemma_text_lt_irreflexive(a.skip(1));
    }
}

pub proof fn lemma_text_lt_transitive(a: Seq<char>, b: Seq<char>, c: Seq<char>)
    requires
        text_lt(a, b),
        text_lt(b, c),
    ensures
        text_lt(a, c),
    decreases a.len(),
{
    if a.len() > 0 && a[0] == b[0] && b[0] == c[0] {
        lemma_text_lt_transitive(a.skip(1), b.skip(1), c.skip(1));
    }
}

pub proof fn lemma_text_lt_total(a: Seq<char>, b: Seq<char>)
    ensures
        text_lt(a, b) || text_lt(b, a) || a == b,
    decreases a.len(),
{
    if a.len() > 0 && b.len() > 0 {
        if a[0] == b[0] {
            lemma_text_lt_total(a.skip(1), b.skip(1));
            if a.skip(1) == b.skip(1) {
                assert(a == seq![a[0]] + a.skip(1));
                assert(b == seq![b[0]] + b.skip(1));
            }
        }
    } else if a.len() == 0 && b.len() == 0 {
        assert(a == b);
    }
}

/// Whether one text comes before another.
pub fn text_before(a: &str, b: &str) -> (r: bool)
    ensures
        r == text_lt(a@, b@),
{
    let x = chars_of(a);
    let y = chars_of(b);
    let mut i: usize = 0;
    assert(x@.skip(0) == x@);
    assert(y@.skip(0) == y@);
    while i < x.len() && i < y.len()
        invariant
            i <= x@.len(),
            i <= y@.len(),
            x@ == a@,
            y@ == b@,
            text_lt(a@, b@) == text_lt(x@.skip(i as int), y@.skip(i as int)),
        decreases x@.len() - i,
    {
        if x[i] != y[i] {
            return x[i] < y[i];
        }
        assert(x@.skip(i as int).skip(1) == x@.skip(i + 1));
        assert(y@.skip(i as int).skip(1) == y@.skip(i + 1));
        i += 1;
    }
    i < y.len()
}

/// What an item is sorted by: two texts, then a number.
pub struct SortKey {
    pub first: Seq<char>,
    pub second: Seq<char>,
    pub third: nat,
}

/// The order of the keys, part by part.
pub open spec fn key_lt(a: SortKey, b: SortKey) -> bool {
    ||| text_lt(a.first, b.first)
    ||| a.first == b.first && text_lt(a.second, b.second)
    ||| a.first == b.first && a.second == b.second && a.third < b.third
}

pub proof fn lemma_key_lt_transitive(a: SortKey, b: SortKey, c: SortKey)
    requires
        key_lt(a, b),
        key_lt(b, c),
    ensures
        key_lt(a, c),
{
    if text_lt(a.first, b.first) && text_lt(b.first, c.first) {
        lemma_text_lt_transitive(a.first, b.first, c.first);
    }
    if text_lt(a.second, b.second) && text_lt(b.second, c.second) {
        lemma_text_lt_transitive(a.second, b.second, c.second);
    }
}

pub proof fn lemma_key_lt_irreflexive(a: SortKey)
    ensures
        !key_lt(a, a),
{
    lemma_text_lt_irreflexive(a.first);
    lemma_text_lt_irreflexive(a.second);
}

pub proof fn lemma_key_lt_total(a: SortKey, b: SortKey)
    ensures
        key_lt(a, b) || key_lt(b, a) || a == b,
{
    lemma_text_lt_total(a.first, b.first);
    lemma_text_lt_total(a.second, b.second);
}

/// An item that has a place in an order.
pub trait Ranked: Sized {
    spec fn key(&self) -> SortKey;

    fn before(&self, other: &Self) -> (r: bool)
        ensures
            r == key_lt(self.key(), other.key()),
    ;
}

/// The item at position `i` comes before the one at `j`; of two items with one
/// key, the one that stood first.
pub open spec fn place_lt<T: Ranked>(v: Seq<T>, i: int, j: int) -> bool {
    ||| key_lt(v[i].key(), v[j].key())
    ||| v[i].key() == v[j].key() && i < j
}

pub proof fn lemma_place_lt_transitive<T: Ranked>(v: Seq<T>, i: int, j: int, k: int)
    requires
        place_lt(v, i, j),
        place_lt(v, j, k),
    ensures
        place_lt(v, i, k),
{
    if key_lt(v[i].key(), v[j].key()) && key_lt(v[j].key(), v[k].key()) {
        lemma_key_lt_transitive(v[i].key(), v[j].key(), v[k].key());
    }
}

/// Positions of `v`, each in its place.
pub open spec fn places_sorted<T: Ranked>(v: Seq<T>, p: Seq<usize>) -> bool {
    &&& forall|i: int| 0 <= i < p.len() ==> #[trigger] p[i] < v.len()
    &&& forall|i: int, j: int|
        0 <= i < j < p.len() ==> place_lt(v, #[trigger] p[i] as int, #[trigger] p[j] as int)
}

/// The positions from `lo` up to `hi`.
pub open spec fn positions(lo: int, hi: int) -> Seq<usize> {
    Seq::new((hi - lo) as nat, |i: int| (lo + i) as usize)
}

fn merge<T: Ranked>(v: &[T], a: &[usize], b: &[usize], mid: usize) -> (r: Vec<usize>)
    requires
        places_sorted(v@, a@),
        places_sorted(v@, b@),
        forall|i: int| 0 <= i < a@.len() ==> #[trigger] a@[i] < mid,
        forall|i: int| 0 <= i < b@.len() ==> #[trigger] b@[i] >= mid,
    ensures
        places_sorted(v@, r@),
        r@.to_multiset() == a@.to_multiset().add(b@.to_multiset()),
{
    broadcast use vstd::seq_lib::group_to_multiset_ensures;

    let mut out: Vec<usize> = Vec::new();
    let mut i: usize = 0;
    let mut j: usize = 0;
    assert(a@.take(0) == Seq::<usize>::empty());
    assert(b@.take(0) == Seq::<usize>::empty());
    assert(out@.to_multiset() == a@.take(0).to_multiset().add(b@.take(0).to_multiset()));
    while i < a.len() || j < b.len()
        invariant
            i <= a@.len(),
            j <= b@.len(),
            places_sorted(v@, a@),
            places_sorted(v@, b@),
            forall|k: int| 0 <= k < a@.len() ==> #[trigger] a@[k] < mid,
            forall|k: int| 0 <= k < b@.len() ==> #[trigger] b@[k] >= mid,
            places_sorted(v@, out@),
            out@.to_multiset() == a@.take(i as int).to_multiset().add(
                b@.take(j as int).to_multiset(),
            ),
            forall|k: int|
                0 <= k < out@.len() && i < a@.len() ==> place_lt(
                    v@,
                    #[trigger] out@[k] as int,
                    a@[i as int] as int,
                ),
            forall|k: int|
                0 <= k < out@.len() && j < b@.len() ==> place_lt(
                    v@,
                    #[trigger] out@[k] as int,
                    b@[j as int] as int,
                ),
        decreases a@.len() - i + b@.len() - j,
    {
        broadcast use vstd::seq_lib::group_to_multiset_ensures;

        let ghost before = out@;
        let from_b = if i == a.len() {
            true
        } else if j == b.len() {
            false
        } else {
            v[b[j]].before(&v[a[i]])
        };
        proof {
            if i < a@.len() && j < b@.len() {
                lemma_key_lt_total(v@[a@[i as int] as int].key(), v@[b@[j as int] as int].key());
            }
        }
        if from_b {
            let ghost x = b@[j as int];
            out.push(b[j]);
            j += 1;
            proof {
                assert(b@.take(j as int) == b@.take(j - 1).push(x));
                if j < b@.len() {
                    assert forall|k: int| 0 <= k < out@.len() implies place_lt(
                        v@,
                        #[trigger] out@[k] as int,
                        b@[j as int] as int,
                    ) by {
                        assert(place_lt(v@, b@[j - 1] as int, b@[j as int] as int));
                        if k < before.len() {
                            lemma_place_lt_transitive(
                                v@,
                                before[k] as int,
                                x as int,
                                b@[j as int] as int,
                            );
                        }
                    }
                }
            }
        } else {
            let ghost x = a@[i as int];
            assert(j < b@.len() ==> place_lt(v@, x as int, b@[j as int] as int));
            out.push(a[i]);
            i += 1;
            proof {
                assert(a@.take(i as int) == a@.take(i - 1).push(x));
                if i < a@.len() {
                    assert forall|k: int| 0 <= k < out@.len() implies place_lt(
                        v@,
                        #[trigger] out@[k] as int,
                        a@[i as int] as int,
                    ) by {
                        assert(place_lt(v@, a@[i - 1] as int, a@[i as int] as int));
                        if k < before.len() {
                            lemma_place_lt_transitive(
                                v@,
                                before[k] as int,
                                x as int,
                                a@[i as int] as int,
                            );
                        }
                    }
                }
            }
        }
        assert(out@.to_multiset() =~= a@.take(i as int).to_multiset().add(
            b@.take(j as int).to_multiset(),
        ));
    }
    assert(a@.take(i as int) == a@);
    assert(b@.take(j as int) == b@);
    out
}

fn sort_range<T: Ranked>(v: &[T], lo: usize, hi: usize) -> (r: Vec<usize>)
    requires
        lo <= hi <= v@.len(),
    ensures
        places_sorted(v@, r@),
        forall|i: int| 0 <= i < r@.len() ==> lo <= #[trigger] r@[i] < hi,
        r@.to_multiset() == positions(lo as int, hi as int).to_multiset(),
    decreases hi - lo,
{
    if hi - lo < 2 {
        let mut out: Vec<usize> = Vec::new();
        if lo < hi {
            out.push(lo);
        }
        assert(out@ == positions(lo as int, hi as int));
        return out;
    }
    let mid = lo + (hi - lo) / 2;
    let a = sort_range(v, lo, mid);
    let b = sort_range(v, mid, hi);
    let r = merge(v, &a, &b, mid);
    proof {
        let p = positions(lo as int, mid as int);
        let q = positions(mid as int, hi as int);
        assert(p + q == positions(lo as int, hi as int));
        vstd::seq_lib::lemma_multiset_commutative(p, q);
        assert forall|i: int| 0 <= i < r@.len() implies lo <= #[trigger] r@[i] < hi by {
            broadcast use vstd::seq_lib::group_to_multiset_ensures;

            assert(r@.to_multiset().count(r@[i]) > 0);
            assert((p + q).to_multiset().count(r@[i]) > 0);
            assert((p + q).contains(r@[i]));
        }
    }
    r
}

/// `p` lists each position of `v` once, each in its place: `p` says how a
/// stable sort rearranges `v`.
pub open spec fn is_stable_order<T: Ranked>(v: Seq<T>, p: Seq<usize>) -> bool {
    &&& places_sorted(v, p)
    &&& p.to_multiset() == positions(0, v.len() as int).to_multiset()
}

/// How a stable sort rearranges the items.
pub fn stable_order<T: Ranked>(v: &[T]) -> (r: Vec<usize>)
    ensures
        is_stable_order(v@, r@),
        r@.len() == v@.len(),
{
    let r = sort_range(v, 0, v.len());
    proof {
        broadcast use vstd::seq_lib::group_to_multiset_ensures;

        assert(r@.to_multiset().len() == r@.len());
        assert(positions(0, v@.len() as int).to_multiset().len() == v@.len());
    }
    r
}

/// Sequences with the same items, in whatever order, are mapped to sequences
/// with the same items.
pub proof fn lemma_map_multiset<A, B>(s: Seq<A>, t: Seq<A>, f: spec_fn(A) -> B)
    requires
        s.to_multiset() == t.to_multiset(),
    ensures
        s.map_values(f).to_multiset() == t.map_values(f).to_multiset(),
    decreases s.len(),
{
    broadcast use vstd::seq_lib::group_to_multiset_ensures;

    vstd::seq_lib::to_multiset_len(s);
    vstd::seq_lib::to_multiset_len(t);
    if s.len() == 0 {
        assert(s =~= t);
    } else {
        let x = s.last();
        assert(s.contains(x));
        assert(t.to_multiset().count(x) > 0);
        assert(t.contains(x));
        let k = choose|k: int| 0 <= k < t.len() && t[k] == x;
        let s1 = s.drop_last();
        let t1 = t.remove(k);
        assert(s1 =~= s.remove(s.len() - 1));
        assert(s1.to_multiset() == t1.to_multiset());
        lemma_map_multiset(s1, t1, f);
        assert(s.map_values(f) =~= s1.map_values(f).push(f(x)));
        assert(t.map_values(f) =~= t1.map_values(f).insert(k, f(x)));
    }
}

/// A stable sort keeps the items.
pub proof fn lemma_order_keeps<T: Ranked, B>(v: Seq<T>, p: Seq<usize>, f: spec_fn(T) -> B)
    requires
        is_stable_order(v, p),
        v.len() <= usize::MAX,
    ensures
        p.len() == v.len(),
        p.map_values(|i: usize| f(v[i as int])).to_multiset() == v.map_values(f).to_multiset(),
{
    broadcast use vstd::seq_lib::group_to_multiset_ensures;

    let q = positions(0, v.len() as int);
    assert(p.to_multiset().len() == q.to_multiset().len());
    lemma_map_multiset(p, q, |i: usize| f(v[i as int]));
    assert(q.map_values(|i: usize| f(v[i as int])) =~= v.map_values(f));
}

/// The items stand in the order of their keys.
pub open spec fn keys_sorted<A>(s: Seq<A>, key: spec_fn(A) -> SortKey) -> bool {
    forall|i: int, j: int|
        0 <= i < j < s.len() ==> !key_lt(key(#[trigger] s[j]), key(#[trigger] s[i]))
}

/// Where no two items have one key, two sorted sequences with the same items are the
/// same.
pub proof fn lemma_keys_sorted_unique<A>(a: Seq<A>, b: Seq<A>, key: spec_fn(A) -> SortKey)
    requires
        keys_sorted(a, key),
        keys_sorted(b, key),
        a.to_multiset() == b.to_multiset(),
        forall|x: A, y: A| #[trigger] key(x) == #[trigger] key(y) ==> x == y,
    ensures
        a == b,
{
    let leq = |x: A, y: A| !key_lt(key(y), key(x));
    assert forall|x: A, y: A| #[trigger] leq(x, y) && #[trigger] leq(y, x) implies x == y by {
        lemma_key_lt_total(key(x), key(y));
    }
    assert forall|x: A, y: A| #[trigger] leq(x, y) || #[trigger] leq(y, x) by {
        if key_lt(key(y), key(x)) && key_lt(key(x), key(y)) {
            lemma_key_lt_transitive(key(x), key(y), key(x));
            lemma_key_lt_irreflexive(key(x));
        }
    }
    assert forall|x: A| #[trigger] leq(x, x) by {
        lemma_key_lt_irreflexive(key(x));
    }
    assert forall|x: A, y: A, z: A| #[trigger] leq(x, y) && #[trigger] leq(y, z) implies leq(
        x,
        z,
    ) by {
        let (p, q, r) = (key(x), key(y), key(z));
        if key_lt(r, p) {
            lemma_key_lt_total(p, q);
            lemma_key_lt_total(q, r);
            if key_lt(p, q) {
                lemma_key_lt_transitive(r, p, q);
            }
        }
    }
    assert(vstd::relations::sorted_by(a, leq));
    assert(vstd::relations::sorted_by(b, leq));
    vstd::seq_lib::lemma_sorted_unique(a, b, leq);
}

/// Two sequences without duplicates and with the same members have the same items.
pub proof fn lemma_same_members<A>(a: Seq<A>, b: Seq<A>)
    requires
        a.no_duplicates(),
        b.no_duplicates(),
        forall|x: A| #[trigger] a.contains(x) <==> b.contains(x),
    ensures
        a.to_multiset() == b.to_multiset(),
{
    broadcast use vstd::seq_lib::group_to_multiset_ensures;

    a.lemma_multiset_has_no_duplicates();
    b.lemma_multiset_has_no_duplicates();
    assert forall|x: A| a.to_multiset().count(x) == b.to_multiset().count(x) by {
        assert(a.contains(x) <==> a.to_multiset().count(x) > 0);
        assert(b.contains(x) <==> b.to_multiset().count(x) > 0);
        assert(a.to_multiset().contains(x) ==> a.to_multiset().count(x) == 1);
        assert(b.to_multiset().contains(x) ==> b.to_multiset().count(x) == 1);
    }
    assert(a.to_multiset() =~= b.to_multiset());
}

/// What a stable sort makes of the items is sorted.
pub proof fn lemma_order_sorts<T: Ranked>(v: Seq<T>, p: Seq<usize>, i: int, j: int)
    requires
        is_stable_order(v, p),
        0 <= i < j < p.len(),
    ensures
        !key_lt(v[p[j] as int].key(), v[p[i] as int].key()),
{
    let a = v[p[i] as int].key();
    let b = v[p[j] as int].key();
    assert(place_lt(v, p[i] as int, p[j] as int));
    if key_lt(b, a) {
        if key_lt(a, b) {
            lemma_key_lt_transitive(a, b, a);
        }
        lemma_key_lt_irreflexive(a);
    }
}

/// The first character in which two texts differ decides their order; a text comes before
/// each longer one that it begins.
pub proof fn law_text_order(p: Seq<char>, c: char, a: Seq<char>, d: char, b: Seq<char>)
    requires
        c != d,
    ensures
        text_lt(p + seq![c] + a, p + seq![d] + b) <==> c < d,
        text_lt(p, p + seq![c] + a),
        !text_lt(p + seq![c] + a, p),
        !text_lt(p, p),
    decreases p.len(),
{
    let (x, y) = (p + seq![c] + a, p + seq![d] + b);
    lemma_text_lt_irreflexive(p);
    if p.len() == 0 {
        assert(x[0] == c && y[0] == d);
    } else {
        let q = p.skip(1);
        law_text_order(q, c, a, d, b);
        assert(x[0] == p[0] && y[0] == p[0]);
        assert(x.skip(1) =~= q + seq![c] + a);
        assert(y.skip(1) =~= q + seq![d] + b);
    }
}

/// A stable sort takes each item once, puts none behind one with a later key, and leaves
/// those with one key in their order.
pub proof fn law_stable_order<T: Ranked>(v: Seq<T>, p: Seq<usize>)
    requires
        is_stable_order(v, p),
        v.len() <= usize::MAX,
    ensures
        p.len() == v.len(),
        p.no_duplicates(),
        forall|i: int| 0 <= i < p.len() ==> 0 <= #[trigger] p[i] < v.len(),
        forall|k: usize| k < v.len() ==> #[trigger] p.contains(k),
        forall|i: int, j: int|
            0 <= i < j < p.len() ==> {
                let (x, y) = (v[#[trigger] p[i] as int].key(), v[#[trigger] p[j] as int].key());
                key_lt(x, y) || (x == y && p[i] < p[j])
            },
{
    broadcast use vstd::seq_lib::group_to_multiset_ensures;

    let q = positions(0, v.len() as int);
    assert(p.to_multiset().len() == q.to_multiset().len());
    assert(q.no_duplicates());
    q.lemma_multiset_has_no_duplicates();
    p.lemma_multiset_has_no_duplicates_conv();
    assert forall|k: usize| k < v.len() implies #[trigger] p.contains(k) by {
        assert(q[k as int] == k);
        assert(q.contains(k));
        assert(q.to_multiset().count(k) > 0);
    }
    assert forall|i: int, j: int| 0 <= i < j < p.len() implies {
        let (x, y) = (v[#[trigger] p[i] as int].key(), v[#[trigger] p[j] as int].key());
        key_lt(x, y) || (x == y && p[i] < p[j])
    } by {
        assert(place_lt(v, p[i] as int, p[j] as int));
    }
}

} // verus!
