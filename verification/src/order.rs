//! Byte-lexicographic order, and vectors kept sorted by a byte key.

use vstd::prelude::*;

verus! {

/// `a` comes strictly before `b` in byte-lexicographic order.
pub open spec fn precedes(a: Seq<u8>, b: Seq<u8>) -> bool
    decreases a.len(),
{
    if b.len() == 0 {
        false
    } else if a.len() == 0 {
        true
    } else if a[0] != b[0] {
        a[0] < b[0]
    } else {
        precedes(a.drop_first(), b.drop_first())
    }
}

/// Nothing comes before itself.
pub proof fn lemma_precedes_irreflexive(a: Seq<u8>)
    ensures
        !precedes(a, a),
    decreases a.len(),
{
    if a.len() > 0 {
        lemma_precedes_irreflexive(a.drop_first());
    }
}

/// The order is transitive.
pub proof fn lemma_precedes_transitive(a: Seq<u8>, b: Seq<u8>, c: Seq<u8>)
    requires
        precedes(a, b),
        precedes(b, c),
    ensures
        precedes(a, c),
    decreases a.len(),
{
    if a.len() > 0 && a[0] == b[0] && b[0] == c[0] {
        lemma_precedes_transitive(a.drop_first(), b.drop_first(), c.drop_first());
    }
}

/// Of two different byte strings one comes before the other.
pub proof fn lemma_precedes_total(a: Seq<u8>, b: Seq<u8>)
    ensures
        precedes(a, b) || a == b || precedes(b, a),
    decreases a.len(),
{
    if a.len() == 0 || b.len() == 0 {
        if a.len() == 0 && b.len() == 0 {
            assert(a =~= b);
        }
    } else if a[0] == b[0] {
        lemma_precedes_total(a.drop_first(), b.drop_first());
        if a.drop_first() == b.drop_first() {
            assert(a =~= seq![a[0]] + a.drop_first());
            assert(b =~= seq![b[0]] + b.drop_first());
        }
    }
}

/// A byte string that comes before another differs from it and does not come after it.
pub proof fn lemma_precedes_asymmetric(a: Seq<u8>, b: Seq<u8>)
    requires
        precedes(a, b),
    ensures
        a != b,
        !precedes(b, a),
{
    lemma_precedes_irreflexive(a);
    if precedes(b, a) {
        lemma_precedes_transitive(a, b, a);
    }
}

/// Where one byte string stands relative to another.
#[derive(Clone, Copy, Debug, PartialEq, Eq, Structural)]
pub enum Place {
    Before,
    Same,
    After,
}

/// Compares two byte strings lexicographically.
pub fn compare(a: &[u8], b: &[u8]) -> (r: Place)
    ensures
        r is Before <==> precedes(a@, b@),
        r is Same <==> a@ == b@,
        r is After <==> precedes(b@, a@),
{
    let mut i: usize = 0;
    proof {
        assert(a@.skip(0) =~= a@);
        assert(b@.skip(0) =~= b@);
    }
    while i < a.len() && i < b.len()
        invariant
            i <= a.len(),
            i <= b.len(),
            a@.take(i as int) == b@.take(i as int),
            precedes(a@, b@) == precedes(a@.skip(i as int), b@.skip(i as int)),
            precedes(b@, a@) == precedes(b@.skip(i as int), a@.skip(i as int)),
        decreases a.len() - i,
    {
        let x = a[i];
        let y = b[i];
        proof {
            assert(a@.skip(i as int)[0] == x);
            assert(b@.skip(i as int)[0] == y);
            assert(a@.skip(i as int).drop_first() =~= a@.skip(i + 1));
            assert(b@.skip(i as int).drop_first() =~= b@.skip(i + 1));
        }
        if x < y {
            proof {
                assert(a@[i as int] != b@[i as int]);
            }
            return Place::Before;
        }
        if y < x {
            proof {
                assert(a@[i as int] != b@[i as int]);
            }
            return Place::After;
        }
        proof {
            assert(a@.take(i + 1) =~= a@.take(i as int).push(x));
            assert(b@.take(i + 1) =~= b@.take(i as int).push(y));
        }
        i += 1;
    }
    proof {
        if a.len() == b.len() {
            assert(a@.take(i as int) =~= a@);
            assert(b@.take(i as int) =~= b@);
            lemma_precedes_irreflexive(a@);
        }
    }
    if a.len() < b.len() {
        Place::Before
    } else if b.len() < a.len() {
        Place::After
    } else {
        Place::Same
    }
}

/// A value that is ordered and found by a byte key.
pub trait Key {
    /// The key the value is ordered by.
    spec fn key(&self) -> Seq<u8>;
}

/// A value that can hand out its key.
pub trait Keyed: Key {
    /// The key, as bytes.
    fn key_bytes(&self) -> (k: &[u8])
        ensures
            k@ == self.key(),
    ;
}

/// The keys rise strictly from one element to the next.
pub open spec fn sorted<E: Key>(s: Seq<E>) -> bool {
    forall|i: int, j: int|
        0 <= i < j < s.len() ==> precedes(#[trigger] s[i].key(), #[trigger] s[j].key())
}

/// How many elements have a key that comes before `k`.
pub open spec fn rank<E: Key>(s: Seq<E>, k: Seq<u8>) -> int
    decreases s.len(),
{
    if s.len() == 0 {
        0
    } else {
        rank(s.drop_last(), k) + if precedes(s.last().key(), k) {
            1int
        } else {
            0int
        }
    }
}

/// The index of the element with key `k`, if there is one.
pub open spec fn index_of<E: Key>(s: Seq<E>, k: Seq<u8>) -> Option<int> {
    let p = rank(s, k);
    if 0 <= p < s.len() && s[p].key() == k {
        Some(p)
    } else {
        None
    }
}

/// The element with key `k`, if there is one.
pub open spec fn item_at<E: Key>(s: Seq<E>, k: Seq<u8>) -> Option<E> {
    match index_of(s, k) {
        Some(i) => Some(s[i]),
        None => None,
    }
}

/// `s` with `e` put in its place: over the element of the same key, or between its neighbours.
pub open spec fn placed<E: Key>(s: Seq<E>, e: E) -> Seq<E> {
    match index_of(s, e.key()) {
        Some(p) => s.update(p, e),
        None => s.insert(rank(s, e.key()), e),
    }
}

/// In a sorted sequence the rank of a key is the index at which the keys stop coming before it.
pub proof fn lemma_rank_is_split<E: Key>(s: Seq<E>, k: Seq<u8>, p: int)
    requires
        0 <= p <= s.len(),
        forall|i: int| 0 <= i < p ==> precedes(#[trigger] s[i].key(), k),
        forall|i: int| p <= i < s.len() ==> !precedes(#[trigger] s[i].key(), k),
    ensures
        rank(s, k) == p,
    decreases s.len(),
{
    if s.len() > 0 {
        let t = s.drop_last();
        if p == s.len() {
            lemma_rank_is_split(t, k, p - 1);
        } else {
            lemma_rank_is_split(t, k, p);
        }
    }
}

/// The rank lies within the sequence's bounds.
pub proof fn lemma_rank_bounds<E: Key>(s: Seq<E>, k: Seq<u8>)
    ensures
        0 <= rank(s, k) <= s.len(),
    decreases s.len(),
{
    if s.len() > 0 {
        lemma_rank_bounds(s.drop_last(), k);
    }
}

/// In a sorted sequence, the elements below the rank of `k` come before `k`, and those from
/// the rank on do not.
pub proof fn lemma_rank_splits<E: Key>(s: Seq<E>, k: Seq<u8>)
    requires
        sorted(s),
    ensures
        0 <= rank(s, k) <= s.len(),
        forall|i: int| 0 <= i < rank(s, k) ==> precedes(#[trigger] s[i].key(), k),
        forall|i: int| rank(s, k) <= i < s.len() ==> !precedes(#[trigger] s[i].key(), k),
    decreases s.len(),
{
    lemma_rank_bounds(s, k);
    if s.len() > 0 {
        let t = s.drop_last();
        assert forall|i: int, j: int| 0 <= i < j < t.len() implies precedes(
            #[trigger] t[i].key(),
            #[trigger] t[j].key(),
        ) by {
            assert(t[i] == s[i] && t[j] == s[j]);
        }
        lemma_rank_splits(t, k);
        let n = s.len() - 1;
        if precedes(s.last().key(), k) {
            assert forall|i: int| 0 <= i < n implies precedes(#[trigger] s[i].key(), k) by {
                lemma_precedes_transitive(s[i].key(), s[n].key(), k);
            }
            assert forall|i: int| 0 <= i < n implies precedes(#[trigger] t[i].key(), k) by {
                assert(t[i] == s[i]);
            }
            lemma_rank_is_split(t, k, n);
        } else {
            assert forall|i: int| 0 <= i < rank(s, k) implies precedes(
                #[trigger] s[i].key(),
                k,
            ) by {
                assert(t[i] == s[i]);
            }
            assert forall|i: int| rank(s, k) <= i < s.len() implies !precedes(
                #[trigger] s[i].key(),
                k,
            ) by {
                if i < n {
                    assert(t[i] == s[i]);
                }
            }
        }
    }
}

/// Two sequences with the same keys, element by element, give every key the same rank.
pub proof fn lemma_same_keys_rank<A: Key, B: Key>(s: Seq<A>, t: Seq<B>, k: Seq<u8>)
    requires
        s.len() == t.len(),
        forall|i: int| 0 <= i < s.len() ==> #[trigger] s[i].key() == t[i].key(),
    ensures
        rank(s, k) == rank(t, k),
        index_of(s, k) == index_of(t, k),
    decreases s.len(),
{
    if s.len() > 0 {
        let s1 = s.drop_last();
        let t1 = t.drop_last();
        assert forall|i: int| 0 <= i < s1.len() implies #[trigger] s1[i].key() == t1[i].key() by {
            assert(s1[i] == s[i] && t1[i] == t[i]);
            assert(s[i].key() == t[i].key());
        }
        lemma_same_keys_rank(s1, t1, k);
        assert(s[s.len() - 1].key() == t[s.len() - 1].key());
        lemma_rank_bounds(s, k);
        let p = rank(s, k);
        if p < s.len() {
            assert(s[p].key() == t[p].key());
        }
    }
}

/// Two sequences with the same keys, element by element, are sorted together.
pub proof fn lemma_same_keys_sorted<A: Key, B: Key>(s: Seq<A>, t: Seq<B>)
    requires
        s.len() == t.len(),
        forall|i: int| 0 <= i < s.len() ==> #[trigger] s[i].key() == t[i].key(),
        sorted(s),
    ensures
        sorted(t),
{
    assert forall|i: int, j: int| 0 <= i < j < t.len() implies precedes(
        #[trigger] t[i].key(),
        #[trigger] t[j].key(),
    ) by {
        assert(s[i].key() == t[i].key());
        assert(s[j].key() == t[j].key());
        assert(precedes(s[i].key(), s[j].key()));
    }
}

/// A key occurs at most once in a sorted sequence, and `index_of` finds it.
pub proof fn lemma_index_of_unique<E: Key>(s: Seq<E>, i: int)
    requires
        sorted(s),
        0 <= i < s.len(),
    ensures
        index_of(s, s[i].key()) == Some(i),
        forall|j: int| 0 <= j < s.len() && #[trigger] s[j].key() == s[i].key() ==> j == i,
{
    let k = s[i].key();
    assert forall|j: int| 0 <= j < i implies precedes(#[trigger] s[j].key(), k) by {}
    assert forall|j: int| i <= j < s.len() implies !precedes(#[trigger] s[j].key(), k) by {
        if j == i {
            lemma_precedes_irreflexive(k);
        } else {
            lemma_precedes_asymmetric(k, s[j].key());
        }
    }
    lemma_rank_is_split(s, k, i);
    assert forall|j: int| 0 <= j < s.len() && #[trigger] s[j].key() == k implies j == i by {
        lemma_precedes_irreflexive(k);
        if j < i {
            assert(precedes(s[j].key(), s[i].key()));
        } else if i < j {
            assert(precedes(s[i].key(), s[j].key()));
        }
    }
}

/// A key that `index_of` does not find belongs to no element of a sorted sequence.
pub proof fn lemma_index_of_none<E: Key>(s: Seq<E>, k: Seq<u8>)
    requires
        sorted(s),
        index_of(s, k) is None,
    ensures
        forall|j: int| 0 <= j < s.len() ==> #[trigger] s[j].key() != k,
{
    assert forall|j: int| 0 <= j < s.len() implies #[trigger] s[j].key() != k by {
        if s[j].key() == k {
            lemma_index_of_unique(s, j);
        }
    }
}

/// Putting an element in its place keeps the sequence sorted.
pub proof fn lemma_placed_sorted<E: Key>(s: Seq<E>, e: E)
    requires
        sorted(s),
    ensures
        sorted(placed(s, e)),
{
    let k = e.key();
    let p = rank(s, k);
    let t = placed(s, e);
    lemma_rank_splits(s, k);
    match index_of(s, k) {
        Some(_) => {
            assert forall|i: int, j: int| 0 <= i < j < t.len() implies precedes(
                #[trigger] t[i].key(),
                #[trigger] t[j].key(),
            ) by {
                assert(t[i].key() == s[i].key());
                assert(t[j].key() == s[j].key());
            }
        },
        None => {
            lemma_index_of_none(s, k);
            assert forall|i: int, j: int| 0 <= i < j < t.len() implies precedes(
                #[trigger] t[i].key(),
                #[trigger] t[j].key(),
            ) by {
                if j < p {
                    assert(t[i] == s[i] && t[j] == s[j]);
                } else if j == p {
                    assert(t[i] == s[i]);
                } else if i < p {
                    assert(t[i] == s[i] && t[j] == s[j - 1]);
                } else if i == p {
                    assert(t[j] == s[j - 1]);
                    lemma_precedes_total(s[j - 1].key(), k);
                } else {
                    assert(t[i] == s[i - 1] && t[j] == s[j - 1]);
                }
            }
        },
    }
}

/// A sorted sequence without its last element is sorted.
pub proof fn lemma_sorted_drop_last<E: Key>(s: Seq<E>)
    requires
        sorted(s),
        s.len() > 0,
    ensures
        sorted(s.drop_last()),
{
    let t = s.drop_last();
    assert forall|i: int, j: int| 0 <= i < j < t.len() implies precedes(
        #[trigger] t[i].key(),
        #[trigger] t[j].key(),
    ) by {
        assert(t[i] == s[i] && t[j] == s[j]);
    }
}

/// The beginning of a sorted sequence is sorted.
pub proof fn lemma_sorted_take<E: Key>(s: Seq<E>, n: int)
    requires
        sorted(s),
        0 <= n <= s.len(),
    ensures
        sorted(s.take(n)),
{
    let t = s.take(n);
    assert forall|i: int, j: int| 0 <= i < j < t.len() implies precedes(
        #[trigger] t[i].key(),
        #[trigger] t[j].key(),
    ) by {
        assert(t[i] == s[i] && t[j] == s[j]);
    }
}

/// What stands under a key in a sorted sequence: its last element under that element's key,
/// and under any other key what the sequence without its last element holds there.
pub proof fn lemma_item_at_last<E: Key>(s: Seq<E>, k: Seq<u8>)
    requires
        sorted(s),
        s.len() > 0,
    ensures
        item_at(s, k) == if k == s.last().key() {
            Some(s.last())
        } else {
            item_at(s.drop_last(), k)
        },
{
    let t = s.drop_last();
    let n = s.len() - 1;
    lemma_sorted_drop_last(s);
    if k == s.last().key() {
        lemma_index_of_unique(s, n);
    } else {
        match index_of(t, k) {
            Some(i) => {
                assert(t[i] == s[i]);
                lemma_index_of_unique(s, i);
            },
            None => {
                lemma_index_of_none(t, k);
                if index_of(s, k) is Some {
                    let i = index_of(s, k)->0;
                    assert(i < n);
                    assert(t[i] == s[i]);
                }
            },
        }
    }
}

/// Every element of a sorted sequence stands under its own key.
pub proof fn lemma_item_at_index<E: Key>(s: Seq<E>, i: int)
    requires
        sorted(s),
        0 <= i < s.len(),
    ensures
        item_at(s, s[i].key()) == Some(s[i]),
{
    lemma_index_of_unique(s, i);
}

/// Two sorted sequences that hold the same element, or none, under every key are equal.
pub proof fn lemma_sorted_ext<E: Key>(s: Seq<E>, t: Seq<E>)
    requires
        sorted(s),
        sorted(t),
        forall|k: Seq<u8>| item_at(s, k) == item_at(t, k),
    ensures
        s == t,
    decreases s.len(),
{
    if s.len() == 0 {
        if t.len() > 0 {
            lemma_item_at_index(t, 0);
            assert(item_at(s, t[0].key()) is None);
        }
        assert(s =~= t);
    } else if t.len() == 0 {
        lemma_item_at_index(s, 0);
        assert(item_at(t, s[0].key()) is None);
    } else {
        // the last elements are the same: each is the one with the greatest key
        let a = s.last();
        let b = t.last();
        lemma_item_at_index(s, s.len() - 1);
        lemma_item_at_index(t, t.len() - 1);
        assert(item_at(t, a.key()) == Some(a));
        assert(item_at(s, b.key()) == Some(b));
        let i = index_of(t, a.key())->0;
        let j = index_of(s, b.key())->0;
        assert(t[i] == a && s[j] == b);
        if a.key() != b.key() {
            assert(i < t.len() - 1);
            assert(precedes(t[i].key(), t[t.len() - 1].key()));
            assert(j < s.len() - 1);
            assert(precedes(s[j].key(), s[s.len() - 1].key()));
            lemma_precedes_asymmetric(a.key(), b.key());
        }
        assert(a == b);
        lemma_sorted_drop_last(s);
        lemma_sorted_drop_last(t);
        assert forall|k: Seq<u8>| item_at(s.drop_last(), k) == item_at(t.drop_last(), k) by {
            lemma_item_at_last(s, k);
            lemma_item_at_last(t, k);
            if k == a.key() {
                if item_at(s.drop_last(), k) is Some {
                    let x = index_of(s.drop_last(), k)->0;
                    assert(s.drop_last()[x] == s[x]);
                    assert(precedes(s[x].key(), s[s.len() - 1].key()));
                    lemma_precedes_irreflexive(k);
                }
                if item_at(t.drop_last(), k) is Some {
                    let x = index_of(t.drop_last(), k)->0;
                    assert(t.drop_last()[x] == t[x]);
                    assert(precedes(t[x].key(), t[t.len() - 1].key()));
                    lemma_precedes_irreflexive(k);
                }
            }
        }
        lemma_sorted_ext(s.drop_last(), t.drop_last());
        assert(s =~= s.drop_last().push(a));
        assert(t =~= t.drop_last().push(b));
    }
}

/// Keeping some elements of a sorted sequence leaves it sorted, and leaves under each key
/// the element that was there, if it is kept.
pub proof fn lemma_filter_sorted<E: Key>(s: Seq<E>, keep: spec_fn(E) -> bool)
    requires
        sorted(s),
    ensures
        sorted(s.filter(keep)),
        forall|k: Seq<u8>|
            #[trigger] item_at(s.filter(keep), k) == match item_at(s, k) {
                Some(e) => if keep(e) {
                    Some(e)
                } else {
                    None
                },
                None => None,
            },
    decreases s.len(),
{
    reveal(Seq::filter);
    let f = s.filter(keep);
    if s.len() == 0 {
        assert(f == s);
    } else {
        let t = s.drop_last();
        let e = s.last();
        let g = t.filter(keep);
        lemma_sorted_drop_last(s);
        lemma_filter_sorted(t, keep);
        assert forall|i: int| 0 <= i < g.len() implies precedes(#[trigger] g[i].key(), e.key()) by {
            lemma_item_at_index(g, i);
            assert(item_at(g, g[i].key()) == Some(g[i]));
            assert(item_at(t, g[i].key()) == Some(g[i]));
            let j = index_of(t, g[i].key())->0;
            assert(t[j] == s[j]);
            assert(precedes(s[j].key(), s[s.len() - 1].key()));
        }
        if keep(e) {
            assert(f == g.push(e));
            assert forall|i: int, j: int| 0 <= i < j < f.len() implies precedes(
                #[trigger] f[i].key(),
                #[trigger] f[j].key(),
            ) by {
                if j < g.len() {
                    assert(f[i] == g[i] && f[j] == g[j]);
                } else {
                    assert(f[i] == g[i]);
                }
            }
        } else {
            assert(f == g);
        }
        assert forall|k: Seq<u8>|
            #[trigger] item_at(f, k) == match item_at(s, k) {
                Some(x) => if keep(x) {
                    Some(x)
                } else {
                    None
                },
                None => None,
            } by {
            lemma_item_at_last(s, k);
            assert(item_at(g, k) == match item_at(t, k) {
                Some(x) => if keep(x) {
                    Some(x)
                } else {
                    None
                },
                None => None,
            });
            if keep(e) {
                assert(f.drop_last() =~= g);
                lemma_item_at_last(f, k);
            } else if k == e.key() {
                if item_at(g, k) is Some {
                    let i = index_of(g, k)->0;
                    assert(precedes(g[i].key(), e.key()));
                    lemma_precedes_irreflexive(k);
                }
            }
        }
    }
}

/// An element whose key comes after all the others is put at the end.
pub proof fn lemma_placed_last<E: Key>(s: Seq<E>, e: E)
    requires
        sorted(s.push(e)),
    ensures
        placed(s, e) == s.push(e),
        sorted(s),
{
    let t = s.push(e);
    assert(t.drop_last() =~= s);
    lemma_sorted_drop_last(t);
    assert forall|i: int| 0 <= i < s.len() implies precedes(#[trigger] s[i].key(), e.key()) by {
        assert(t[i] == s[i] && t[s.len() as int] == e);
        assert(precedes(t[i].key(), t[s.len() as int].key()));
    }
    lemma_rank_is_split(s, e.key(), s.len() as int);
    assert(s.insert(s.len() as int, e) =~= t);
}

/// What `index_of` finds after `e` was put in its place: `e` under its own key, and under
/// every other key the element that was there before.
pub proof fn lemma_placed_index_of<E: Key>(s: Seq<E>, e: E, k: Seq<u8>)
    requires
        sorted(s),
    ensures
        k == e.key() ==> index_of(placed(s, e), k) == Some(rank(s, k)) && placed(s, e)[rank(
            s,
            k,
        )] == e,
        k != e.key() ==> (index_of(placed(s, e), k) is Some <==> index_of(s, k) is Some),
        k != e.key() && index_of(s, k) is Some ==> placed(s, e)[index_of(placed(s, e), k)->0]
            == s[index_of(s, k)->0],
{
    let t = placed(s, e);
    let p = rank(s, e.key());
    lemma_placed_sorted(s, e);
    lemma_rank_bounds(s, e.key());
    let hit = index_of(s, e.key()) is Some;
    if k == e.key() {
        assert(t[p] == e);
        lemma_index_of_unique(t, p);
    } else {
        match index_of(s, k) {
            Some(j) => {
                let j2 = if hit || j < p {
                    j
                } else {
                    j + 1
                };
                assert(t[j2] == s[j]);
                lemma_index_of_unique(t, j2);
            },
            None => {
                lemma_index_of_none(s, k);
                if index_of(t, k) is Some {
                    let i = index_of(t, k)->0;
                    if hit {
                        assert(i != p);
                        assert(t[i] == s[i]);
                    } else if i < p {
                        assert(t[i] == s[i]);
                    } else if i > p {
                        assert(t[i] == s[i - 1]);
                    }
                }
            },
        }
    }
}

/// Finds the element with key `k` in a sorted vector: `Ok` with its index, or `Err` with the
/// index at which an element of that key belongs.
pub fn search<E: Keyed>(v: &Vec<E>, k: &[u8]) -> (r: Result<usize, usize>)
    requires
        sorted(v@),
    ensures
        match r {
            Ok(i) => index_of(v@, k@) == Some(i as int) && i < v.len() && v@[i as int].key() == k@,
            Err(i) => index_of(v@, k@) is None && i == rank(v@, k@) && i <= v.len(),
        },
{
    let mut lo: usize = 0;
    let mut hi: usize = v.len();
    while lo < hi
        invariant
            sorted(v@),
            lo <= hi <= v.len(),
            forall|i: int| 0 <= i < lo ==> precedes(#[trigger] v@[i].key(), k@),
            forall|i: int| hi <= i < v.len() ==> precedes(k@, #[trigger] v@[i].key()),
        decreases hi - lo,
    {
        let mid = lo + (hi - lo) / 2;
        match compare(v[mid].key_bytes(), k) {
            Place::Before => {
                proof {
                    assert forall|i: int| 0 <= i < mid + 1 implies precedes(
                        #[trigger] v@[i].key(),
                        k@,
                    ) by {
                        if i < mid {
                            lemma_precedes_transitive(v@[i].key(), v@[mid as int].key(), k@);
                        }
                    }
                }
                lo = mid + 1;
            },
            Place::After => {
                proof {
                    assert forall|i: int| mid <= i < v.len() implies precedes(
                        k@,
                        #[trigger] v@[i].key(),
                    ) by {
                        if mid < i {
                            lemma_precedes_transitive(k@, v@[mid as int].key(), v@[i].key());
                        }
                    }
                }
                hi = mid;
            },
            Place::Same => {
                proof {
                    lemma_index_of_unique(v@, mid as int);
                }
                return Ok(mid);
            },
        }
    }
    proof {
        assert forall|i: int| lo <= i < v.len() implies !precedes(#[trigger] v@[i].key(), k@) by {
            lemma_precedes_asymmetric(k@, v@[i].key());
        }
        lemma_rank_is_split(v@, k@, lo as int);
        if lo < v.len() {
            lemma_precedes_asymmetric(k@, v@[lo as int].key());
        }
    }
    Err(lo)
}

/// Puts `e` in its place in a sorted vector, over an element of the same key if there is one.
/// Returns the index at which `e` now stands.
pub fn put<E: Keyed>(v: &mut Vec<E>, e: E) -> (p: usize)
    requires
        sorted(old(v)@),
    ensures
        final(v)@ == placed(old(v)@, e),
        sorted(final(v)@),
        p == rank(old(v)@, e.key()),
        p < final(v).len(),
        final(v)@[p as int] == e,
{
    proof {
        lemma_placed_sorted(v@, e);
        lemma_rank_bounds(v@, e.key());
    }
    match search(v, e.key_bytes()) {
        Ok(i) => {
            v[i] = e;
            i
        },
        Err(i) => {
            v.insert(i, e);
            i
        },
    }
}

} // verus!
