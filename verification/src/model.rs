//! Mathematical models shared by the replicated types — pointwise joins
//! of maps, sums over finite maps, and the abstraction of association
//! vectors to maps and sets — together with the verified primitive
//! operations on those vectors.

use vstd::prelude::*;

verus! {

use crate::traits::Payload;

/// The pointwise join of two maps: keys of either side survive, and a key
/// both sides hold is combined with `f`.
pub open spec fn join_maps<A, B>(a: Map<A, B>, b: Map<A, B>, f: spec_fn(B, B) -> B) -> Map<
    A,
    B,
> {
    Map::new(
        |k: A| a.dom().contains(k) || b.dom().contains(k),
        |k: A|
            if a.dom().contains(k) && b.dom().contains(k) {
                f(a[k], b[k])
            } else if a.dom().contains(k) {
                a[k]
            } else {
                b[k]
            },
    )
}

/// Joining a map with itself changes nothing when `f` is idempotent on its
/// entries.
pub proof fn lemma_join_maps_idem<A, B>(a: Map<A, B>, f: spec_fn(B, B) -> B)
    requires
        forall|k: A| #[trigger] a.dom().contains(k) ==> f(a[k], a[k]) == a[k],
    ensures
        join_maps(a, a, f) == a,
{
    assert(join_maps(a, a, f) =~= a);
}

/// The pointwise join commutes when `f` commutes on the entries both sides
/// hold.
pub proof fn lemma_join_maps_comm<A, B>(a: Map<A, B>, b: Map<A, B>, f: spec_fn(B, B) -> B)
    requires
        forall|k: A|
            (#[trigger] a.dom().contains(k)) && b.dom().contains(k) ==> f(a[k], b[k]) == f(
                b[k],
                a[k],
            ),
    ensures
        join_maps(a, b, f) == join_maps(b, a, f),
{
    assert(join_maps(a, b, f) =~= join_maps(b, a, f));
}

/// The pointwise join is associative when `f` is associative on the
/// entries all three sides hold.
pub proof fn lemma_join_maps_assoc<A, B>(
    a: Map<A, B>,
    b: Map<A, B>,
    c: Map<A, B>,
    f: spec_fn(B, B) -> B,
)
    requires
        forall|k: A|
            (#[trigger] a.dom().contains(k)) && b.dom().contains(k) && c.dom().contains(k) ==> f(
                f(a[k], b[k]),
                c[k],
            ) == f(a[k], f(b[k], c[k])),
    ensures
        join_maps(join_maps(a, b, f), c, f) == join_maps(a, join_maps(b, c, f), f),
{
    assert(join_maps(join_maps(a, b, f), c, f) =~= join_maps(a, join_maps(b, c, f), f));
}

/// Joining with the empty map changes nothing.
pub proof fn lemma_join_maps_empty<A, B>(a: Map<A, B>, f: spec_fn(B, B) -> B)
    ensures
        join_maps(a, Map::<A, B>::empty(), f) == a,
        join_maps(Map::<A, B>::empty(), a, f) == a,
{
    assert(join_maps(a, Map::<A, B>::empty(), f) =~= a);
    assert(join_maps(Map::<A, B>::empty(), a, f) =~= a);
}

/// Extending the right-hand side by a key it did not hold inserts the
/// combined entry into the join.
pub proof fn lemma_join_maps_insert_fresh<A, B>(
    a: Map<A, B>,
    b: Map<A, B>,
    f: spec_fn(B, B) -> B,
    k: A,
    v: B,
)
    requires
        !b.dom().contains(k),
    ensures
        join_maps(a, b.insert(k, v), f) == (if a.dom().contains(k) {
            join_maps(a, b, f).insert(k, f(a[k], v))
        } else {
            join_maps(a, b, f).insert(k, v)
        }),
{
    if a.dom().contains(k) {
        assert(join_maps(a, b.insert(k, v), f) =~= join_maps(a, b, f).insert(k, f(a[k], v)));
    } else {
        assert(join_maps(a, b.insert(k, v), f) =~= join_maps(a, b, f).insert(k, v));
    }
}

/// The sum of the entries of a finite map of integers.
pub open spec fn gsum<A>(m: Map<A, int>) -> int
    decreases m.dom().len(),
{
    if m.dom().finite() && m.dom().len() > 0 {
        let k = m.dom().choose();
        m[k] + gsum(m.remove(k))
    } else {
        0
    }
}

/// Splitting off any one entry of a finite map splits its sum.
pub proof fn lemma_gsum_remove<A>(m: Map<A, int>, k: A)
    requires
        m.dom().finite(),
        m.dom().contains(k),
    ensures
        gsum(m) == m[k] + gsum(m.remove(k)),
    decreases m.dom().len(),
{
    let k0 = m.dom().choose();
    assert(m.dom().contains(k0));
    if k0 == k {
    } else {
        lemma_gsum_remove(m.remove(k0), k);
        lemma_gsum_remove(m.remove(k), k0);
        assert(m.remove(k0).remove(k) =~= m.remove(k).remove(k0));
    }
}

/// Inserting an entry adjusts the sum by the difference with the entry it
/// replaces.
pub proof fn lemma_gsum_insert<A>(m: Map<A, int>, k: A, v: int)
    requires
        m.dom().finite(),
    ensures
        gsum(m.insert(k, v)) == gsum(m) + v - (if m.dom().contains(k) {
            m[k]
        } else {
            0
        }),
{
    let m2 = m.insert(k, v);
    lemma_gsum_remove(m2, k);
    assert(m2.remove(k) =~= m.remove(k));
    if m.dom().contains(k) {
        lemma_gsum_remove(m, k);
    } else {
        assert(m.remove(k) =~= m);
    }
}

/// A map of non-negative entries has a non-negative sum.
pub proof fn lemma_gsum_nonneg<A>(m: Map<A, int>)
    requires
        m.dom().finite(),
        forall|k: A| #[trigger] m.dom().contains(k) ==> m[k] >= 0,
    ensures
        gsum(m) >= 0,
    decreases m.dom().len(),
{
    if m.dom().len() > 0 {
        let k = m.dom().choose();
        assert(m.dom().contains(k));
        lemma_gsum_nonneg(m.remove(k));
    }
}

/// No two elements of the sequence stand for the same abstract value.
pub open spec fn distinct_abs<T: Payload>(s: Seq<T>) -> bool {
    forall|i: int, j: int|
        0 <= i < j < s.len() ==> #[trigger] s[i].abs() != #[trigger] s[j].abs()
}

/// The set of abstract values of the elements of a sequence.
pub open spec fn abs_set<T: Payload>(s: Seq<T>) -> Set<T::Abs>
    decreases s.len(),
{
    if s.len() == 0 {
        Set::empty()
    } else {
        abs_set(s.drop_last()).insert(s.last().abs())
    }
}

/// Membership in the abstract set is witnessed by an index.
pub proof fn lemma_abs_set_contains<T: Payload>(s: Seq<T>, a: T::Abs)
    ensures
        abs_set(s).contains(a) <==> exists|i: int| 0 <= i < s.len() && s[i].abs() == a,
    decreases s.len(),
{
    if s.len() > 0 {
        lemma_abs_set_contains(s.drop_last(), a);
        if s.last().abs() == a {
            assert(s[s.len() - 1].abs() == a);
        }
        if exists|i: int| 0 <= i < s.len() && s[i].abs() == a {
            let i = choose|i: int| 0 <= i < s.len() && s[i].abs() == a;
            if i < s.len() - 1 {
                assert(s.drop_last()[i].abs() == a);
            }
        }
    }
}

/// Appending an element inserts its abstract value.
pub proof fn lemma_abs_set_push<T: Payload>(s: Seq<T>, x: T)
    ensures
        abs_set(s.push(x)) == abs_set(s).insert(x.abs()),
{
    assert(s.push(x).drop_last() =~= s);
    assert(s.push(x).last() == x);
}

/// No two entries of the association vector share a key.
pub open spec fn distinct_keys<K: Payload, V>(s: Seq<(K, V)>) -> bool {
    forall|i: int, j: int|
        0 <= i < j < s.len() ==> #[trigger] s[i].0.abs() != #[trigger] s[j].0.abs()
}

/// The map an association vector stands for, with entries abstracted by
/// `f`.
pub open spec fn assoc_map<K: Payload, V, B>(s: Seq<(K, V)>, f: spec_fn(V) -> B) -> Map<
    K::Abs,
    B,
>
    decreases s.len(),
{
    if s.len() == 0 {
        Map::empty()
    } else {
        assoc_map(s.drop_last(), f).insert(s.last().0.abs(), f(s.last().1))
    }
}

/// Membership in the association map's domain is witnessed by an index.
pub proof fn lemma_assoc_map_dom<K: Payload, V, B>(s: Seq<(K, V)>, f: spec_fn(V) -> B, a: K::Abs)
    ensures
        assoc_map(s, f).dom().contains(a) <==> exists|i: int|
            0 <= i < s.len() && s[i].0.abs() == a,
    decreases s.len(),
{
    if s.len() > 0 {
        lemma_assoc_map_dom(s.drop_last(), f, a);
        if s.last().0.abs() == a {
            assert(s[s.len() - 1].0.abs() == a);
        }
        if exists|i: int| 0 <= i < s.len() && s[i].0.abs() == a {
            let i = choose|i: int| 0 <= i < s.len() && s[i].0.abs() == a;
            if i < s.len() - 1 {
                assert(s.drop_last()[i].0.abs() == a);
            }
        }
    }
}

/// The association map's domain is finite.
pub proof fn lemma_assoc_map_finite<K: Payload, V, B>(s: Seq<(K, V)>, f: spec_fn(V) -> B)
    ensures
        assoc_map(s, f).dom().finite(),
    decreases s.len(),
{
    if s.len() > 0 {
        lemma_assoc_map_finite(s.drop_last(), f);
    }
}

/// With distinct keys, the entry at any index is the map's entry for its
/// key.
pub proof fn lemma_assoc_map_index<K: Payload, V, B>(
    s: Seq<(K, V)>,
    f: spec_fn(V) -> B,
    i: int,
)
    requires
        distinct_keys(s),
        0 <= i < s.len(),
    ensures
        assoc_map(s, f).dom().contains(s[i].0.abs()),
        assoc_map(s, f)[s[i].0.abs()] == f(s[i].1),
    decreases s.len(),
{
    if i == s.len() - 1 {
    } else {
        assert(s.drop_last()[i] == s[i]);
        lemma_assoc_map_index(s.drop_last(), f, i);
        assert(s[i].0.abs() != s[s.len() - 1].0.abs());
    }
}

/// Replacing the entry at an index by one with the same key updates the
/// map at that key.
pub proof fn lemma_assoc_map_update<K: Payload, V, B>(
    s: Seq<(K, V)>,
    f: spec_fn(V) -> B,
    i: int,
    kv: (K, V),
)
    requires
        distinct_keys(s),
        0 <= i < s.len(),
        kv.0.abs() == s[i].0.abs(),
    ensures
        assoc_map(s.update(i, kv), f) == assoc_map(s, f).insert(kv.0.abs(), f(kv.1)),
    decreases s.len(),
{
    let s2 = s.update(i, kv);
    if i == s.len() - 1 {
        assert(s2.drop_last() =~= s.drop_last());
        assert(s2.last() == kv);
        assert(assoc_map(s2, f) =~= assoc_map(s, f).insert(kv.0.abs(), f(kv.1)));
    } else {
        assert(s2.drop_last() =~= s.drop_last().update(i, kv));
        assert(s.drop_last()[i] == s[i]);
        lemma_assoc_map_update(s.drop_last(), f, i, kv);
        assert(s2.last() == s.last());
        assert(s[i].0.abs() != s[s.len() - 1].0.abs());
        assert(assoc_map(s2, f) =~= assoc_map(s, f).insert(kv.0.abs(), f(kv.1)));
    }
}

/// Appending an entry inserts it into the map.
pub proof fn lemma_assoc_map_push<K: Payload, V, B>(s: Seq<(K, V)>, f: spec_fn(V) -> B, kv: (K, V))
    ensures
        assoc_map(s.push(kv), f) == assoc_map(s, f).insert(kv.0.abs(), f(kv.1)),
{
    assert(s.push(kv).drop_last() =~= s);
    assert(s.push(kv).last() == kv);
}

/// With distinct keys, the key at an index is absent from the map of the
/// entries before it.
pub proof fn lemma_assoc_map_take_fresh<K: Payload, V, B>(
    s: Seq<(K, V)>,
    f: spec_fn(V) -> B,
    i: int,
)
    requires
        distinct_keys(s),
        0 <= i < s.len(),
    ensures
        !assoc_map(s.take(i), f).dom().contains(s[i].0.abs()),
{
    lemma_assoc_map_dom(s.take(i), f, s[i].0.abs());
    if assoc_map(s.take(i), f).dom().contains(s[i].0.abs()) {
        let j = choose|j: int|
            0 <= j < s.take(i).len() && s.take(i)[j].0.abs() == s[i].0.abs();
        assert(s.take(i)[j] == s[j]);
        assert(s[j].0.abs() != s[i].0.abs());
        assert(false);
    }
}

/// Replacing an entry by one with the same key keeps the keys distinct.
pub proof fn lemma_distinct_keys_update<K: Payload, V>(s: Seq<(K, V)>, i: int, kv: (K, V))
    requires
        distinct_keys(s),
        0 <= i < s.len(),
        kv.0.abs() == s[i].0.abs(),
    ensures
        distinct_keys(s.update(i, kv)),
{
    let s2 = s.update(i, kv);
    assert forall|x: int, y: int| 0 <= x < y < s2.len() implies (#[trigger] s2[x].0.abs()) != (
    #[trigger] s2[y].0.abs()) by {
        assert(s[x].0.abs() != s[y].0.abs());
        if x == i {
            assert(s2[x] == kv && s2[y] == s[y]);
        } else if y == i {
            assert(s2[x] == s[x] && s2[y] == kv);
        } else {
            assert(s2[x] == s[x] && s2[y] == s[y]);
        }
    }
}

/// Appending an entry under a key nothing holds keeps the keys distinct.
pub proof fn lemma_distinct_keys_push<K: Payload, V>(s: Seq<(K, V)>, kv: (K, V))
    requires
        distinct_keys(s),
        forall|i: int| 0 <= i < s.len() ==> (#[trigger] s[i].0.abs()) != kv.0.abs(),
    ensures
        distinct_keys(s.push(kv)),
{
    let s2 = s.push(kv);
    assert forall|x: int, y: int| 0 <= x < y < s2.len() implies (#[trigger] s2[x].0.abs()) != (
    #[trigger] s2[y].0.abs()) by {
        if y == s.len() {
            assert(s2[x] == s[x] && s2[y] == kv);
            assert(s[x].0.abs() != kv.0.abs());
        } else {
            assert(s2[x] == s[x] && s2[y] == s[y]);
            assert(s[x].0.abs() != s[y].0.abs());
        }
    }
}

/// Appending an element whose value is absent keeps the elements
/// distinct.
pub proof fn lemma_distinct_push<T: Payload>(s: Seq<T>, x: T)
    requires
        distinct_abs(s),
        !abs_set(s).contains(x.abs()),
    ensures
        distinct_abs(s.push(x)),
{
    lemma_abs_set_contains(s, x.abs());
    let s2 = s.push(x);
    assert forall|i: int, j: int| 0 <= i < j < s2.len() implies (#[trigger] s2[i].abs()) != (
    #[trigger] s2[j].abs()) by {
        if j == s2.len() - 1 {
            assert(s2[i] == s[i]);
            assert(s2[j] == x);
            if s[i].abs() == x.abs() {
                assert(0 <= i < s.len() && s[i].abs() == x.abs());
            }
        } else {
            assert(s2[i] == s[i] && s2[j] == s[j]);
        }
    }
}

/// Sequences that stand for the same values element-wise have the same
/// abstract set.
pub proof fn lemma_abs_set_pointwise<T: Payload>(s1: Seq<T>, s2: Seq<T>)
    requires
        s1.len() == s2.len(),
        forall|i: int| 0 <= i < s1.len() ==> #[trigger] s1[i].abs() == s2[i].abs(),
    ensures
        abs_set(s1) == abs_set(s2),
{
    assert forall|a: T::Abs|
        #[trigger] abs_set(s1).contains(a) <==> abs_set(s2).contains(a) by {
        lemma_abs_set_contains(s1, a);
        lemma_abs_set_contains(s2, a);
        if exists|i: int| 0 <= i < s1.len() && s1[i].abs() == a {
            let i = choose|i: int| 0 <= i < s1.len() && s1[i].abs() == a;
            assert(s2[i].abs() == a);
        }
        if exists|i: int| 0 <= i < s2.len() && s2[i].abs() == a {
            let i = choose|i: int| 0 <= i < s2.len() && s2[i].abs() == a;
            assert(s1[i].abs() == a);
        }
    }
    assert(abs_set(s1) =~= abs_set(s2));
}

/// The index of the entry holding a key, if any.
pub fn find_entry<K: Payload, V>(entries: &Vec<(K, V)>, key: &K) -> (r: Option<usize>)
    ensures
        match r {
            Some(i) => i < entries@.len() && entries@[i as int].0.abs() == key.abs(),
            None => forall|i: int| 0 <= i < entries@.len() ==> entries@[i].0.abs() != key.abs(),
        },
{
    let n = entries.len();
    let mut i: usize = 0;
    while i < n
        invariant
            n == entries@.len(),
            0 <= i <= n,
            forall|j: int| 0 <= j < i ==> entries@[j].0.abs() != key.abs(),
        decreases n - i,
    {
        if entries[i].0.eq_abs(key) {
            return Some(i);
        }
        i = i + 1;
    }
    None
}

/// The index of an element, if its value is present.
pub fn find_elem<T: Payload>(list: &Vec<T>, x: &T) -> (r: Option<usize>)
    ensures
        match r {
            Some(i) => i < list@.len() && list@[i as int].abs() == x.abs(),
            None => forall|i: int| 0 <= i < list@.len() ==> list@[i].abs() != x.abs(),
        },
{
    let n = list.len();
    let mut i: usize = 0;
    while i < n
        invariant
            n == list@.len(),
            0 <= i <= n,
            forall|j: int| 0 <= j < i ==> list@[j].abs() != x.abs(),
        decreases n - i,
    {
        if list[i].eq_abs(x) {
            return Some(i);
        }
        i = i + 1;
    }
    None
}

/// Whether the value of `x` is in the list.
pub fn elem_contains<T: Payload>(list: &Vec<T>, x: &T) -> (r: bool)
    ensures
        r == abs_set(list@).contains(x.abs()),
{
    proof {
        lemma_abs_set_contains(list@, x.abs());
    }
    match find_elem(list, x) {
        Some(_) => true,
        None => false,
    }
}

/// Insert the value of `x`, unless it is already present.
pub fn elem_insert<T: Payload>(list: &mut Vec<T>, x: &T)
    requires
        distinct_abs(old(list)@),
    ensures
        distinct_abs(final(list)@),
        abs_set(final(list)@) == abs_set(old(list)@).insert(x.abs()),
{
    if !elem_contains(list, x) {
        let c = x.clone_abs();
        proof {
            lemma_distinct_push(list@, c);
            lemma_abs_set_push(list@, c);
        }
        list.push(c);
    } else {
        proof {
            assert(abs_set(list@).insert(x.abs()) =~= abs_set(list@));
        }
    }
}

/// Fold every element of `src` into `dst`: set union.
pub fn elem_union<T: Payload>(dst: &mut Vec<T>, src: &Vec<T>)
    requires
        distinct_abs(old(dst)@),
    ensures
        distinct_abs(final(dst)@),
        abs_set(final(dst)@) == abs_set(old(dst)@).union(abs_set(src@)),
{
    let ghost a = abs_set(old(dst)@);
    let n = src.len();
    let mut i: usize = 0;
    proof {
        assert(abs_set(src@.take(0)) =~= Set::<T::Abs>::empty());
        assert(a.union(Set::<T::Abs>::empty()) =~= a);
    }
    while i < n
        invariant
            n == src@.len(),
            0 <= i <= n,
            distinct_abs(dst@),
            abs_set(dst@) == a.union(abs_set(src@.take(i as int))),
        decreases n - i,
    {
        elem_insert(dst, &src[i]);
        proof {
            assert(src@.take(i + 1) =~= src@.take(i as int).push(src@[i as int]));
            lemma_abs_set_push(src@.take(i as int), src@[i as int]);
            assert(a.union(abs_set(src@.take(i as int))).insert(src@[i as int].abs()) =~= a.union(
                abs_set(src@.take(i + 1)),
            ));
        }
        i = i + 1;
    }
    proof {
        assert(src@.take(n as int) =~= src@);
    }
}

/// A deep clone of the list, element by element.
pub fn clone_elems<T: Payload>(list: &Vec<T>) -> (r: Vec<T>)
    ensures
        r@.len() == list@.len(),
        forall|i: int| 0 <= i < list@.len() ==> #[trigger] r@[i].abs() == list@[i].abs(),
        abs_set(r@) == abs_set(list@),
        distinct_abs(list@) ==> distinct_abs(r@),
{
    let n = list.len();
    let mut r: Vec<T> = Vec::new();
    let mut i: usize = 0;
    while i < n
        invariant
            n == list@.len(),
            0 <= i <= n,
            r@.len() == i,
            forall|j: int| 0 <= j < i ==> #[trigger] r@[j].abs() == list@[j].abs(),
        decreases n - i,
    {
        r.push(list[i].clone_abs());
        i = i + 1;
    }
    proof {
        lemma_abs_set_pointwise(r@, list@);
        if distinct_abs(list@) {
            assert forall|i: int, j: int| 0 <= i < j < r@.len() implies (#[trigger] r@[i].abs())
                != (#[trigger] r@[j].abs()) by {
                assert(r@[i].abs() == list@[i].abs() && r@[j].abs() == list@[j].abs());
            }
        }
    }
    r
}

} // verus!
