//! The order on keys, and ordered symbol tables as sequences of entries.
//!
//! Every ordered table in this crate is described by the sequence of its
//! `(key, value)` entries in ascending key order. The functions here say what
//! each table operation means on such a sequence; the lemmas relate them.

use core::cmp::Ordering;
use vstd::prelude::*;
use vstd::std_specs::cmp::{PartialEqSpec, PartialOrdSpec};

verus! {

/// `a` comes strictly before `b` in the key type's own order.
pub open spec fn lt<K: PartialOrd>(a: K, b: K) -> bool {
    a.partial_cmp_spec(&b) == Some(Ordering::Less)
}

/// `a` comes strictly after `b` in the key type's own order.
pub open spec fn gt<K: PartialOrd>(a: K, b: K) -> bool {
    a.partial_cmp_spec(&b) == Some(Ordering::Greater)
}

/// `a` and `b` compare equal with the key type's own `==`.
pub open spec fn eq<K: PartialOrd>(a: K, b: K) -> bool {
    a.eq_spec(&b)
}

/// The comparison operators of `K` compute a strict total order: `==` holds
/// of equal keys only, `>` mirrors `<`, two keys are equal exactly when
/// neither precedes the other, and `<` is transitive.
///
/// This is shown from what vstd specifies of the type's `PartialOrd` and
/// `PartialEq`; after `reveal(total_order)` it holds of the integer types.
/// vstd specifies no order for `str` or `String`, so it cannot be shown for
/// string keys: the tables run with them, but verified code cannot call the
/// operations that require it.
#[verifier::opaque]
pub open spec fn total_order<K: PartialOrd>() -> bool {
    &&& K::obeys_partial_cmp_spec()
    &&& K::obeys_eq_spec()
    &&& forall|a: K, b: K| #[trigger] eq(a, b) <==> a == b
    &&& forall|a: K, b: K| #[trigger] gt(a, b) <==> lt(b, a)
    &&& forall|a: K, b: K| a == b <==> !#[trigger] lt(a, b) && !lt(b, a)
    &&& forall|a: K, b: K, c: K| #[trigger] lt(a, b) && #[trigger] lt(b, c) ==> lt(a, c)
}

/// Entries whose key is less than `key`.
pub open spec fn key_below<K: PartialOrd, V>(key: K) -> spec_fn((K, V)) -> bool {
    |e: (K, V)| lt(e.0, key)
}

/// Entries whose key is greater than `key`.
pub open spec fn key_above<K: PartialOrd, V>(key: K) -> spec_fn((K, V)) -> bool {
    |e: (K, V)| lt(key, e.0)
}

/// Entries whose key is less than or equal to `key`.
pub open spec fn key_at_most<K: PartialOrd, V>(key: K) -> spec_fn((K, V)) -> bool {
    |e: (K, V)| !lt(key, e.0)
}

/// Entries whose key is greater than or equal to `key`.
pub open spec fn key_at_least<K: PartialOrd, V>(key: K) -> spec_fn((K, V)) -> bool {
    |e: (K, V)| !lt(e.0, key)
}

/// Entries whose key is `key`.
pub open spec fn key_is<K, V>(key: K) -> spec_fn((K, V)) -> bool {
    |e: (K, V)| e.0 == key
}

/// The entries of `s` with keys less than `key`, in their order.
pub open spec fn below<K: PartialOrd, V>(s: Seq<(K, V)>, key: K) -> Seq<(K, V)> {
    s.filter(key_below(key))
}

/// The entries of `s` with keys greater than `key`, in their order.
pub open spec fn above<K: PartialOrd, V>(s: Seq<(K, V)>, key: K) -> Seq<(K, V)> {
    s.filter(key_above(key))
}

/// The entries of `s` with keys not greater than `key`, in their order.
pub open spec fn at_most<K: PartialOrd, V>(s: Seq<(K, V)>, key: K) -> Seq<(K, V)> {
    s.filter(key_at_most(key))
}

/// The entries of `s` with keys not less than `key`, in their order.
pub open spec fn at_least<K: PartialOrd, V>(s: Seq<(K, V)>, key: K) -> Seq<(K, V)> {
    s.filter(key_at_least(key))
}

/// The entries of `s` that have the key `key`, in their order.
pub open spec fn matching<K, V>(s: Seq<(K, V)>, key: K) -> Seq<(K, V)> {
    s.filter(key_is(key))
}

/// The keys of `s` are strictly ascending.
#[verifier::opaque]
pub open spec fn sorted<K: PartialOrd, V>(s: Seq<(K, V)>) -> bool {
    forall|i: int, j: int| 0 <= i < j < s.len() ==> lt(#[trigger] s[i].0, #[trigger] s[j].0)
}

/// The value stored under `key`, if any.
pub open spec fn find<K, V>(s: Seq<(K, V)>, key: K) -> Option<V> {
    let m = matching(s, key);
    if m.len() > 0 {
        Some(m[0].1)
    } else {
        None
    }
}

/// The number of keys in `s` strictly less than `key`.
pub open spec fn rank_of<K: PartialOrd, V>(s: Seq<(K, V)>, key: K) -> nat {
    below(s, key).len()
}

/// The entry with the greatest key not greater than `key`, if any.
pub open spec fn floor_of<K: PartialOrd, V>(s: Seq<(K, V)>, key: K) -> Option<(K, V)> {
    let m = at_most(s, key);
    if m.len() > 0 {
        Some(m.last())
    } else {
        None
    }
}

/// The entry with the least key not less than `key`, if any.
pub open spec fn ceiling_of<K: PartialOrd, V>(s: Seq<(K, V)>, key: K) -> Option<(K, V)> {
    let m = at_least(s, key);
    if m.len() > 0 {
        Some(m.first())
    } else {
        None
    }
}

/// `s` after `key` is bound to `val`: what lay below `key`, the new entry,
/// what lay above `key`.
pub open spec fn inserted<K: PartialOrd, V>(s: Seq<(K, V)>, key: K, val: V) -> Seq<(K, V)> {
    below(s, key).push((key, val)) + above(s, key)
}

/// `s` without `key`: what lay below `key`, then what lay above it.
pub open spec fn removed<K: PartialOrd, V>(s: Seq<(K, V)>, key: K) -> Seq<(K, V)> {
    below(s, key) + above(s, key)
}

/// A filter keeps a sequence whose items all pass.
pub proof fn lemma_filter_all<A>(s: Seq<A>, p: spec_fn(A) -> bool)
    requires
        forall|i: int| 0 <= i < s.len() ==> p(#[trigger] s[i]),
    ensures
        s.filter(p) == s,
    decreases s.len(),
{
    reveal(Seq::filter);
    if s.len() > 0 {
        let d = s.drop_last();
        assert forall|i: int| 0 <= i < d.len() implies p(#[trigger] d[i]) by {
            assert(d[i] == s[i]);
        }
        lemma_filter_all(d, p);
        assert(d.push(s.last()) =~= s);
    }
}

/// A filter empties a sequence none of whose items pass.
pub proof fn lemma_filter_none<A>(s: Seq<A>, p: spec_fn(A) -> bool)
    requires
        forall|i: int| 0 <= i < s.len() ==> !p(#[trigger] s[i]),
    ensures
        s.filter(p) == Seq::<A>::empty(),
    decreases s.len(),
{
    reveal(Seq::filter);
    if s.len() > 0 {
        let d = s.drop_last();
        assert forall|i: int| 0 <= i < d.len() implies !p(#[trigger] d[i]) by {
            assert(d[i] == s[i]);
        }
        lemma_filter_none(d, p);
    } else {
        assert(s =~= Seq::<A>::empty());
    }
}

/// A filter works on `l`, `e` and `r` separately.
pub proof fn lemma_filter_around<A>(l: Seq<A>, e: A, r: Seq<A>, p: spec_fn(A) -> bool)
    ensures
        (l.push(e) + r).filter(p) == if p(e) {
            l.filter(p).push(e) + r.filter(p)
        } else {
            l.filter(p) + r.filter(p)
        },
{
    Seq::filter_distributes_over_add(l.push(e), r, p);
    l.lemma_filter_push(e, p);
}

/// Every item that a filter keeps passes it and comes from the sequence.
pub proof fn lemma_filter_members<A>(s: Seq<A>, p: spec_fn(A) -> bool)
    ensures
        forall|i: int|
            0 <= i < s.filter(p).len() ==> p(#[trigger] s.filter(p)[i]) && s.contains(
                s.filter(p)[i],
            ),
{
    let f = s.filter(p);
    assert forall|i: int| 0 <= i < f.len() implies p(#[trigger] f[i]) && s.contains(f[i]) by {
        s.lemma_filter_pred(p, i);
        assert(f.contains(f[i]));
        s.lemma_filter_contains_rev(p, f[i]);
    }
}

/// The parts of a sorted sequence around one of its entries are sorted, and
/// lie below and above that entry.
pub proof fn lemma_sorted_split<K: PartialOrd, V>(l: Seq<(K, V)>, e: (K, V), r: Seq<(K, V)>)
    requires
        sorted(l.push(e) + r),
    ensures
        sorted(l),
        sorted(r),
        forall|i: int| 0 <= i < l.len() ==> lt(#[trigger] l[i].0, e.0),
        forall|j: int| 0 <= j < r.len() ==> lt(e.0, #[trigger] r[j].0),
        forall|i: int, j: int|
            0 <= i < l.len() && 0 <= j < r.len() ==> lt(#[trigger] l[i].0, #[trigger] r[j].0),
{
    reveal(sorted);
    let s = l.push(e) + r;
    let n = l.len() as int;
    assert(s[n] == e);
    assert forall|i: int, j: int| 0 <= i < j < l.len() implies lt(
        #[trigger] l[i].0,
        #[trigger] l[j].0,
    ) by {
        assert(s[i] == l[i] && s[j] == l[j]);
    }
    assert forall|i: int, j: int| 0 <= i < j < r.len() implies lt(
        #[trigger] r[i].0,
        #[trigger] r[j].0,
    ) by {
        assert(s[n + 1 + i] == r[i] && s[n + 1 + j] == r[j]);
    }
    assert forall|i: int| 0 <= i < l.len() implies lt(#[trigger] l[i].0, e.0) by {
        assert(s[i] == l[i]);
    }
    assert forall|j: int| 0 <= j < r.len() implies lt(e.0, #[trigger] r[j].0) by {
        assert(s[n + 1 + j] == r[j]);
    }
    assert forall|i: int, j: int| 0 <= i < l.len() && 0 <= j < r.len() implies lt(
        #[trigger] l[i].0,
        #[trigger] r[j].0,
    ) by {
        assert(s[i] == l[i] && s[n + 1 + j] == r[j]);
    }
}

/// Two sorted sequences, the first wholly below the second, make a sorted
/// sequence.
pub proof fn lemma_sorted_concat<K: PartialOrd, V>(l: Seq<(K, V)>, r: Seq<(K, V)>)
    requires
        sorted(l),
        sorted(r),
        forall|i: int, j: int|
            0 <= i < l.len() && 0 <= j < r.len() ==> lt(#[trigger] l[i].0, #[trigger] r[j].0),
    ensures
        sorted(l + r),
{
    reveal(sorted);
    let s = l + r;
    let n = l.len() as int;
    assert forall|i: int, j: int| 0 <= i < j < s.len() implies lt(
        #[trigger] s[i].0,
        #[trigger] s[j].0,
    ) by {
        if j < n {
            assert(s[i] == l[i] && s[j] == l[j]);
        } else if i < n {
            assert(s[i] == l[i] && s[j] == r[j - n]);
        } else {
            assert(s[i] == r[i - n] && s[j] == r[j - n]);
        }
    }
}

/// A sorted sequence, an entry above it and a sorted sequence above that
/// entry make a sorted sequence.
pub proof fn lemma_sorted_join<K: PartialOrd, V>(l: Seq<(K, V)>, e: (K, V), r: Seq<(K, V)>)
    requires
        total_order::<K>(),
        sorted(l),
        sorted(r),
        forall|i: int| 0 <= i < l.len() ==> lt(#[trigger] l[i].0, e.0),
        forall|j: int| 0 <= j < r.len() ==> lt(e.0, #[trigger] r[j].0),
    ensures
        sorted(l.push(e) + r),
{
    reveal(total_order);
    reveal(sorted);
    let le = l.push(e);
    assert forall|i: int, j: int| 0 <= i < j < le.len() implies lt(
        #[trigger] le[i].0,
        #[trigger] le[j].0,
    ) by {
        if j < l.len() {
            assert(le[i] == l[i] && le[j] == l[j]);
        } else {
            assert(le[i] == l[i] && le[j] == e);
        }
    }
    assert forall|i: int, j: int| 0 <= i < le.len() && 0 <= j < r.len() implies lt(
        #[trigger] le[i].0,
        #[trigger] r[j].0,
    ) by {
        if i < l.len() {
            assert(le[i] == l[i]);
            assert(lt(l[i].0, e.0) && lt(e.0, r[j].0));
        } else {
            assert(le[i] == e);
        }
    }
    lemma_sorted_concat(le, r);
}

/// What a filter keeps of a sorted sequence is sorted.
pub proof fn lemma_sorted_filter<K: PartialOrd, V>(s: Seq<(K, V)>, p: spec_fn((K, V)) -> bool)
    requires
        sorted(s),
    ensures
        sorted(s.filter(p)),
    decreases s.len(),
{
    reveal(sorted);
    reveal(Seq::filter);
    if s.len() > 0 {
        let d = s.drop_last();
        let fd = d.filter(p);
        assert forall|i: int, j: int| 0 <= i < j < d.len() implies lt(
            #[trigger] d[i].0,
            #[trigger] d[j].0,
        ) by {
            assert(d[i] == s[i] && d[j] == s[j]);
        }
        lemma_sorted_filter(d, p);
        if p(s.last()) {
            let f = fd.push(s.last());
            lemma_filter_members(d, p);
            assert forall|i: int, j: int| 0 <= i < j < f.len() implies lt(
                #[trigger] f[i].0,
                #[trigger] f[j].0,
            ) by {
                if j < fd.len() {
                    assert(f[i] == fd[i] && f[j] == fd[j]);
                } else {
                    assert(f[i] == fd[i]);
                    assert(d.contains(fd[i]));
                    let k = choose|k: int| 0 <= k < d.len() && d[k] == fd[i];
                    assert(s[k] == d[k]);
                    assert(lt(s[k].0, s[s.len() - 1].0));
                }
            }
        }
    }
}

/// Binding a key in a sorted sequence leaves it sorted.
pub proof fn lemma_inserted_sorted<K: PartialOrd, V>(s: Seq<(K, V)>, key: K, val: V)
    requires
        total_order::<K>(),
        sorted(s),
    ensures
        sorted(inserted(s, key, val)),
{
    let b = below(s, key);
    let a = above(s, key);
    lemma_sorted_filter(s, key_below(key));
    lemma_sorted_filter(s, key_above(key));
    lemma_filter_members(s, key_below(key));
    lemma_filter_members(s, key_above(key));
    assert forall|i: int| 0 <= i < b.len() implies lt(#[trigger] b[i].0, key) by {
        assert(key_below::<K, V>(key)(b[i]));
    }
    assert forall|j: int| 0 <= j < a.len() implies lt(key, #[trigger] a[j].0) by {
        assert(key_above::<K, V>(key)(a[j]));
    }
    lemma_sorted_join(b, (key, val), a);
}

/// Removing a key from a sorted sequence leaves it sorted.
pub proof fn lemma_removed_sorted<K: PartialOrd, V>(s: Seq<(K, V)>, key: K)
    requires
        total_order::<K>(),
        sorted(s),
    ensures
        sorted(removed(s, key)),
{
    reveal(total_order);
    let b = below(s, key);
    let a = above(s, key);
    lemma_sorted_filter(s, key_below(key));
    lemma_sorted_filter(s, key_above(key));
    lemma_filter_members(s, key_below(key));
    lemma_filter_members(s, key_above(key));
    assert forall|i: int, j: int| 0 <= i < b.len() && 0 <= j < a.len() implies lt(
        #[trigger] b[i].0,
        #[trigger] a[j].0,
    ) by {
        assert(key_below::<K, V>(key)(b[i]));
        assert(key_above::<K, V>(key)(a[j]));
        assert(lt(b[i].0, key) && lt(key, a[j].0));
    }
    lemma_sorted_concat(b, a);
}

/// Every entry lies below `key`, at `key` or above it, and in one only.
pub proof fn lemma_partition_len<K: PartialOrd, V>(s: Seq<(K, V)>, key: K)
    requires
        total_order::<K>(),
    ensures
        below(s, key).len() + matching(s, key).len() + above(s, key).len() == s.len(),
        at_most(s, key).len() == below(s, key).len() + matching(s, key).len(),
        at_least(s, key).len() == matching(s, key).len() + above(s, key).len(),
    decreases s.len(),
{
    reveal(total_order);
    reveal(Seq::filter);
    if s.len() > 0 {
        let k = s.last().0;
        assert(k == key <==> !lt(k, key) && !lt(key, k));
        lemma_partition_len(s.drop_last(), key);
    }
}

/// A sorted sequence holds a key at most once.
pub proof fn lemma_matching_once<K: PartialOrd, V>(s: Seq<(K, V)>, key: K)
    requires
        total_order::<K>(),
        sorted(s),
    ensures
        matching(s, key).len() <= 1,
{
    reveal(total_order);
    reveal(sorted);
    let m = matching(s, key);
    lemma_sorted_filter(s, key_is(key));
    lemma_filter_members(s, key_is(key));
    if m.len() >= 2 {
        assert(key_is::<K, V>(key)(m[0]));
        assert(key_is::<K, V>(key)(m[1]));
        assert(lt(m[0].0, m[1].0));
        assert(m[0].0 == m[1].0 <==> !lt(m[0].0, m[1].0) && !lt(m[1].0, m[0].0));
    }
}

/// A key that was bound is found with its value.
pub proof fn lemma_find_inserted<K: PartialOrd, V>(s: Seq<(K, V)>, key: K, val: V)
    requires
        total_order::<K>(),
    ensures
        find(inserted(s, key, val), key) == Some(val),
{
    reveal(total_order);
    let b = below(s, key);
    let a = above(s, key);
    let p = key_is::<K, V>(key);
    lemma_filter_members(s, key_below(key));
    lemma_filter_members(s, key_above(key));
    assert(key == key <==> !lt(key, key) && !lt(key, key));
    assert forall|i: int| 0 <= i < b.len() implies !p(#[trigger] b[i]) by {
        assert(key_below::<K, V>(key)(b[i]));
    }
    assert forall|j: int| 0 <= j < a.len() implies !p(#[trigger] a[j]) by {
        assert(key_above::<K, V>(key)(a[j]));
    }
    lemma_filter_none(b, p);
    lemma_filter_none(a, p);
    lemma_filter_around(b, (key, val), a, p);
    assert(matching(inserted(s, key, val), key) =~= seq![(key, val)]);
}

/// A key that was removed is not found.
pub proof fn lemma_find_removed<K: PartialOrd, V>(s: Seq<(K, V)>, key: K)
    requires
        total_order::<K>(),
    ensures
        find(removed(s, key), key) == None::<V>,
{
    reveal(total_order);
    let b = below(s, key);
    let a = above(s, key);
    let p = key_is::<K, V>(key);
    lemma_filter_members(s, key_below(key));
    lemma_filter_members(s, key_above(key));
    assert(key == key <==> !lt(key, key) && !lt(key, key));
    assert forall|i: int| 0 <= i < b.len() implies !p(#[trigger] b[i]) by {
        assert(key_below::<K, V>(key)(b[i]));
    }
    assert forall|j: int| 0 <= j < a.len() implies !p(#[trigger] a[j]) by {
        assert(key_above::<K, V>(key)(a[j]));
    }
    lemma_filter_none(b, p);
    lemma_filter_none(a, p);
    Seq::filter_distributes_over_add(b, a, p);
    assert(matching(removed(s, key), key) =~= Seq::<(K, V)>::empty());
}

/// The entries at `other` are, in their order, those below `key` and those
/// above `key` that are at `other`, where `other` is not `key`.
proof fn lemma_matching_apart<K: PartialOrd, V>(s: Seq<(K, V)>, key: K, other: K)
    requires
        total_order::<K>(),
        other != key,
    ensures
        matching(s, other) == matching(below(s, key), other) + matching(above(s, key), other),
    decreases s.len(),
{
    reveal(Seq::filter);
    let p = key_is::<K, V>(other);
    if s.len() > 0 {
        let d = s.drop_last();
        let e = s.last();
        lemma_matching_apart(d, key, other);
        lemma_lt_connected(e.0, key);
        if lt(e.0, key) {
            lemma_lt_asymmetric(e.0, key);
            below(d, key).lemma_filter_push(e, p);
            if e.0 == other {
                let a = above(d, key);
                lemma_filter_members(d, key_above(key));
                assert forall|i: int| 0 <= i < a.len() implies !p(#[trigger] a[i]) by {
                    assert(key_above::<K, V>(key)(a[i]));
                    lemma_lt_asymmetric(key, a[i].0);
                }
                lemma_filter_none(a, p);
            }
            assert(matching(s, other) =~= matching(below(s, key), other) + matching(
                above(s, key),
                other,
            ));
        } else if lt(key, e.0) {
            lemma_lt_asymmetric(key, e.0);
            above(d, key).lemma_filter_push(e, p);
            assert(matching(s, other) =~= matching(below(s, key), other) + matching(
                above(s, key),
                other,
            ));
        }
    } else {
        assert(matching(s, other) =~= matching(below(s, key), other) + matching(
            above(s, key),
            other,
        ));
    }
}

/// Binding a key leaves every other key with the value it had, or without
/// one.
pub proof fn lemma_find_inserted_other<K: PartialOrd, V>(
    s: Seq<(K, V)>,
    key: K,
    val: V,
    other: K,
)
    requires
        total_order::<K>(),
        other != key,
    ensures
        find(inserted(s, key, val), other) == find(s, other),
{
    let b = below(s, key);
    let a = above(s, key);
    let p = key_is::<K, V>(other);
    lemma_matching_apart(s, key, other);
    lemma_filter_around(b, (key, val), a, p);
}

/// Removing a key leaves every other key with the value it had, or without
/// one.
pub proof fn lemma_find_removed_other<K: PartialOrd, V>(s: Seq<(K, V)>, key: K, other: K)
    requires
        total_order::<K>(),
        other != key,
    ensures
        find(removed(s, key), other) == find(s, other),
{
    lemma_matching_apart(s, key, other);
    Seq::filter_distributes_over_add(below(s, key), above(s, key), key_is::<K, V>(other));
}

/// In a sorted sequence the entry at index `k` has exactly `k` keys below it.
pub proof fn lemma_rank_of_index<K: PartialOrd, V>(s: Seq<(K, V)>, k: int)
    requires
        total_order::<K>(),
        sorted(s),
        0 <= k < s.len(),
    ensures
        rank_of(s, s[k].0) == k,
{
    reveal(total_order);
    reveal(sorted);
    let key = s[k].0;
    let p = key_below::<K, V>(key);
    let l = s.take(k);
    let r = s.skip(k);
    assert(s =~= l + r);
    assert forall|i: int| 0 <= i < l.len() implies p(#[trigger] l[i]) by {
        assert(l[i] == s[i]);
        assert(lt(s[i].0, s[k].0));
    }
    assert forall|j: int| 0 <= j < r.len() implies !p(#[trigger] r[j]) by {
        assert(r[j] == s[k + j]);
        assert(key == key <==> !lt(key, key) && !lt(key, key));
        if j > 0 {
            assert(lt(s[k].0, s[k + j].0));
            assert(key == r[j].0 <==> !lt(key, r[j].0) && !lt(r[j].0, key));
            if lt(r[j].0, key) {
                assert(lt(key, r[j].0) && lt(r[j].0, key));
            }
        }
    }
    lemma_filter_all(l, p);
    lemma_filter_none(r, p);
    Seq::filter_distributes_over_add(l, r, p);
    assert(l + Seq::<(K, V)>::empty() =~= l);
}

/// Where a floor and a ceiling of `key` both exist, the floor's key is not
/// above `key` and the ceiling's key is not below it.
pub proof fn lemma_floor_ceiling_bracket<K: PartialOrd, V>(s: Seq<(K, V)>, key: K)
    requires
        floor_of(s, key) is Some,
        ceiling_of(s, key) is Some,
    ensures
        !lt(key, floor_of(s, key).unwrap().0),
        !lt(ceiling_of(s, key).unwrap().0, key),
{
    let f = at_most(s, key);
    let c = at_least(s, key);
    lemma_filter_members(s, key_at_most(key));
    lemma_filter_members(s, key_at_least(key));
    assert(key_at_most::<K, V>(key)(f[f.len() - 1]));
    assert(key_at_least::<K, V>(key)(c[0]));
}

/// `inserted` adds at most one entry and removes none.
pub proof fn lemma_inserted_len<K: PartialOrd, V>(s: Seq<(K, V)>, key: K, val: V)
    requires
        total_order::<K>(),
    ensures
        inserted(s, key, val).len() == s.len() + 1 - matching(s, key).len(),
        inserted(s, key, val).len() <= s.len() + 1,
        sorted(s) ==> s.len() <= inserted(s, key, val).len(),
{
    lemma_partition_len(s, key);
    if sorted(s) {
        lemma_matching_once(s, key);
    }
}

/// `removed` takes away exactly the entries at `key`.
pub proof fn lemma_removed_len<K: PartialOrd, V>(s: Seq<(K, V)>, key: K)
    requires
        total_order::<K>(),
    ensures
        removed(s, key).len() == s.len() - matching(s, key).len(),
{
    lemma_partition_len(s, key);
}

/// In a sorted sequence, binding a key that is bound keeps the number of
/// entries, and binding one that is not adds one; removing a key that is
/// bound takes one away.
pub proof fn lemma_len_after<K: PartialOrd, V>(s: Seq<(K, V)>, key: K, val: V)
    requires
        total_order::<K>(),
        sorted(s),
    ensures
        inserted(s, key, val).len() == if find(s, key) is Some {
            s.len()
        } else {
            s.len() + 1
        },
        removed(s, key).len() == if find(s, key) is Some {
            s.len() - 1
        } else {
            s.len() as int
        },
{
    lemma_partition_len(s, key);
    lemma_matching_once(s, key);
}

/// A key is found exactly when some entry holds it; in a sorted sequence
/// that entry is the only one, and it is what `find` gives.
pub proof fn lemma_find_index<K: PartialOrd, V>(s: Seq<(K, V)>, key: K)
    ensures
        find(s, key) is Some <==> exists|i: int| 0 <= i < s.len() && (#[trigger] s[i]).0 == key,
        total_order::<K>() && sorted(s) ==> forall|i: int|
            0 <= i < s.len() && (#[trigger] s[i]).0 == key ==> find(s, key) == Some(s[i].1),
{
    let p = key_is::<K, V>(key);
    let m = matching(s, key);
    lemma_filter_members(s, p);
    if m.len() > 0 {
        assert(p(m[0]));
        assert(s.contains(m[0]));
        let i = choose|i: int| 0 <= i < s.len() && s[i] == m[0];
        assert(s[i].0 == key);
    }
    assert forall|i: int| 0 <= i < s.len() && (#[trigger] s[i]).0 == key implies m.len() > 0 && (
    total_order::<K>() && sorted(s) ==> m[0] == s[i]) by {
        assert(p(s[i]));
        s.lemma_filter_contains(p, i);
        let j = choose|j: int| 0 <= j < m.len() && m[j] == s[i];
        if total_order::<K>() && sorted(s) {
            lemma_matching_once(s, key);
        }
    }
}

/// A key that precedes another differs from it and does not follow it.
pub proof fn lemma_lt_asymmetric<K: PartialOrd>(a: K, b: K)
    requires
        total_order::<K>(),
        lt(a, b),
    ensures
        !lt(b, a),
        a != b,
{
    reveal(total_order);
    assert(a == a <==> !lt(a, a) && !lt(a, a));
    if lt(b, a) {
        assert(lt(a, b) && lt(b, a));
    }
    assert(a == b <==> !lt(a, b) && !lt(b, a));
}

/// Keys are equal exactly when neither precedes the other.
pub proof fn lemma_lt_connected<K: PartialOrd>(a: K, b: K)
    requires
        total_order::<K>(),
    ensures
        a == b <==> !lt(a, b) && !lt(b, a),
{
    reveal(total_order);
}

/// `<` on keys is transitive.
pub proof fn lemma_lt_transitive<K: PartialOrd>(a: K, b: K, c: K)
    requires
        total_order::<K>(),
        lt(a, b),
        lt(b, c),
    ensures
        lt(a, c),
{
    reveal(total_order);
}

/// The five parts of a sequence all of whose keys are above `key`.
proof fn lemma_parts_of_higher<K: PartialOrd, V>(r: Seq<(K, V)>, key: K)
    requires
        total_order::<K>(),
        forall|j: int| 0 <= j < r.len() ==> lt(key, #[trigger] r[j].0),
    ensures
        below(r, key) == Seq::<(K, V)>::empty(),
        above(r, key) == r,
        at_most(r, key) == Seq::<(K, V)>::empty(),
        at_least(r, key) == r,
        matching(r, key) == Seq::<(K, V)>::empty(),
{
    assert forall|j: int| 0 <= j < r.len() implies !lt(#[trigger] r[j].0, key) && r[j].0 != key by {
        lemma_lt_asymmetric(key, r[j].0);
    }
    lemma_filter_none(r, key_below(key));
    lemma_filter_all(r, key_above(key));
    lemma_filter_none(r, key_at_most(key));
    lemma_filter_all(r, key_at_least(key));
    lemma_filter_none(r, key_is(key));
}

/// The five parts of a sequence all of whose keys are below `key`.
proof fn lemma_parts_of_lower<K: PartialOrd, V>(l: Seq<(K, V)>, key: K)
    requires
        total_order::<K>(),
        forall|i: int| 0 <= i < l.len() ==> lt(#[trigger] l[i].0, key),
    ensures
        below(l, key) == l,
        above(l, key) == Seq::<(K, V)>::empty(),
        at_most(l, key) == l,
        at_least(l, key) == Seq::<(K, V)>::empty(),
        matching(l, key) == Seq::<(K, V)>::empty(),
{
    assert forall|i: int| 0 <= i < l.len() implies !lt(key, #[trigger] l[i].0) && l[i].0 != key by {
        lemma_lt_asymmetric(l[i].0, key);
    }
    lemma_filter_all(l, key_below(key));
    lemma_filter_none(l, key_above(key));
    lemma_filter_all(l, key_at_most(key));
    lemma_filter_none(l, key_at_least(key));
    lemma_filter_none(l, key_is(key));
}

/// The five parts of `l ++ [e] ++ r` from the parts of `l` and of `r`.
proof fn lemma_parts_around<K: PartialOrd, V>(l: Seq<(K, V)>, e: (K, V), r: Seq<(K, V)>, key: K)
    ensures
        below(l.push(e) + r, key) == if lt(e.0, key) {
            below(l, key).push(e) + below(r, key)
        } else {
            below(l, key) + below(r, key)
        },
        above(l.push(e) + r, key) == if lt(key, e.0) {
            above(l, key).push(e) + above(r, key)
        } else {
            above(l, key) + above(r, key)
        },
        at_most(l.push(e) + r, key) == if !lt(key, e.0) {
            at_most(l, key).push(e) + at_most(r, key)
        } else {
            at_most(l, key) + at_most(r, key)
        },
        at_least(l.push(e) + r, key) == if !lt(e.0, key) {
            at_least(l, key).push(e) + at_least(r, key)
        } else {
            at_least(l, key) + at_least(r, key)
        },
        matching(l.push(e) + r, key) == if e.0 == key {
            matching(l, key).push(e) + matching(r, key)
        } else {
            matching(l, key) + matching(r, key)
        },
{
    lemma_filter_around(l, e, r, key_below(key));
    lemma_filter_around(l, e, r, key_above(key));
    lemma_filter_around(l, e, r, key_at_most(key));
    lemma_filter_around(l, e, r, key_at_least(key));
    lemma_filter_around(l, e, r, key_is(key));
}

/// How each part of a sorted sequence `l ++ [e] ++ r` relates to the parts of
/// `l` when `key` is below `e`'s key.
pub proof fn lemma_descend_left<K: PartialOrd, V>(
    l: Seq<(K, V)>,
    e: (K, V),
    r: Seq<(K, V)>,
    key: K,
)
    requires
        total_order::<K>(),
        sorted(l.push(e) + r),
        lt(key, e.0),
    ensures
        below(l.push(e) + r, key) == below(l, key),
        above(l.push(e) + r, key) == above(l, key).push(e) + r,
        at_most(l.push(e) + r, key) == at_most(l, key),
        at_least(l.push(e) + r, key) == at_least(l, key).push(e) + r,
        matching(l.push(e) + r, key) == matching(l, key),
{
    assert forall|j: int| 0 <= j < r.len() implies lt(key, #[trigger] r[j].0) by {
        lemma_sorted_split(l, e, r);
        lemma_lt_transitive(key, e.0, r[j].0);
    }
    lemma_lt_asymmetric(key, e.0);
    lemma_parts_of_higher(r, key);
    lemma_parts_around(l, e, r, key);
    let none = Seq::<(K, V)>::empty();
    assert(below(l, key) + none =~= below(l, key));
    assert(at_most(l, key) + none =~= at_most(l, key));
    assert(matching(l, key) + none =~= matching(l, key));
}

/// How each part of a sorted sequence `l ++ [e] ++ r` relates to the parts of
/// `r` when `key` is above `e`'s key.
pub proof fn lemma_descend_right<K: PartialOrd, V>(
    l: Seq<(K, V)>,
    e: (K, V),
    r: Seq<(K, V)>,
    key: K,
)
    requires
        total_order::<K>(),
        sorted(l.push(e) + r),
        lt(e.0, key),
    ensures
        below(l.push(e) + r, key) == l.push(e) + below(r, key),
        above(l.push(e) + r, key) == above(r, key),
        at_most(l.push(e) + r, key) == l.push(e) + at_most(r, key),
        at_least(l.push(e) + r, key) == at_least(r, key),
        matching(l.push(e) + r, key) == matching(r, key),
{
    assert forall|i: int| 0 <= i < l.len() implies lt(#[trigger] l[i].0, key) by {
        lemma_sorted_split(l, e, r);
        lemma_lt_transitive(l[i].0, e.0, key);
    }
    lemma_lt_asymmetric(e.0, key);
    lemma_parts_of_lower(l, key);
    lemma_parts_around(l, e, r, key);
    let none = Seq::<(K, V)>::empty();
    assert(none + above(r, key) =~= above(r, key));
    assert(none + at_least(r, key) =~= at_least(r, key));
    assert(none + matching(r, key) =~= matching(r, key));
}

/// The parts of a sorted sequence `l ++ [e] ++ r` when `key` is `e`'s key.
pub proof fn lemma_descend_here<K: PartialOrd, V>(
    l: Seq<(K, V)>,
    e: (K, V),
    r: Seq<(K, V)>,
    key: K,
)
    requires
        total_order::<K>(),
        sorted(l.push(e) + r),
        key == e.0,
    ensures
        below(l.push(e) + r, key) == l,
        above(l.push(e) + r, key) == r,
        at_most(l.push(e) + r, key) == l.push(e),
        at_least(l.push(e) + r, key) == seq![e] + r,
        matching(l.push(e) + r, key) == seq![e],
{
    lemma_sorted_split(l, e, r);
    lemma_lt_connected(key, key);
    lemma_parts_of_lower(l, key);
    lemma_parts_of_higher(r, key);
    lemma_parts_around(l, e, r, key);
    let none = Seq::<(K, V)>::empty();
    assert(l + none =~= l);
    assert(none + r =~= r);
    assert(l.push(e) + none =~= l.push(e));
    assert(none.push(e) + r =~= seq![e] + r);
    assert(none.push(e) + none =~= seq![e]);
}

/// Removing a key below `e`'s key from `l ++ [e] ++ r` removes it from `l`.
pub proof fn lemma_removed_left<K: PartialOrd, V>(
    l: Seq<(K, V)>,
    e: (K, V),
    r: Seq<(K, V)>,
    key: K,
)
    requires
        total_order::<K>(),
        sorted(l.push(e) + r),
        lt(key, e.0),
    ensures
        removed(l.push(e) + r, key) == removed(l, key).push(e) + r,
        find(l.push(e) + r, key) == find(l, key),
        removed(l, key).len() <= l.len(),
{
    lemma_descend_left(l, e, r, key);
    assert(removed(l.push(e) + r, key) =~= removed(l, key).push(e) + r);
    lemma_removed_len(l, key);
}

/// Removing a key above `e`'s key from `l ++ [e] ++ r` removes it from `r`.
pub proof fn lemma_removed_right<K: PartialOrd, V>(
    l: Seq<(K, V)>,
    e: (K, V),
    r: Seq<(K, V)>,
    key: K,
)
    requires
        total_order::<K>(),
        sorted(l.push(e) + r),
        lt(e.0, key),
    ensures
        removed(l.push(e) + r, key) == l.push(e) + removed(r, key),
        find(l.push(e) + r, key) == find(r, key),
        removed(r, key).len() <= r.len(),
{
    lemma_descend_right(l, e, r, key);
    assert(removed(l.push(e) + r, key) =~= l.push(e) + removed(r, key));
    lemma_removed_len(r, key);
}

/// Removing `e`'s key from `l ++ [e] ++ r` leaves `l ++ r`.
pub proof fn lemma_removed_here<K: PartialOrd, V>(
    l: Seq<(K, V)>,
    e: (K, V),
    r: Seq<(K, V)>,
    key: K,
)
    requires
        total_order::<K>(),
        sorted(l.push(e) + r),
        key == e.0,
    ensures
        removed(l.push(e) + r, key) == l + r,
        find(l.push(e) + r, key) == Some(e.1),
{
    assert(removed(l.push(e) + r, key) == l + r) by {
        lemma_descend_here(l, e, r, key);
    }
    assert(find(l.push(e) + r, key) == Some(e.1)) by {
        lemma_found_here(l, e, r, key);
    }
}

/// `e`'s key is found in `l ++ [e] ++ r` with `e`'s value.
proof fn lemma_found_here<K: PartialOrd, V>(l: Seq<(K, V)>, e: (K, V), r: Seq<(K, V)>, key: K)
    requires
        total_order::<K>(),
        sorted(l.push(e) + r),
        key == e.0,
    ensures
        find(l.push(e) + r, key) == Some(e.1),
{
    let m = matching(l.push(e) + r, key);
    assert(m == seq![e]) by {
        lemma_descend_here(l, e, r, key);
    }
    assert(m.len() == 1 && m[0] == e);
}

/// Binding a key below `e`'s key in `l ++ [e] ++ r` binds it in `l`.
pub proof fn lemma_inserted_left<K: PartialOrd, V>(
    l: Seq<(K, V)>,
    e: (K, V),
    r: Seq<(K, V)>,
    key: K,
    val: V,
)
    requires
        total_order::<K>(),
        sorted(l.push(e) + r),
        lt(key, e.0),
    ensures
        inserted(l.push(e) + r, key, val) == inserted(l, key, val).push(e) + r,
{
    lemma_descend_left(l, e, r, key);
    assert(inserted(l.push(e) + r, key, val) =~= inserted(l, key, val).push(e) + r);
}

/// Binding a key above `e`'s key in `l ++ [e] ++ r` binds it in `r`.
pub proof fn lemma_inserted_right<K: PartialOrd, V>(
    l: Seq<(K, V)>,
    e: (K, V),
    r: Seq<(K, V)>,
    key: K,
    val: V,
)
    requires
        total_order::<K>(),
        sorted(l.push(e) + r),
        lt(e.0, key),
    ensures
        inserted(l.push(e) + r, key, val) == l.push(e) + inserted(r, key, val),
{
    lemma_descend_right(l, e, r, key);
    assert(inserted(l.push(e) + r, key, val) =~= l.push(e) + inserted(r, key, val));
}

/// Binding `e`'s key in `l ++ [e] ++ r` replaces `e`.
pub proof fn lemma_inserted_here<K: PartialOrd, V>(
    l: Seq<(K, V)>,
    e: (K, V),
    r: Seq<(K, V)>,
    key: K,
    val: V,
)
    requires
        total_order::<K>(),
        sorted(l.push(e) + r),
        key == e.0,
    ensures
        inserted(l.push(e) + r, key, val) == l.push((key, val)) + r,
{
    lemma_descend_here(l, e, r, key);
}

/// What `key` finds, counts and is bracketed by in a sorted `l ++ [e] ++ r`
/// when it is below `e`'s key.
pub proof fn lemma_queries_left<K: PartialOrd, V>(
    l: Seq<(K, V)>,
    e: (K, V),
    r: Seq<(K, V)>,
    key: K,
)
    requires
        total_order::<K>(),
        sorted(l.push(e) + r),
        lt(key, e.0),
    ensures
        find(l.push(e) + r, key) == find(l, key),
        rank_of(l.push(e) + r, key) == rank_of(l, key),
        floor_of(l.push(e) + r, key) == floor_of(l, key),
        ceiling_of(l.push(e) + r, key) == if ceiling_of(l, key) is Some {
            ceiling_of(l, key)
        } else {
            Some(e)
        },
{
    lemma_descend_left(l, e, r, key);
    let c = at_least(l, key);
    assert((c.push(e) + r).first() == if c.len() > 0 {
        c.first()
    } else {
        e
    });
}

/// What `key` finds, counts and is bracketed by in a sorted `l ++ [e] ++ r`
/// when it is above `e`'s key.
pub proof fn lemma_queries_right<K: PartialOrd, V>(
    l: Seq<(K, V)>,
    e: (K, V),
    r: Seq<(K, V)>,
    key: K,
)
    requires
        total_order::<K>(),
        sorted(l.push(e) + r),
        lt(e.0, key),
    ensures
        find(l.push(e) + r, key) == find(r, key),
        rank_of(l.push(e) + r, key) == l.len() + 1 + rank_of(r, key),
        ceiling_of(l.push(e) + r, key) == ceiling_of(r, key),
        floor_of(l.push(e) + r, key) == if floor_of(r, key) is Some {
            floor_of(r, key)
        } else {
            Some(e)
        },
{
    lemma_descend_right(l, e, r, key);
    let f = at_most(r, key);
    assert((l.push(e) + f).last() == if f.len() > 0 {
        f.last()
    } else {
        e
    });
}

/// What `e`'s key finds, counts and is bracketed by in a sorted
/// `l ++ [e] ++ r`.
pub proof fn lemma_queries_here<K: PartialOrd, V>(
    l: Seq<(K, V)>,
    e: (K, V),
    r: Seq<(K, V)>,
    key: K,
)
    requires
        total_order::<K>(),
        sorted(l.push(e) + r),
        key == e.0,
    ensures
        find(l.push(e) + r, key) == Some(e.1),
        rank_of(l.push(e) + r, key) == l.len(),
        floor_of(l.push(e) + r, key) == Some(e),
        ceiling_of(l.push(e) + r, key) == Some(e),
{
    assert(find(l.push(e) + r, key) == Some(e.1)) by {
        lemma_found_here(l, e, r, key);
    }
    assert(rank_of(l.push(e) + r, key) == l.len()) by {
        lemma_descend_here(l, e, r, key);
    }
    assert(floor_of(l.push(e) + r, key) == Some(e)) by {
        lemma_floor_here(l, e, r, key);
    }
    assert(ceiling_of(l.push(e) + r, key) == Some(e)) by {
        lemma_ceiling_here(l, e, r, key);
    }
}

/// The floor of `e`'s key in a sorted `l ++ [e] ++ r` is `e`.
proof fn lemma_floor_here<K: PartialOrd, V>(l: Seq<(K, V)>, e: (K, V), r: Seq<(K, V)>, key: K)
    requires
        total_order::<K>(),
        sorted(l.push(e) + r),
        key == e.0,
    ensures
        floor_of(l.push(e) + r, key) == Some(e),
{
    let m = at_most(l.push(e) + r, key);
    assert(m == l.push(e)) by {
        lemma_descend_here(l, e, r, key);
    }
}

/// The ceiling of `e`'s key in a sorted `l ++ [e] ++ r` is `e`.
proof fn lemma_ceiling_here<K: PartialOrd, V>(l: Seq<(K, V)>, e: (K, V), r: Seq<(K, V)>, key: K)
    requires
        total_order::<K>(),
        sorted(l.push(e) + r),
        key == e.0,
    ensures
        ceiling_of(l.push(e) + r, key) == Some(e),
{
    let m = at_least(l.push(e) + r, key);
    assert(m == seq![e] + r) by {
        lemma_descend_here(l, e, r, key);
    }
    assert(m.len() > 0 && m[0] == e);
}

/// Nothing is found, counted or bracketed in the empty sequence.
pub proof fn lemma_queries_empty<K: PartialOrd, V>(key: K)
    ensures
        find(Seq::<(K, V)>::empty(), key) is None,
        rank_of(Seq::<(K, V)>::empty(), key) == 0,
        floor_of(Seq::<(K, V)>::empty(), key) is None,
        ceiling_of(Seq::<(K, V)>::empty(), key) is None,
        removed(Seq::<(K, V)>::empty(), key) == Seq::<(K, V)>::empty(),
{
    reveal(Seq::filter);
    assert(removed(Seq::<(K, V)>::empty(), key) =~= Seq::<(K, V)>::empty());
}

/// Binding a key in the empty sequence gives the sequence of that one
/// entry.
pub proof fn lemma_inserted_empty<K: PartialOrd, V>(key: K, val: V)
    ensures
        inserted(Seq::<(K, V)>::empty(), key, val) == seq![(key, val)],
{
    reveal(Seq::filter);
    assert(inserted(Seq::<(K, V)>::empty(), key, val) =~= seq![(key, val)]);
}

/// Removing a key that no entry of a sorted sequence holds changes nothing.
pub proof fn lemma_removed_absent<K: PartialOrd, V>(s: Seq<(K, V)>, key: K)
    requires
        total_order::<K>(),
        sorted(s),
        find(s, key) is None,
    ensures
        removed(s, key) == s,
    decreases s.len(),
{
    let none = Seq::<(K, V)>::empty();
    if s.len() > 0 {
        let d = s.drop_last();
        let e = s.last();
        assert(d.push(e) + none =~= s);
        lemma_lt_connected(key, e.0);
        lemma_sorted_drop(s);
        if lt(key, e.0) {
            lemma_removed_left(d, e, none, key);
            lemma_removed_absent(d, key);
        } else if lt(e.0, key) {
            lemma_removed_right(d, e, none, key);
            lemma_queries_empty::<K, V>(key);
        } else {
            lemma_removed_here(d, e, none, key);
        }
    } else {
        lemma_queries_empty::<K, V>(key);
        assert(s =~= none);
    }
}

/// A sorted sequence without its first or its last entry is sorted.
pub proof fn lemma_sorted_drop<K: PartialOrd, V>(s: Seq<(K, V)>)
    requires
        sorted(s),
        s.len() > 0,
    ensures
        sorted(s.drop_first()),
        sorted(s.drop_last()),
{
    reveal(sorted);
    let a = s.drop_first();
    let b = s.drop_last();
    assert forall|i: int, j: int| 0 <= i < j < a.len() implies lt(
        #[trigger] a[i].0,
        #[trigger] a[j].0,
    ) by {
        assert(a[i] == s[i + 1] && a[j] == s[j + 1]);
    }
    assert forall|i: int, j: int| 0 <= i < j < b.len() implies lt(
        #[trigger] b[i].0,
        #[trigger] b[j].0,
    ) by {
        assert(b[i] == s[i] && b[j] == s[j]);
    }
}

/// The empty sequence is sorted.
pub proof fn lemma_sorted_empty<K: PartialOrd, V>()
    ensures
        sorted(Seq::<(K, V)>::empty()),
{
    reveal(sorted);
}

} // verus!
