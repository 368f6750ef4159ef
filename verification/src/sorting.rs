//! Stable insertion order: the model of a stable sort by a "strictly before"
//! relation, and the facts about it that callers rely on.
use vstd::prelude::*;

verus! {

/// Insert `x` into `s` after every element that `x` does not strictly
/// precede, scanning from the back. On a sorted `s` this is the place a
/// stable sort gives to an element that came after all of `s`.
pub open spec fn insert_sorted<T>(s: Seq<T>, x: T, before: spec_fn(T, T) -> bool) -> Seq<T>
    decreases s.len(),
{
    if s.len() == 0 {
        seq![x]
    } else if !before(x, s.last()) {
        s.push(x)
    } else {
        insert_sorted(s.drop_last(), x, before).push(s.last())
    }
}

/// The stable sort of `s`: equal elements keep their relative order.
pub open spec fn stable_sort<T>(s: Seq<T>, before: spec_fn(T, T) -> bool) -> Seq<T>
    decreases s.len(),
{
    if s.len() == 0 {
        s
    } else {
        insert_sorted(stable_sort(s.drop_last(), before), s.last(), before)
    }
}

/// `s` is ordered by `key`, smallest first.
pub open spec fn key_sorted<T>(s: Seq<T>, key: spec_fn(T) -> int) -> bool {
    forall|i: int, j: int| 0 <= i < j < s.len() ==> key(s[i]) <= key(s[j])
}

/// `before` never puts a larger key first, and its complement never puts a
/// smaller key first.
pub open spec fn refines_key<T>(before: spec_fn(T, T) -> bool, key: spec_fn(T) -> int) -> bool {
    &&& forall|a: T, b: T| #[trigger] before(a, b) ==> key(a) <= key(b)
    &&& forall|a: T, b: T| !#[trigger] before(a, b) ==> key(b) <= key(a)
}

/// Inserting at position `p`, found by walking back over the elements that
/// `x` strictly precedes, is `insert_sorted`.
pub proof fn lemma_insert_at<T>(s: Seq<T>, x: T, before: spec_fn(T, T) -> bool, p: int)
    requires
        0 <= p <= s.len(),
        forall|q: int| p <= q < s.len() ==> before(x, #[trigger] s[q]),
        p > 0 ==> !before(x, s[p - 1]),
    ensures
        insert_sorted(s, x, before) == s.insert(p, x),
    decreases s.len(),
{
    if s.len() == 0 {
        assert(s.insert(p, x) =~= seq![x]);
    } else if p == s.len() {
        assert(s.insert(p, x) =~= s.push(x));
    } else {
        assert(before(x, s[s.len() - 1]));
        lemma_insert_at(s.drop_last(), x, before, p);
        assert(s.drop_last().insert(p, x).push(s.last()) =~= s.insert(p, x));
    }
}

pub proof fn lemma_insert_contents<T>(s: Seq<T>, x: T, before: spec_fn(T, T) -> bool)
    ensures
        insert_sorted(s, x, before).len() == s.len() + 1,
        insert_sorted(s, x, before).to_multiset() == s.to_multiset().insert(x),
    decreases s.len(),
{
    broadcast use vstd::seq_lib::group_to_multiset_ensures;
    if s.len() > 0 && before(x, s.last()) {
        lemma_insert_contents(s.drop_last(), x, before);
        assert(s.drop_last().push(s.last()) =~= s);
        assert(s.to_multiset() =~= s.drop_last().to_multiset().insert(s.last()));
        assert(insert_sorted(s, x, before).to_multiset() =~= s.to_multiset().insert(x));
    } else if s.len() == 0 {
        assert(seq![x] =~= s.push(x));
    }
}

/// A stable sort is a permutation.
pub proof fn lemma_sort_contents<T>(s: Seq<T>, before: spec_fn(T, T) -> bool)
    ensures
        stable_sort(s, before).len() == s.len(),
        stable_sort(s, before).to_multiset() == s.to_multiset(),
    decreases s.len(),
{
    broadcast use vstd::seq_lib::group_to_multiset_ensures;
    if s.len() > 0 {
        lemma_sort_contents(s.drop_last(), before);
        lemma_insert_contents(stable_sort(s.drop_last(), before), s.last(), before);
        assert(s.drop_last().push(s.last()) =~= s);
    }
}

proof fn lemma_insert_key_sorted<T>(
    s: Seq<T>,
    x: T,
    before: spec_fn(T, T) -> bool,
    key: spec_fn(T) -> int,
)
    requires
        key_sorted(s, key),
        refines_key(before, key),
    ensures
        key_sorted(insert_sorted(s, x, before), key),
        forall|q: int| 0 <= q < s.len() && before(x, s[q]) ==> key(x) <= key(#[trigger] s[q]),
    decreases s.len(),
{
    let r = insert_sorted(s, x, before);
    if s.len() == 0 {
    } else if !before(x, s.last()) {
        assert(key(s.last()) <= key(x));
        assert forall|i: int, j: int| 0 <= i < j < r.len() implies key(r[i]) <= key(r[j]) by {
            if j == s.len() {
                assert(key(s[i]) <= key(s[s.len() - 1]));
            }
        }
    } else {
        lemma_insert_key_sorted(s.drop_last(), x, before, key);
        let t = insert_sorted(s.drop_last(), x, before);
        lemma_insert_contents(s.drop_last(), x, before);
        assert(key(x) <= key(s.last()));
        assert forall|i: int, j: int| 0 <= i < j < r.len() implies key(r[i]) <= key(r[j]) by {
            if j == r.len() - 1 {
                broadcast use vstd::seq_lib::group_to_multiset_ensures;
                assert(r[j] == s.last());
                assert(t.contains(t[i]));
                assert(t.to_multiset().count(t[i]) > 0);
                assert(s.drop_last().to_multiset().insert(x).count(t[i]) > 0);
                if t[i] != x {
                    assert(s.drop_last().to_multiset().count(t[i]) > 0);
                    assert(s.drop_last().contains(t[i]));
                    let q = choose|q: int| 0 <= q < s.drop_last().len() && s.drop_last()[q] == t[i];
                    assert(key(s[q]) <= key(s[s.len() - 1]));
                }
            }
        }
    }
}

/// A stable sort by a relation that refines a key orders by that key.
pub proof fn lemma_sort_key_sorted<T>(s: Seq<T>, before: spec_fn(T, T) -> bool, key: spec_fn(T) -> int)
    requires
        refines_key(before, key),
    ensures
        key_sorted(stable_sort(s, before), key),
    decreases s.len(),
{
    if s.len() > 0 {
        lemma_sort_key_sorted(s.drop_last(), before, key);
        lemma_insert_key_sorted(stable_sort(s.drop_last(), before), s.last(), before, key);
    }
}

} // verus!

verus! {

/// `before` is a strict weak order: asymmetric, and "not before" is
/// transitive.
pub open spec fn strict_weak<T>(before: spec_fn(T, T) -> bool) -> bool {
    &&& forall|a: T, b: T| #[trigger] before(a, b) ==> !before(b, a)
    &&& forall|a: T, b: T, c: T| !#[trigger] before(a, b) && !#[trigger] before(b, c) ==> !before(a, c)
}

/// No later element is strictly before an earlier one.
pub open spec fn rel_sorted<T>(s: Seq<T>, before: spec_fn(T, T) -> bool) -> bool {
    forall|i: int, j: int| 0 <= i < j < s.len() ==> !before(#[trigger] s[j], #[trigger] s[i])
}

proof fn lemma_insert_rel_sorted<T>(s: Seq<T>, x: T, before: spec_fn(T, T) -> bool)
    requires
        rel_sorted(s, before),
        strict_weak(before),
    ensures
        rel_sorted(insert_sorted(s, x, before), before),
    decreases s.len(),
{
    broadcast use vstd::seq_lib::group_to_multiset_ensures;
    let r = insert_sorted(s, x, before);
    if s.len() == 0 {
    } else if !before(x, s.last()) {
        assert forall|i: int, j: int| 0 <= i < j < r.len() implies !before(#[trigger] r[j], #[trigger] r[i]) by {
            if j == s.len() {
                if i < s.len() - 1 {
                    assert(!before(s[s.len() - 1], s[i]));
                }
            }
        }
    } else {
        let d = s.drop_last();
        lemma_insert_rel_sorted(d, x, before);
        let t = insert_sorted(d, x, before);
        lemma_insert_contents(d, x, before);
        assert(!before(s.last(), x));
        assert forall|i: int, j: int| 0 <= i < j < r.len() implies !before(#[trigger] r[j], #[trigger] r[i]) by {
            if j == r.len() - 1 {
                assert(r[j] == s.last());
                assert(r[i] == t[i]);
                assert(t.contains(t[i]));
                assert(d.to_multiset().insert(x).count(t[i]) > 0);
                if t[i] != x {
                    assert(d.to_multiset().count(t[i]) > 0);
                    assert(d.contains(t[i]));
                    let q = choose|q: int| 0 <= q < d.len() && d[q] == t[i];
                    assert(!before(s[s.len() - 1], s[q]));
                }
            } else {
                assert(r[i] == t[i] && r[j] == t[j]);
            }
        }
    }
}

/// A stable sort by a strict weak order never puts an element after one that
/// it is strictly before.
pub proof fn lemma_sort_rel_sorted<T>(s: Seq<T>, before: spec_fn(T, T) -> bool)
    requires
        strict_weak(before),
    ensures
        rel_sorted(stable_sort(s, before), before),
    decreases s.len(),
{
    if s.len() > 0 {
        lemma_sort_rel_sorted(s.drop_last(), before);
        lemma_insert_rel_sorted(stable_sort(s.drop_last(), before), s.last(), before);
    }
}

} // verus!
