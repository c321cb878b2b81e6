//! The order that a container keeps, stated over `Ord::cmp`.
use vstd::prelude::*;
use vstd::laws_cmp::{obeys_cmp, obeys_cmp_ord, obeys_cmp_partial_ord, obeys_partial_cmp_spec_properties};
use vstd::laws_eq::obeys_eq_spec_properties;
use vstd::std_specs::cmp::{OrdSpec, PartialEqSpec, PartialOrdSpec};
use core::cmp::Ordering;
use crate::dedup::dedup_spec;

verus! {

/// `a` may stand before `b`: it is not greater.
pub open spec fn le<T: Ord>(a: T, b: T) -> bool {
    a.cmp_spec(&b) != Ordering::Greater
}

/// `a` is strictly less than `b`.
pub open spec fn lt<T: Ord>(a: T, b: T) -> bool {
    a.cmp_spec(&b) == Ordering::Less
}

/// `a` and `b` compare equal.
pub open spec fn equiv<T: Ord>(a: T, b: T) -> bool {
    a.cmp_spec(&b) == Ordering::Equal
}

/// Non-decreasing from front to back.
pub open spec fn sorted<T: Ord>(s: Seq<T>) -> bool {
    forall|i: int, j: int| 0 <= i < j < s.len() ==> le(#[trigger] s[i], #[trigger] s[j])
}

/// Non-increasing from front to back: greatest first.
pub open spec fn reverse_sorted<T: Ord>(s: Seq<T>) -> bool {
    forall|i: int, j: int| 0 <= i < j < s.len() ==> le(#[trigger] s[j], #[trigger] s[i])
}

/// Increasing from front to back: sorted, and no two items compare equal.
pub open spec fn strictly_sorted<T: Ord>(s: Seq<T>) -> bool {
    forall|i: int, j: int| 0 <= i < j < s.len() ==> lt(#[trigger] s[i], #[trigger] s[j])
}

/// Some item of `s` compares equal to `x`.
pub open spec fn holds_equiv<T: Ord>(s: Seq<T>, x: T) -> bool {
    exists|i: int| 0 <= i < s.len() && equiv(#[trigger] s[i], x)
}

/// Comparing every item with a fixed `x`: the probe a search for `x` uses.
pub open spec fn cmp_key<T: Ord>(x: T) -> spec_fn(T) -> Ordering {
    |y: T| y.cmp_spec(&x)
}

/// Where the halving search for `x` in `s` ends: `Ok` at the first equal
/// item it probes, else `Err` at the place `x` would go.
pub open spec fn hit<T: Ord>(s: Seq<T>, x: T) -> Result<usize, usize> {
    crate::search::first_hit(s, cmp_key(x), 0, s.len() as int)
}

/// The index the halving search for `x` in `s` ends at, found or not.
pub open spec fn hit_index<T: Ord>(s: Seq<T>, x: T) -> usize {
    match hit(s, x) {
        Ok(i) => i,
        Err(i) => i,
    }
}

/// What `cmp` promises of a lawful total order, in the forms the proofs use.
pub proof fn lemma_cmp_laws<T: Ord>()
    requires
        obeys_cmp::<T>(),
    ensures
        forall|a: T, b: T| #[trigger]
            a.cmp_spec(&b) == Ordering::Less <==> b.cmp_spec(&a) == Ordering::Greater,
        forall|a: T, b: T| #[trigger]
            a.cmp_spec(&b) == Ordering::Equal <==> b.cmp_spec(&a) == Ordering::Equal,
        forall|a: T, b: T| #[trigger] a.eq_spec(&b) <==> a.cmp_spec(&b) == Ordering::Equal,
        forall|a: T, b: T, c: T| #![trigger a.cmp_spec(&b), b.cmp_spec(&c)]
            le(a, b) && le(b, c) ==> le(a, c),
        forall|a: T, b: T, c: T| #![trigger a.cmp_spec(&b), b.cmp_spec(&c)]
            lt(a, b) && le(b, c) ==> lt(a, c),
        forall|a: T, b: T, c: T| #![trigger a.cmp_spec(&b), b.cmp_spec(&c)]
            le(a, b) && lt(b, c) ==> lt(a, c),
        T::obeys_cmp_spec(),
        T::obeys_eq_spec(),
{
    reveal(obeys_partial_cmp_spec_properties);
    reveal(obeys_cmp_ord);
    reveal(obeys_cmp_partial_ord);
    reveal(obeys_eq_spec_properties);
    assert forall|a: T, b: T| #[trigger]
        a.cmp_spec(&b) == Ordering::Less <==> b.cmp_spec(&a) == Ordering::Greater by {
        assert(a.partial_cmp_spec(&b) == Some(a.cmp_spec(&b)));
        assert(b.partial_cmp_spec(&a) == Some(b.cmp_spec(&a)));
    }
    assert forall|a: T, b: T| #[trigger]
        a.cmp_spec(&b) == Ordering::Equal <==> b.cmp_spec(&a) == Ordering::Equal by {
        assert(a.partial_cmp_spec(&b) == Some(a.cmp_spec(&b)));
        assert(b.partial_cmp_spec(&a) == Some(b.cmp_spec(&a)));
        assert(a.eq_spec(&b) <==> b.eq_spec(&a));
    }
    assert forall|a: T, b: T| #[trigger] a.eq_spec(&b) <==> a.cmp_spec(&b) == Ordering::Equal by {
        assert(a.partial_cmp_spec(&b) == Some(a.cmp_spec(&b)));
    }
    assert forall|a: T, b: T, c: T| #![trigger a.cmp_spec(&b), b.cmp_spec(&c)]
        le(a, b) && le(b, c) implies a.cmp_spec(&c) != Ordering::Greater && (lt(a, b) || lt(b, c) ==> lt(a, c)) by {
        assert(a.partial_cmp_spec(&b) == Some(a.cmp_spec(&b)));
        assert(b.partial_cmp_spec(&a) == Some(b.cmp_spec(&a)));
        assert(b.partial_cmp_spec(&c) == Some(b.cmp_spec(&c)));
        assert(c.partial_cmp_spec(&b) == Some(c.cmp_spec(&b)));
        assert(a.partial_cmp_spec(&c) == Some(a.cmp_spec(&c)));
        assert(c.partial_cmp_spec(&a) == Some(c.cmp_spec(&a)));
        assert(a.eq_spec(&b) ==> b.eq_spec(&a));
        assert(b.eq_spec(&c) ==> c.eq_spec(&b));
        assert(a.eq_spec(&c) ==> c.eq_spec(&a));
        assert(a.eq_spec(&b) && b.eq_spec(&c) ==> a.eq_spec(&c));
        assert(b.eq_spec(&a) && a.eq_spec(&c) ==> b.eq_spec(&c));
        assert(a.eq_spec(&c) && c.eq_spec(&b) ==> a.eq_spec(&b));
    }
}

/// In a sorted sequence, comparing every item with a fixed `x` yields the
/// three runs that a halving search expects.
pub proof fn lemma_sorted_partitioned<T: Ord>(s: Seq<T>, x: T)
    requires
        obeys_cmp::<T>(),
        sorted(s),
    ensures
        crate::search::partitioned(s, cmp_key(x)),
{
    lemma_cmp_laws::<T>();
    let key = cmp_key(x);
    assert forall|i: int, j: int| 0 <= i <= j < s.len() implies #[trigger] crate::search::rank(
        key(s[i]),
    ) <= #[trigger] crate::search::rank(key(s[j])) by {
        if i < j {
            assert(le(s[i], s[j]));
        }
    }
}

/// Dropping repeats from a sorted sequence leaves it increasing, and no item
/// kept exceeds the last item of the input.
pub proof fn lemma_dedup_sorted<T: Ord>(s: Seq<T>)
    requires
        obeys_cmp::<T>(),
        sorted(s),
    ensures
        strictly_sorted(dedup_spec(s)),
        s.len() > 0 ==> forall|k: int|
            0 <= k < dedup_spec(s).len() ==> le(#[trigger] dedup_spec(s)[k], s.last()),
    decreases s.len(),
{
    lemma_cmp_laws::<T>();
    if s.len() > 0 {
        let init = s.drop_last();
        lemma_dedup_sorted(init);
        let kept = dedup_spec(init);
        let x = s.last();
        assert(le(x, x));
        if init.len() > 0 {
            assert(le(init.last(), x));
        }
        if !(kept.len() > 0 && kept.last().eq_spec(&x)) {
            let d = kept.push(x);
            assert forall|i: int, j: int| 0 <= i < j < d.len() implies lt(
                #[trigger] d[i],
                #[trigger] d[j],
            ) by {
                if j == d.len() - 1 {
                    assert(le(kept[i], init.last()));
                    assert(le(kept.last(), init.last()));
                    if i < kept.len() - 1 {
                        assert(lt(kept[i], kept.last()));
                    }
                }
            }
        } else {
            assert forall|k: int| 0 <= k < kept.len() implies le(#[trigger] kept[k], x) by {
                assert(le(kept[k], init.last()));
            }
        }
    }
}

/// An increasing sequence is sorted.
pub proof fn lemma_strict_is_sorted<T: Ord>(s: Seq<T>)
    requires
        strictly_sorted(s),
    ensures
        sorted(s),
{
    assert forall|i: int, j: int| 0 <= i < j < s.len() implies le(#[trigger] s[i], #[trigger] s[j]) by {
        assert(lt(s[i], s[j]));
    }
}

/// The order relation as a spec closure, the shape that `Seq::sort_by`
/// takes.
pub open spec fn le_rel<T: Ord>() -> spec_fn(T, T) -> bool {
    |a: T, b: T| le(a, b)
}

/// Elements that compare equal are identical.
pub open spec fn equiv_is_identity<T: Ord>() -> bool {
    forall|x: T, y: T| #[trigger] equiv(x, y) ==> x == y
}

/// Where equal-comparing elements are identical, `le` is a total ordering.
proof fn lemma_le_total<T: Ord>()
    requires
        obeys_cmp::<T>(),
        equiv_is_identity::<T>(),
    ensures
        vstd::relations::total_ordering(le_rel::<T>()),
{
    lemma_cmp_laws::<T>();
    let r = le_rel::<T>();
    assert forall|x: T| #[trigger] r(x, x) by {
        assert(x.cmp_spec(&x) == Ordering::Less <==> x.cmp_spec(&x) == Ordering::Greater);
    }
    assert forall|x: T, y: T| #[trigger] r(x, y) && #[trigger] r(y, x) implies x == y by {
        assert(equiv(x, y));
    }
    assert forall|x: T, y: T, z: T| #[trigger] r(x, y) && #[trigger] r(y, z) implies r(x, z) by {
        assert(le(x, y) && le(y, z));
    }
    assert forall|x: T, y: T| #[trigger] r(x, y) || r(y, x) by {
        assert(x.cmp_spec(&y) == Ordering::Less <==> y.cmp_spec(&x) == Ordering::Greater);
    }
}

/// Two sorted sequences with the same elements are the same sequence,
/// where equal-comparing elements are identical.
proof fn lemma_sorted_unique<T: Ord>(a: Seq<T>, b: Seq<T>)
    requires
        obeys_cmp::<T>(),
        equiv_is_identity::<T>(),
        sorted(a),
        sorted(b),
        a.to_multiset() == b.to_multiset(),
    ensures
        a == b,
    decreases a.len(),
{
    lemma_cmp_laws::<T>();
    a.to_multiset_ensures();
    b.to_multiset_ensures();
    if a.len() == 0 {
        assert(a =~= b);
    } else {
        assert(b.len() > 0);
        assert(b.contains(b[0]));
        assert(b.to_multiset().count(b[0]) > 0);
        assert(a.to_multiset().count(b[0]) > 0);
        assert(a.contains(b[0]));
        assert(a.contains(a[0]));
        assert(a.to_multiset().count(a[0]) > 0);
        assert(b.to_multiset().count(a[0]) > 0);
        assert(b.contains(a[0]));
        let i = choose|i: int| 0 <= i < a.len() && a[i] == b[0];
        let j = choose|j: int| 0 <= j < b.len() && b[j] == a[0];
        if i > 0 {
            assert(le(a[0], a[i]));
        }
        if j > 0 {
            assert(le(b[0], b[j]));
        }
        assert(a[0].cmp_spec(&a[0]) == Ordering::Less <==> a[0].cmp_spec(&a[0]) == Ordering::Greater);
        assert(b[0].cmp_spec(&b[0]) == Ordering::Less <==> b[0].cmp_spec(&b[0]) == Ordering::Greater);
        assert(le(a[0], b[0]) && le(b[0], a[0]));
        assert(equiv(a[0], b[0]));
        assert(a[0] == b[0]);
        assert(a.remove(0) == a.drop_first());
        assert(b.remove(0) == b.drop_first());
        let a1 = a.drop_first();
        let b1 = b.drop_first();
        assert(a1.to_multiset() == b1.to_multiset());
        assert forall|x: int, y: int| 0 <= x < y < a1.len() implies le(#[trigger] a1[x], #[trigger] a1[y]) by {
            assert(le(a[x + 1], a[y + 1]));
        }
        assert forall|x: int, y: int| 0 <= x < y < b1.len() implies le(#[trigger] b1[x], #[trigger] b1[y]) by {
            assert(le(b[x + 1], b[y + 1]));
        }
        lemma_sorted_unique(a1, b1);
        assert(a.len() == b.len());
        assert forall|k: int| 0 <= k < a.len() implies a[k] == b[k] by {
            if k > 0 {
                assert(a[k] == a1[k - 1]);
                assert(b[k] == b1[k - 1]);
            }
        }
        assert(a =~= b);
    }
}

/// A sorted arrangement of `v` is `v` sorted: where equal-comparing elements
/// are identical, any sorted sequence with the elements of `v` equals
/// `v.sort_by(le)`. This is what `from_unsorted` hands back.
pub proof fn lemma_sorted_is_the_sort<T: Ord>(v: Seq<T>, r: Seq<T>)
    requires
        obeys_cmp::<T>(),
        equiv_is_identity::<T>(),
        sorted(r),
        r.to_multiset() == v.to_multiset(),
    ensures
        r == v.sort_by(le_rel::<T>()),
{
    lemma_le_total::<T>();
    v.lemma_sort_by_ensures(le_rel::<T>());
    let p = v.sort_by(le_rel::<T>());
    assert forall|i: int, j: int| 0 <= i < j < p.len() implies le(#[trigger] p[i], #[trigger] p[j]) by {
        assert(le_rel::<T>()(p[i], p[j]));
    }
    lemma_sorted_unique(r, p);
}

/// The set built from `v` is `v` sorted with repeats dropped: where
/// equal-comparing elements are identical, deduplicating any sorted
/// arrangement of `v` gives `dedup_spec(v.sort_by(le))`.
pub proof fn lemma_dedup_of_sort<T: Ord>(v: Seq<T>, p: Seq<T>, r: Seq<T>)
    requires
        obeys_cmp::<T>(),
        equiv_is_identity::<T>(),
        sorted(p),
        p.to_multiset() == v.to_multiset(),
        r == dedup_spec(p),
    ensures
        r == dedup_spec(v.sort_by(le_rel::<T>())),
{
    lemma_sorted_is_the_sort(v, p);
}

} // verus!
