//! Sorted vectors of types that only implement `PartialOrd`.
//!
//! Comparing two incomparable elements would be a runtime panic; the
//! contracts here require every comparison that an operation makes to be
//! defined. Both containers run the same code, driven by a direction flag:
//! ascending for `SortedVec`, descending for `ReverseSortedVec`.
use vstd::prelude::*;
use vstd::laws_cmp::obeys_partial_cmp_spec_properties;
use vstd::laws_eq::obeys_eq_spec_properties;
use vstd::std_specs::cmp::{PartialEqSpec, PartialOrdSpec};
use vstd::std_specs::iter::IteratorSpec;
use vstd::std_specs::vec::into_iter_elts;
use core::cmp::Ordering;
use core::ops::RangeBounds;
use crate::dedup::{dedup_spec, dedup_vec};
use crate::range::{end_edge, resolve, start_edge};
use crate::search::{partitioned, rank, search_last_hit};

verus! {

/// `o` with its two strict cases swapped.
pub open spec fn flip(o: Ordering) -> Ordering {
    match o {
        Ordering::Less => Ordering::Greater,
        Ordering::Equal => Ordering::Equal,
        Ordering::Greater => Ordering::Less,
    }
}

/// Relies on `Ordering::reverse`: `Less` and `Greater` trade places.
pub assume_specification[ core::cmp::Ordering::reverse ](o: Ordering) -> (r: Ordering)
    ensures
        r == flip(o),
;

/// `partial_cmp` follows its specification and the laws of a partial order.
pub open spec fn lawful<T: PartialOrd>() -> bool {
    &&& T::obeys_partial_cmp_spec()
    &&& T::obeys_eq_spec()
    &&& obeys_partial_cmp_spec_properties::<T>()
}

/// `a` and `b` can be compared.
pub open spec fn comparable<T: PartialOrd>(a: T, b: T) -> bool {
    a.partial_cmp_spec(&b) is Some
}

/// `a` is not greater than `b`.
pub open spec fn le_p<T: PartialOrd>(a: T, b: T) -> bool {
    a.partial_cmp_spec(&b) matches Some(Ordering::Less | Ordering::Equal)
}

/// `a` is less than `b`.
pub open spec fn lt_p<T: PartialOrd>(a: T, b: T) -> bool {
    a.partial_cmp_spec(&b) == Some(Ordering::Less)
}

/// How `a` stands to `b` along the direction: as compared when ascending,
/// flipped when descending.
pub open spec fn order_of<T: PartialOrd>(a: T, b: T, desc: bool) -> Ordering {
    let o = a.partial_cmp_spec(&b)->Some_0;
    if desc {
        flip(o)
    } else {
        o
    }
}

/// `a` may stand before `b` along the direction.
pub open spec fn before<T: PartialOrd>(a: T, b: T, desc: bool) -> bool {
    if desc {
        le_p(b, a)
    } else {
        le_p(a, b)
    }
}

/// `s` runs along the direction: ascending, or descending if `desc`.
pub open spec fn ordered<T: PartialOrd>(s: Seq<T>, desc: bool) -> bool {
    forall|i: int, j: int| 0 <= i < j < s.len() ==> before(#[trigger] s[i], #[trigger] s[j], desc)
}

/// Every item of `s` can be compared with `x`.
pub open spec fn comparable_to<T: PartialOrd>(s: Seq<T>, x: T) -> bool {
    forall|i: int| 0 <= i < s.len() ==> comparable(#[trigger] s[i], x)
}

/// Any two items of `s` can be compared.
pub open spec fn all_comparable<T: PartialOrd>(s: Seq<T>) -> bool {
    forall|i: int, j: int| 0 <= i < s.len() && 0 <= j < s.len() ==> comparable(#[trigger] s[i], #[trigger] s[j])
}

/// Some item of `s` compares equal to `x`.
pub open spec fn holds_equal<T: PartialOrd>(s: Seq<T>, x: T) -> bool {
    exists|i: int| 0 <= i < s.len() && #[trigger] s[i].partial_cmp_spec(&x) == Some(Ordering::Equal)
}

/// What a search for `x` reports: `Ok(i)` names the last item equal to
/// `x`; `Err(i)` is where `x` would go along the direction.
pub open spec fn search_spec<T: PartialOrd>(s: Seq<T>, x: T, desc: bool, r: Result<usize, usize>) -> bool {
    match r {
        Ok(i) => {
            &&& i < s.len()
            &&& s[i as int].partial_cmp_spec(&x) == Some(Ordering::Equal)
            &&& forall|j: int| i < j < s.len() ==> order_of(#[trigger] s[j], x, desc) == Ordering::Greater
        },
        Err(i) => {
            &&& i <= s.len()
            &&& forall|j: int| 0 <= j < i ==> order_of(#[trigger] s[j], x, desc) == Ordering::Less
            &&& forall|j: int| i <= j < s.len() ==> order_of(#[trigger] s[j], x, desc) == Ordering::Greater
        },
    }
}

/// What the laws of a partial order give, in the forms the proofs use.
proof fn lemma_partial_laws<T: PartialOrd>()
    requires
        lawful::<T>(),
    ensures
        forall|a: T, b: T| #[trigger]
            a.partial_cmp_spec(&b) == Some(Ordering::Less) <==> b.partial_cmp_spec(&a) == Some(Ordering::Greater),
        forall|a: T, b: T| #[trigger]
            a.partial_cmp_spec(&b) == Some(Ordering::Equal) <==> b.partial_cmp_spec(&a) == Some(Ordering::Equal),
        forall|a: T, b: T| #[trigger] comparable(a, b) <==> comparable(b, a),
        forall|a: T, b: T| #[trigger] a.eq_spec(&b) <==> a.partial_cmp_spec(&b) == Some(Ordering::Equal),
        forall|a: T, b: T, c: T| #![trigger a.partial_cmp_spec(&b), b.partial_cmp_spec(&c)]
            le_p(a, b) && le_p(b, c) && comparable(a, c) ==> le_p(a, c) && (lt_p(a, b) || lt_p(b, c) ==> lt_p(a, c)),
{
    reveal(obeys_partial_cmp_spec_properties);
    reveal(obeys_eq_spec_properties);
    assert forall|a: T, b: T| #[trigger] comparable(a, b) <==> comparable(b, a) by {
        assert(a.eq_spec(&b) <==> b.eq_spec(&a));
        let ab = a.partial_cmp_spec(&b);
        let ba = b.partial_cmp_spec(&a);
        assert(ab == Some(Ordering::Less) <==> ba == Some(Ordering::Greater));
        assert(ba == Some(Ordering::Less) <==> ab == Some(Ordering::Greater));
        assert(ab == Some(Ordering::Equal) <==> a.eq_spec(&b));
        assert(ba == Some(Ordering::Equal) <==> b.eq_spec(&a));
        if ab is Some {
            assert(ab == Some(Ordering::Less) || ab == Some(Ordering::Equal) || ab == Some(Ordering::Greater));
        }
        if ba is Some {
            assert(ba == Some(Ordering::Less) || ba == Some(Ordering::Equal) || ba == Some(Ordering::Greater));
        }
    }
    assert forall|a: T, b: T| #[trigger]
        a.partial_cmp_spec(&b) == Some(Ordering::Equal) <==> b.partial_cmp_spec(&a) == Some(Ordering::Equal) by {
        assert(a.eq_spec(&b) <==> b.eq_spec(&a));
    }
    assert forall|a: T, b: T, c: T| #![trigger a.partial_cmp_spec(&b), b.partial_cmp_spec(&c)]
        le_p(a, b) && le_p(b, c) && comparable(a, c) implies le_p(a, c) && (lt_p(a, b) || lt_p(b, c) ==> lt_p(a, c)) by {
        assert(a.eq_spec(&b) ==> b.eq_spec(&a));
        assert(b.eq_spec(&c) ==> c.eq_spec(&b));
        assert(a.eq_spec(&c) ==> c.eq_spec(&a));
        assert(a.eq_spec(&b) && b.eq_spec(&c) ==> a.eq_spec(&c));
        assert(b.eq_spec(&a) && a.eq_spec(&c) ==> b.eq_spec(&c));
        assert(a.eq_spec(&c) && c.eq_spec(&b) ==> a.eq_spec(&b));
        assert(c.partial_cmp_spec(&a) == Some(Ordering::Less) && a.partial_cmp_spec(&b) == Some(Ordering::Less)
            ==> c.partial_cmp_spec(&b) == Some(Ordering::Less));
        assert(b.partial_cmp_spec(&c) == Some(Ordering::Less) && c.partial_cmp_spec(&a) == Some(Ordering::Less)
            ==> b.partial_cmp_spec(&a) == Some(Ordering::Less));
    }
}

/// In an ordered sequence whose items all compare with `x`, the verdicts on
/// `x` come in the three runs that a halving search expects.
proof fn lemma_ordered_partitioned<T: PartialOrd>(s: Seq<T>, x: T, desc: bool)
    requires
        lawful::<T>(),
        ordered(s, desc),
        comparable_to(s, x),
    ensures
        partitioned(s, |y: T| order_of(y, x, desc)),
{
    lemma_partial_laws::<T>();
    let key = |y: T| order_of(y, x, desc);
    assert forall|i: int, j: int| 0 <= i <= j < s.len() implies #[trigger] rank(key(s[i])) <= #[trigger] rank(key(s[j])) by {
        assert(comparable(s[i], x));
        assert(comparable(s[j], x));
        if i < j {
            assert(before(s[i], s[j], desc));
            assert(comparable(s[j], s[i]));
            assert(comparable(x, s[i]));
            assert(comparable(x, s[j]));
        }
    }
}

/// `o` as seen along the direction.
fn directed(o: Ordering, desc: bool) -> (r: Ordering)
    ensures
        r == (if desc {
            flip(o)
        } else {
            o
        }),
{
    if desc {
        o.reverse()
    } else {
        o
    }
}

/// Halving search for `x` along the direction; among several equal items it
/// lands on the last.
fn locate<T: PartialOrd>(v: &Vec<T>, x: &T, desc: bool) -> (r: Result<usize, usize>)
    requires
        lawful::<T>(),
        ordered(v@, desc),
        comparable_to(v@, *x),
    ensures
        search_spec(v@, *x, desc, r),
{
    proof {
        lemma_ordered_partitioned(v@, *x, desc);
    }
    let probe = |y: &T| -> (o: Ordering)
        requires
            y.partial_cmp_spec(x) is Some,
        ensures
            o == order_of(*y, *x, desc),
        { directed(partial_compare(y, x), desc) };
    let r = search_last_hit(v, probe, Ghost(|y: T| order_of(y, *x, desc)));
    proof {
        if let Ok(i) = r {
            let o = v@[i as int].partial_cmp_spec(x);
            assert(comparable(v@[i as int], *x));
            assert(o == Some(Ordering::Equal));
        }
    }
    r
}

/// Compares `lhs` with `rhs`, which must be comparable.
pub fn partial_compare<T: PartialOrd>(lhs: &T, rhs: &T) -> (r: Ordering)
    requires
        lawful::<T>(),
        comparable(*lhs, *rhs),
    ensures
        lhs.partial_cmp_spec(rhs) == Some(r),
{
    lhs.partial_cmp(rhs).unwrap()
}

/// Taking one item out keeps the direction.
proof fn lemma_ordered_remove<T: PartialOrd>(s: Seq<T>, i: int, desc: bool)
    requires
        ordered(s, desc),
        0 <= i < s.len(),
    ensures
        ordered(s.remove(i), desc),
{
    let t = s.remove(i);
    assert forall|a: int, b: int| 0 <= a < b < t.len() implies before(#[trigger] t[a], #[trigger] t[b], desc) by {
        if a < i && b >= i {
            assert(before(s[a], s[b + 1], desc));
        } else if b < i {
            assert(before(s[a], s[b], desc));
        } else {
            assert(before(s[a + 1], s[b + 1], desc));
        }
    }
}

/// Cutting out the window `[a, b)` keeps the direction.
proof fn lemma_ordered_cut<T: PartialOrd>(s: Seq<T>, a: int, b: int, desc: bool)
    requires
        ordered(s, desc),
        0 <= a <= b <= s.len(),
    ensures
        ordered(s.subrange(0, a) + s.subrange(b, s.len() as int), desc),
{
    let t = s.subrange(0, a) + s.subrange(b, s.len() as int);
    assert forall|i: int, j: int| 0 <= i < j < t.len() implies before(#[trigger] t[i], #[trigger] t[j], desc) by {
        if i < a && j >= a {
            assert(t[j] == s[j + b - a]);
            assert(before(s[i], s[j + b - a], desc));
        } else if j < a {
            assert(before(s[i], s[j], desc));
        } else {
            assert(t[i] == s[i + b - a]);
            assert(t[j] == s[j + b - a]);
            assert(before(s[i + b - a], s[j + b - a], desc));
        }
    }
}

/// Dropping repeats keeps the direction, and every item kept stands in the
/// input.
proof fn lemma_ordered_dedup<T: PartialOrd>(s: Seq<T>, desc: bool)
    requires
        ordered(s, desc),
    ensures
        ordered(dedup_spec(s), desc),
        forall|k: int| 0 <= k < dedup_spec(s).len() ==> exists|j: int|
            0 <= j < s.len() && #[trigger] dedup_spec(s)[k] == s[j],
    decreases s.len(),
{
    if s.len() > 0 {
        let init = s.drop_last();
        lemma_ordered_dedup(init, desc);
        let kept = dedup_spec(init);
        let d = dedup_spec(s);
        assert forall|k: int| 0 <= k < kept.len() implies before(#[trigger] kept[k], s.last(), desc) by {
            let j = choose|j: int| 0 <= j < init.len() && kept[k] == init[j];
            assert(before(s[j], s[s.len() - 1], desc));
        }
        assert forall|k: int| 0 <= k < d.len() implies exists|j: int| 0 <= j < s.len() && #[trigger] d[k] == s[j] by {
            if k < kept.len() {
                let j = choose|j: int| 0 <= j < init.len() && kept[k] == init[j];
                assert(d[k] == s[j]);
            } else {
                assert(d[k] == s[s.len() - 1]);
            }
        }
    }
}

/// Inserts `e` where the search for it ends.
fn place<T: PartialOrd>(v: &mut Vec<T>, e: T, desc: bool) -> (r: usize)
    requires
        lawful::<T>(),
        ordered(old(v)@, desc),
        comparable_to(old(v)@, e),
    ensures
        r <= old(v)@.len(),
        final(v)@ == old(v)@.insert(r as int, e),
        holds_equal(old(v)@, e) ==> search_spec(old(v)@, e, desc, Ok(r)),
        !holds_equal(old(v)@, e) ==> search_spec(old(v)@, e, desc, Err(r)),
        ordered(final(v)@, desc),
        forall|j: int| 0 <= j < r ==> before(#[trigger] old(v)@[j], e, desc),
        forall|j: int| r <= j < old(v)@.len() ==> before(e, #[trigger] old(v)@[j], desc),
{
    let ghost s = v@;
    let found = locate(v, &e, desc);
    let at = match found {
        Ok(i) => i,
        Err(i) => i,
    };
    proof {
        lemma_partial_laws::<T>();
        if found is Err {
            assert forall|j: int| 0 <= j < s.len() implies #[trigger] s[j].partial_cmp_spec(&e)
                != Some(Ordering::Equal) by {
                assert(comparable(s[j], e));
            }
        }
        assert forall|j: int| 0 <= j < s.len() implies (j < at ==> before(#[trigger] s[j], e, desc)) && (j >= at ==> before(e, s[j], desc)) by {
            assert(comparable(s[j], e));
            assert(comparable(e, s[j]));
            if at < s.len() && s[at as int].partial_cmp_spec(&e) == Some(Ordering::Equal) && j < at {
                assert(before(s[j], s[at as int], desc));
                assert(comparable(s[at as int], s[j]));
            }
        }
        let t = s.insert(at as int, e);
        assert forall|i: int, j: int| 0 <= i < j < t.len() implies before(#[trigger] t[i], #[trigger] t[j], desc) by {
            if i < at && j > at {
                assert(before(s[i], e, desc));
                assert(before(e, s[j - 1], desc));
                assert(comparable(s[i], e));
                assert(comparable(s[j - 1], e));
                assert(comparable(s[j - 1], s[i]));
            } else if j < at {
                assert(before(s[i], s[j], desc));
            } else if i > at {
                assert(before(s[i - 1], s[j - 1], desc));
            } else if i == at {
                assert(before(e, s[j - 1], desc));
            } else {
                assert(before(s[i], e, desc));
            }
        }
    }
    v.insert(at, e);
    at
}

/// Relies on `slice::sort_unstable_by`, handed `partial_compare`: afterwards
/// the vector holds the same elements, ascending. The comparator is called
/// only on pairs of elements, all of which compare.
#[verifier::external_body]
fn sort_ascending<T: PartialOrd>(v: &mut Vec<T>)
    requires
        lawful::<T>(),
        all_comparable(old(v)@),
    ensures
        final(v)@.to_multiset() == old(v)@.to_multiset(),
        ordered(final(v)@, false),
{
    v.sort_unstable_by(partial_compare)
}

/// Turns `v` back to front.
fn reverse_in_place<T>(v: &mut Vec<T>)
    ensures
        final(v)@ == old(v)@.reverse(),
{
    let mut items: Vec<T> = Vec::new();
    core::mem::swap(v, &mut items);
    let ghost all = items@;
    while items.len() > 0
        invariant
            items@.len() <= all.len(),
            items@ == all.subrange(0, items@.len() as int),
            v@ == all.subrange(items@.len() as int, all.len() as int).reverse(),
        decreases items.len(),
    {
        let ghost n = items@.len();
        let x = items.pop().unwrap();
        v.push(x);
        proof {
            assert(all.subrange(n - 1, all.len() as int).reverse() =~= all.subrange(n as int, all.len() as int).reverse().push(all[n - 1]));
        }
    }
    proof {
        assert(all.subrange(0, all.len() as int) == all);
    }
}

/// Sorts `v` along the direction.
fn arrange<T: PartialOrd>(v: &mut Vec<T>, desc: bool)
    requires
        lawful::<T>(),
        all_comparable(old(v)@),
    ensures
        final(v)@.to_multiset() == old(v)@.to_multiset(),
        ordered(final(v)@, desc),
{
    sort_ascending(v);
    if desc {
        let ghost up = v@;
        reverse_in_place(v);
        proof {
            up.lemma_reverse_to_multiset();
            let t = v@;
            assert forall|i: int, j: int| 0 <= i < j < t.len() implies before(#[trigger] t[i], #[trigger] t[j], desc) by {
                assert(t[i] == up[up.len() - 1 - i]);
                assert(t[j] == up[up.len() - 1 - j]);
                assert(before(up[up.len() - 1 - j], up[up.len() - 1 - i], false));
            }
        }
    }
}

/// Every item of `v.insert(r, rest[0]) + rest.drop_first()` stands in
/// `v + rest`, so any two of them still compare.
proof fn lemma_comparable_shift<T: PartialOrd>(v: Seq<T>, r: int, rest: Seq<T>)
    requires
        all_comparable(v + rest),
        rest.len() > 0,
        0 <= r <= v.len(),
    ensures
        all_comparable(v.insert(r, rest[0]) + rest.drop_first()),
{
    let old_s = v + rest;
    let new_s = v.insert(r, rest[0]) + rest.drop_first();
    assert forall|k: int| 0 <= k < new_s.len() implies exists|m: int| 0 <= m < old_s.len() && #[trigger] new_s[k] == old_s[m] by {
        if k < r {
            assert(new_s[k] == old_s[k]);
        } else if k == r {
            assert(new_s[k] == old_s[v.len() as int]);
        } else if k <= v.len() {
            assert(new_s[k] == old_s[k - 1]);
        } else {
            assert(new_s[k] == old_s[k]);
        }
    }
    assert forall|i: int, j: int| 0 <= i < new_s.len() && 0 <= j < new_s.len() implies comparable(#[trigger] new_s[i], #[trigger] new_s[j]) by {
        let mi = choose|m: int| 0 <= m < old_s.len() && new_s[i] == old_s[m];
        let mj = choose|m: int| 0 <= m < old_s.len() && new_s[j] == old_s[m];
        assert(comparable(old_s[mi], old_s[mj]));
    }
}

/// Places every element that `iter` yields, one after the other.
fn absorb<T: PartialOrd>(v: &mut Vec<T>, iter: std::vec::IntoIter<T>, desc: bool)
    requires
        lawful::<T>(),
        ordered(old(v)@, desc),
        all_comparable(old(v)@ + into_iter_elts(iter)),
        iter.initial_value_relation(&iter),
        iter.decrease() is Some,
    ensures
        ordered(final(v)@, desc),
        final(v)@.to_multiset() == old(v)@.to_multiset().add(into_iter_elts(iter).to_multiset()),
{
    let ghost start = v@;
    let ghost all = into_iter_elts(iter);
    proof {
        all.take(0).to_multiset_ensures();
        assert(start.to_multiset().add(all.take(0).to_multiset()) =~= start.to_multiset());
        assert(all.skip(0) == all);
    }
    for t in it: iter
        invariant
            lawful::<T>(),
            ordered(v@, desc),
            it.seq() == all,
            all_comparable(v@ + all.skip(it.index() as int)),
            v@.to_multiset() == start.to_multiset().add(all.take(it.index() as int).to_multiset()),
    {
        let ghost i = it.index() as int;
        let ghost before_v = v@;
        proof {
            assert(t == all[i]);
            let joined = before_v + all.skip(i);
            assert forall|k: int| 0 <= k < before_v.len() implies comparable(#[trigger] before_v[k], t) by {
                assert(joined[k] == before_v[k]);
                assert(joined[before_v.len() as int] == t);
            }
        }
        let at = place(v, t, desc);
        proof {
            assert(all.skip(i)[0] == t);
            assert(all.skip(i).drop_first() == all.skip(i + 1));
            lemma_comparable_shift(before_v, at as int, all.skip(i));
            assert(all.take(i + 1) == all.take(i).push(t));
            assert(v@.remove(at as int) == before_v);
            assert(v@[at as int] == t);
            assert(v@.contains(t));
            v@.to_multiset_ensures();
            all.take(i).to_multiset_ensures();
            assert(v@.remove(at as int).to_multiset() == before_v.to_multiset());
            assert(v@.to_multiset() =~= before_v.to_multiset().insert(t));
            assert(all.take(i).push(t).to_multiset() =~= all.take(i).to_multiset().insert(t));
            assert(start.to_multiset().add(all.take(i + 1).to_multiset()) =~= start.to_multiset().add(all.take(i).to_multiset()).insert(t));
        }
    }
    proof {
        assert(all.take(all.len() as int) == all);
    }
}

/// Looks for an item equal to `e`: `Ok` with the last such index, `v` left
/// as it was; otherwise inserts `e` where it belongs and reports `Err` with
/// its index.
fn find_or_place<T: PartialOrd>(v: &mut Vec<T>, e: T, desc: bool) -> (r: Result<usize, usize>)
    requires
        lawful::<T>(),
        ordered(old(v)@, desc),
        comparable_to(old(v)@, e),
    ensures
        ordered(final(v)@, desc),
        r is Ok <==> holds_equal(old(v)@, e),
        match r {
            Ok(i) => search_spec(old(v)@, e, desc, r) && final(v)@ == old(v)@,
            Err(i) => i <= old(v)@.len() && final(v)@ == old(v)@.insert(i as int, e),
        },
{
    let ghost s = v@;
    match locate(v, &e, desc) {
        Ok(i) => Ok(i),
        Err(i) => {
            proof {
                lemma_partial_laws::<T>();
                assert forall|j: int| 0 <= j < s.len() implies #[trigger] s[j].partial_cmp_spec(&e) != Some(Ordering::Equal) by {
                    assert(comparable(s[j], e));
                }
                let t = s.insert(i as int, e);
                assert forall|a: int, b: int| 0 <= a < b < t.len() implies before(#[trigger] t[a], #[trigger] t[b], desc) by {
                    if b < i {
                        assert(before(s[a], s[b], desc));
                    } else if a > i {
                        assert(before(s[a - 1], s[b - 1], desc));
                    } else if a < i && b > i {
                        assert(before(s[a], s[b - 1], desc));
                    } else if a == i {
                        assert(comparable(s[b - 1], e));
                        assert(comparable(e, s[b - 1]));
                    } else {
                        assert(comparable(s[a], e));
                        assert(comparable(e, s[a]));
                    }
                }
            }
            v.insert(i, e);
            Err(i)
        },
    }
}

/// Removes the last item equal to `item` and returns it, or `None` if
/// there is none.
fn remove_equal<T: PartialOrd>(v: &mut Vec<T>, item: &T, desc: bool) -> (r: Option<T>)
    requires
        lawful::<T>(),
        ordered(old(v)@, desc),
        comparable_to(old(v)@, *item),
    ensures
        ordered(final(v)@, desc),
        r is Some <==> holds_equal(old(v)@, *item),
        match r {
            Some(e) => exists|i: int|
                {
                    &&& search_spec(old(v)@, *item, desc, Ok(i as usize))
                    &&& 0 <= i < old(v)@.len()
                    &&& e == old(v)@[i]
                    &&& final(v)@ == old(v)@.remove(i)
                },
            None => final(v)@ == old(v)@,
        },
{
    let ghost s = v@;
    match locate(v, item, desc) {
        Ok(i) => {
            proof {
                lemma_ordered_remove(s, i as int, desc);
            }
            let e = v.remove(i);
            proof {
                assert(search_spec(s, *item, desc, Ok((i as int) as usize)));
            }
            Some(e)
        },
        Err(i) => {
            proof {
                lemma_partial_laws::<T>();
                assert forall|j: int| 0 <= j < s.len() implies #[trigger] s[j].partial_cmp_spec(item) != Some(Ordering::Equal) by {
                    assert(comparable(s[j], *item));
                }
            }
            None
        },
    }
}

/// Removes the window `[a, b)` of `v` and returns it.
fn cut<T>(v: &mut Vec<T>, a: usize, b: usize) -> (r: Vec<T>)
    requires
        a <= b <= old(v)@.len(),
    ensures
        r@ == old(v)@.subrange(a as int, b as int),
        final(v)@ == old(v)@.subrange(0, a as int) + old(v)@.subrange(b as int, old(v)@.len() as int),
{
    let mut tail = v.split_off(b);
    let middle = v.split_off(a);
    v.append(&mut tail);
    middle
}

/// Forward sorted vector: elements run from least to greatest.
#[derive(Clone, Debug, PartialEq, PartialOrd, Hash)]
pub struct SortedVec<T: PartialOrd> {
    vec: Vec<T>,
}

impl<T: PartialOrd> View for SortedVec<T> {
    type V = Seq<T>;

    closed spec fn view(&self) -> Seq<T> {
        self.vec@
    }
}

impl<T: PartialOrd> SortedVec<T> {
    /// The order that every operation keeps: ascending.
    pub open spec fn well_formed(&self) -> bool {
        ordered(self@, false)
    }

    /// An empty vector.
    pub fn new() -> (r: Self)
        ensures
            r@ == Seq::<T>::empty(),
            r.well_formed(),
    {
        SortedVec { vec: Vec::new() }
    }

    /// An empty vector with room for `capacity` elements.
    pub fn with_capacity(capacity: usize) -> (r: Self)
        ensures
            r@ == Seq::<T>::empty(),
            r.well_formed(),
    {
        SortedVec { vec: Vec::with_capacity(capacity) }
    }

    /// Sorts `vec` ascending with an unstable sort and takes it over; any
    /// two of its elements must compare.
    pub fn from_unsorted(vec: Vec<T>) -> (r: Self)
        requires
            lawful::<T>(),
            all_comparable(vec@),
        ensures
            r.well_formed(),
            r@.to_multiset() == vec@.to_multiset(),
    {
        let mut vec = vec;
        arrange(&mut vec, false);
        SortedVec { vec }
    }

    /// Inserts `element` at its place and returns that index; next to equal
    /// elements, it goes just before the last of them.
    pub fn insert(&mut self, element: T) -> (r: usize)
        requires
            lawful::<T>(),
            old(self).well_formed(),
            comparable_to(old(self)@, element),
        ensures
            r <= old(self)@.len(),
            final(self)@ == old(self)@.insert(r as int, element),
            holds_equal(old(self)@, element) ==> search_spec(old(self)@, element, false, Ok(r)),
            !holds_equal(old(self)@, element) ==> search_spec(old(self)@, element, false, Err(r)),
            forall|j: int| 0 <= j < r ==> before(#[trigger] old(self)@[j], element, false),
            forall|j: int| r <= j < old(self)@.len() ==> before(element, #[trigger] old(self)@[j], false),
            final(self).well_formed(),
    {
        place(&mut self.vec, element, false)
    }

    /// Looks for an element equal to `element`: `Ok` with the index of the
    /// last such, the vector left as it was; otherwise inserts `element` and
    /// reports `Err` with its index.
    pub fn find_or_insert(&mut self, element: T) -> (r: Result<usize, usize>)
        requires
            lawful::<T>(),
            old(self).well_formed(),
            comparable_to(old(self)@, element),
        ensures
            final(self).well_formed(),
            r is Ok <==> holds_equal(old(self)@, element),
            match r {
                Ok(i) => search_spec(old(self)@, element, false, r) && final(self)@ == old(self)@,
                Err(i) => i <= old(self)@.len() && final(self)@ == old(self)@.insert(i as int, element),
            },
    {
        find_or_place(&mut self.vec, element, false)
    }

    /// Removes the last element equal to `item` and returns it, or `None` if
    /// there is none.
    pub fn remove_item(&mut self, item: &T) -> (r: Option<T>)
        requires
            lawful::<T>(),
            old(self).well_formed(),
            comparable_to(old(self)@, *item),
        ensures
            final(self).well_formed(),
            r is Some <==> holds_equal(old(self)@, *item),
            match r {
                Some(e) => exists|i: int|
                    {
                        &&& search_spec(old(self)@, *item, false, Ok(i as usize))
                        &&& 0 <= i < old(self)@.len()
                        &&& e == old(self)@[i]
                        &&& final(self)@ == old(self)@.remove(i)
                    },
                None => final(self)@ == old(self)@,
            },
    {
        remove_equal(&mut self.vec, item, false)
    }

    /// Removes and returns the element at `index`, which must be in bounds.
    pub fn remove_index(&mut self, index: usize) -> (r: T)
        requires
            old(self).well_formed(),
            index < old(self)@.len(),
        ensures
            final(self).well_formed(),
            r == old(self)@[index as int],
            final(self)@ == old(self)@.remove(index as int),
    {
        proof {
            lemma_ordered_remove(self.vec@, index as int, false);
        }
        self.vec.remove(index)
    }

    /// Halving search for `x`; among several equal elements it finds the
    /// last.
    pub fn binary_search(&self, x: &T) -> (r: Result<usize, usize>)
        requires
            lawful::<T>(),
            self.well_formed(),
            comparable_to(self@, *x),
        ensures
            search_spec(self@, *x, false, r),
    {
        locate(&self.vec, x, false)
    }

    /// Removes and returns the last element, or `None` if empty.
    pub fn pop(&mut self) -> (r: Option<T>)
        requires
            old(self).well_formed(),
        ensures
            final(self).well_formed(),
            old(self)@.len() == 0 ==> r is None && final(self)@ == old(self)@,
            old(self)@.len() > 0 ==> r == Some(old(self)@.last()) && final(self)@ == old(self)@.drop_last(),
    {
        proof {
            if self.vec@.len() > 0 {
                lemma_ordered_remove(self.vec@, self.vec@.len() - 1, false);
                assert(self.vec@.remove(self.vec@.len() - 1) == self.vec@.drop_last());
            }
        }
        self.vec.pop()
    }

    /// Removes every element.
    pub fn clear(&mut self)
        ensures
            final(self)@ == Seq::<T>::empty(),
            final(self).well_formed(),
    {
        self.vec.clear()
    }

    /// Removes consecutive equal elements, keeping the first of each run.
    pub fn dedup(&mut self)
        requires
            lawful::<T>(),
            old(self).well_formed(),
        ensures
            final(self)@ == dedup_spec(old(self)@),
            final(self).well_formed(),
    {
        proof {
            lemma_ordered_dedup(self.vec@, false);
        }
        dedup_vec(&mut self.vec);
    }

    /// Removes the elements in `range` and hands them out in order; the rest
    /// close the gap. The removal happens at once, whether or not the
    /// iterator is used up. A range that does not lie within the vector
    /// removes nothing.
    pub fn drain<R: RangeBounds<usize>>(&mut self, range: R) -> (r: std::vec::IntoIter<T>)
        requires
            old(self).well_formed(),
        ensures
            final(self).well_formed(),
            exists|a: int, b: int|
                {
                    &&& 0 <= a <= b <= old(self)@.len()
                    &&& into_iter_elts(r) == old(self)@.subrange(a, b)
                    &&& final(self)@ == old(self)@.subrange(0, a) + old(self)@.subrange(b, old(self)@.len() as int)
                },
    {
        let start = start_edge(&range);
        let end = end_edge(&range);
        let ghost s = self.vec@;
        let removed = match resolve(start, end, self.vec.len()) {
            Some((a, b)) => {
                proof {
                    lemma_ordered_cut(s, a as int, b as int, false);
                }
                cut(&mut self.vec, a, b)
            },
            None => {
                assert(s == s.subrange(0, 0) + s.subrange(0, s.len() as int));
                Vec::new()
            },
        };
        removed.into_iter()
    }

    /// Gives up the backing vector, in its order.
    pub fn into_vec(self) -> (r: Vec<T>)
        ensures
            r@ == self@,
    {
        self.vec
    }

    /// Hands the backing vector to `f`, which may change it in any way as
    /// long as any two elements it leaves compare, then sorts it again with
    /// an unstable sort; returns what `f` returned.
    pub fn mutate_vec<F, O>(&mut self, f: F) -> (r: O)
        where
            F: FnOnce(&mut Vec<T>) -> O,
        requires
            lawful::<T>(),
            forall|v: &mut Vec<T>| #[trigger] f.requires((v,)),
            forall|v: &mut Vec<T>, o: O| #[trigger] f.ensures((v,), o) ==> all_comparable(final(v)@),
        ensures
            final(self).well_formed(),
            exists|v: &mut Vec<T>|
                {
                    &&& (*v)@ == old(self)@
                    &&& #[trigger] f.ensures((v,), r)
                    &&& final(self)@.to_multiset() == final(v)@.to_multiset()
                },
    {
        let r = f(&mut self.vec);
        arrange(&mut self.vec, false);
        r
    }

    /// Inserts every element that `iter` yields, one after the other; any
    /// two of them, and each with every element already here, must compare.
    pub fn extend(&mut self, iter: std::vec::IntoIter<T>)
        requires
            lawful::<T>(),
            old(self).well_formed(),
            all_comparable(old(self)@ + into_iter_elts(iter)),
            iter.initial_value_relation(&iter),
            iter.decrease() is Some,
        ensures
            final(self).well_formed(),
            final(self)@.to_multiset() == old(self)@.to_multiset().add(into_iter_elts(iter).to_multiset()),
    {
        absorb(&mut self.vec, iter, false)
    }
}

impl<T: PartialOrd> core::ops::Deref for SortedVec<T> {
    type Target = Vec<T>;

    /// Read-only access to the backing vector.
    fn deref(&self) -> (r: &Vec<T>)
        ensures
            r@ == self@,
    {
        &self.vec
    }
}

impl<T: PartialOrd> Default for SortedVec<T> {
    fn default() -> (r: Self)
        ensures
            r@ == Seq::<T>::empty(),
    {
        Self::new()
    }
}

/// Reverse sorted vector: elements run from greatest to least.
#[derive(Clone, Debug, PartialEq, PartialOrd, Hash)]
pub struct ReverseSortedVec<T: PartialOrd> {
    vec: Vec<T>,
}

impl<T: PartialOrd> View for ReverseSortedVec<T> {
    type V = Seq<T>;

    closed spec fn view(&self) -> Seq<T> {
        self.vec@
    }
}

impl<T: PartialOrd> ReverseSortedVec<T> {
    /// The order that every operation keeps: descending.
    pub open spec fn well_formed(&self) -> bool {
        ordered(self@, true)
    }

    /// An empty vector.
    pub fn new() -> (r: Self)
        ensures
            r@ == Seq::<T>::empty(),
            r.well_formed(),
    {
        ReverseSortedVec { vec: Vec::new() }
    }

    /// An empty vector with room for `capacity` elements.
    pub fn with_capacity(capacity: usize) -> (r: Self)
        ensures
            r@ == Seq::<T>::empty(),
            r.well_formed(),
    {
        ReverseSortedVec { vec: Vec::with_capacity(capacity) }
    }

    /// Sorts `vec` descending with an unstable sort and takes it over; any
    /// two of its elements must compare.
    pub fn from_unsorted(vec: Vec<T>) -> (r: Self)
        requires
            lawful::<T>(),
            all_comparable(vec@),
        ensures
            r.well_formed(),
            r@.to_multiset() == vec@.to_multiset(),
    {
        let mut vec = vec;
        arrange(&mut vec, true);
        ReverseSortedVec { vec }
    }

    /// Inserts `element` at its place and returns that index; next to equal
    /// elements, it goes just before the last of them.
    pub fn insert(&mut self, element: T) -> (r: usize)
        requires
            lawful::<T>(),
            old(self).well_formed(),
            comparable_to(old(self)@, element),
        ensures
            r <= old(self)@.len(),
            final(self)@ == old(self)@.insert(r as int, element),
            holds_equal(old(self)@, element) ==> search_spec(old(self)@, element, true, Ok(r)),
            !holds_equal(old(self)@, element) ==> search_spec(old(self)@, element, true, Err(r)),
            forall|j: int| 0 <= j < r ==> before(#[trigger] old(self)@[j], element, true),
            forall|j: int| r <= j < old(self)@.len() ==> before(element, #[trigger] old(self)@[j], true),
            final(self).well_formed(),
    {
        place(&mut self.vec, element, true)
    }

    /// Looks for an element equal to `element`: `Ok` with the index of the
    /// last such, the vector left as it was; otherwise inserts `element` and
    /// reports `Err` with its index.
    pub fn find_or_insert(&mut self, element: T) -> (r: Result<usize, usize>)
        requires
            lawful::<T>(),
            old(self).well_formed(),
            comparable_to(old(self)@, element),
        ensures
            final(self).well_formed(),
            r is Ok <==> holds_equal(old(self)@, element),
            match r {
                Ok(i) => search_spec(old(self)@, element, true, r) && final(self)@ == old(self)@,
                Err(i) => i <= old(self)@.len() && final(self)@ == old(self)@.insert(i as int, element),
            },
    {
        find_or_place(&mut self.vec, element, true)
    }

    /// Removes the last element equal to `item` and returns it, or `None` if
    /// there is none.
    pub fn remove_item(&mut self, item: &T) -> (r: Option<T>)
        requires
            lawful::<T>(),
            old(self).well_formed(),
            comparable_to(old(self)@, *item),
        ensures
            final(self).well_formed(),
            r is Some <==> holds_equal(old(self)@, *item),
            match r {
                Some(e) => exists|i: int|
                    {
                        &&& search_spec(old(self)@, *item, true, Ok(i as usize))
                        &&& 0 <= i < old(self)@.len()
                        &&& e == old(self)@[i]
                        &&& final(self)@ == old(self)@.remove(i)
                    },
                None => final(self)@ == old(self)@,
            },
    {
        remove_equal(&mut self.vec, item, true)
    }

    /// Removes and returns the element at `index`, which must be in bounds.
    pub fn remove_index(&mut self, index: usize) -> (r: T)
        requires
            old(self).well_formed(),
            index < old(self)@.len(),
        ensures
            final(self).well_formed(),
            r == old(self)@[index as int],
            final(self)@ == old(self)@.remove(index as int),
    {
        proof {
            lemma_ordered_remove(self.vec@, index as int, true);
        }
        self.vec.remove(index)
    }

    /// Halving search for `x`; among several equal elements it finds the
    /// last.
    pub fn binary_search(&self, x: &T) -> (r: Result<usize, usize>)
        requires
            lawful::<T>(),
            self.well_formed(),
            comparable_to(self@, *x),
        ensures
            search_spec(self@, *x, true, r),
    {
        locate(&self.vec, x, true)
    }

    /// Removes and returns the last element, or `None` if empty.
    pub fn pop(&mut self) -> (r: Option<T>)
        requires
            old(self).well_formed(),
        ensures
            final(self).well_formed(),
            old(self)@.len() == 0 ==> r is None && final(self)@ == old(self)@,
            old(self)@.len() > 0 ==> r == Some(old(self)@.last()) && final(self)@ == old(self)@.drop_last(),
    {
        proof {
            if self.vec@.len() > 0 {
                lemma_ordered_remove(self.vec@, self.vec@.len() - 1, true);
                assert(self.vec@.remove(self.vec@.len() - 1) == self.vec@.drop_last());
            }
        }
        self.vec.pop()
    }

    /// Removes every element.
    pub fn clear(&mut self)
        ensures
            final(self)@ == Seq::<T>::empty(),
            final(self).well_formed(),
    {
        self.vec.clear()
    }

    /// Removes consecutive equal elements, keeping the first of each run.
    pub fn dedup(&mut self)
        requires
            lawful::<T>(),
            old(self).well_formed(),
        ensures
            final(self)@ == dedup_spec(old(self)@),
            final(self).well_formed(),
    {
        proof {
            lemma_ordered_dedup(self.vec@, true);
        }
        dedup_vec(&mut self.vec);
    }

    /// Removes the elements in `range` and hands them out in order; the rest
    /// close the gap. The removal happens at once, whether or not the
    /// iterator is used up. A range that does not lie within the vector
    /// removes nothing.
    pub fn drain<R: RangeBounds<usize>>(&mut self, range: R) -> (r: std::vec::IntoIter<T>)
        requires
            old(self).well_formed(),
        ensures
            final(self).well_formed(),
            exists|a: int, b: int|
                {
                    &&& 0 <= a <= b <= old(self)@.len()
                    &&& into_iter_elts(r) == old(self)@.subrange(a, b)
                    &&& final(self)@ == old(self)@.subrange(0, a) + old(self)@.subrange(b, old(self)@.len() as int)
                },
    {
        let start = start_edge(&range);
        let end = end_edge(&range);
        let ghost s = self.vec@;
        let removed = match resolve(start, end, self.vec.len()) {
            Some((a, b)) => {
                proof {
                    lemma_ordered_cut(s, a as int, b as int, true);
                }
                cut(&mut self.vec, a, b)
            },
            None => {
                assert(s == s.subrange(0, 0) + s.subrange(0, s.len() as int));
                Vec::new()
            },
        };
        removed.into_iter()
    }

    /// Gives up the backing vector, in its order.
    pub fn into_vec(self) -> (r: Vec<T>)
        ensures
            r@ == self@,
    {
        self.vec
    }

    /// Hands the backing vector to `f`, which may change it in any way as
    /// long as any two elements it leaves compare, then sorts it again with
    /// an unstable sort; returns what `f` returned.
    pub fn mutate_vec<F, O>(&mut self, f: F) -> (r: O)
        where
            F: FnOnce(&mut Vec<T>) -> O,
        requires
            lawful::<T>(),
            forall|v: &mut Vec<T>| #[trigger] f.requires((v,)),
            forall|v: &mut Vec<T>, o: O| #[trigger] f.ensures((v,), o) ==> all_comparable(final(v)@),
        ensures
            final(self).well_formed(),
            exists|v: &mut Vec<T>|
                {
                    &&& (*v)@ == old(self)@
                    &&& #[trigger] f.ensures((v,), r)
                    &&& final(self)@.to_multiset() == final(v)@.to_multiset()
                },
    {
        let r = f(&mut self.vec);
        arrange(&mut self.vec, true);
        r
    }

    /// Inserts every element that `iter` yields, one after the other; any
    /// two of them, and each with every element already here, must compare.
    pub fn extend(&mut self, iter: std::vec::IntoIter<T>)
        requires
            lawful::<T>(),
            old(self).well_formed(),
            all_comparable(old(self)@ + into_iter_elts(iter)),
            iter.initial_value_relation(&iter),
            iter.decrease() is Some,
        ensures
            final(self).well_formed(),
            final(self)@.to_multiset() == old(self)@.to_multiset().add(into_iter_elts(iter).to_multiset()),
    {
        absorb(&mut self.vec, iter, true)
    }
}

impl<T: PartialOrd> core::ops::Deref for ReverseSortedVec<T> {
    type Target = Vec<T>;

    /// Read-only access to the backing vector.
    fn deref(&self) -> (r: &Vec<T>)
        ensures
            r@ == self@,
    {
        &self.vec
    }
}

impl<T: PartialOrd> Default for ReverseSortedVec<T> {
    fn default() -> (r: Self)
        ensures
            r@ == Seq::<T>::empty(),
    {
        Self::new()
    }
}

} // verus!
