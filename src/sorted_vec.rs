//! A vector kept in non-decreasing order; equal elements may repeat.
use vstd::prelude::*;
use vstd::laws_cmp::obeys_cmp;
use vstd::std_specs::cmp::{OrdSpec, PartialEqSpec};
use core::cmp::Ordering;
use crate::FindOrInsert;
use crate::dedup::{dedup_spec, dedup_vec, fresh_keys};
use crate::order::{
    cmp_key, equiv, equiv_is_identity, hit, hit_index, holds_equiv, le, le_rel, lemma_cmp_laws,
    lemma_dedup_sorted, lemma_sorted_is_the_sort, lemma_sorted_partitioned, lemma_strict_is_sorted,
    lt, reverse_sorted, sorted, strictly_sorted,
};
use crate::range::{end_edge, resolve, start_edge};
use crate::search::{in_bounds, search_first_hit};
use core::ops::RangeBounds;
use vstd::std_specs::iter::IteratorSpec;
use vstd::std_specs::vec::into_iter_elts;
use crate::select::{lemma_select_sorted, select};

verus! {

/// Forward sorted vector: its elements run from least to greatest.
#[derive(Clone, Debug, PartialEq, Eq, PartialOrd, Ord, Hash)]
pub struct SortedVec<T: Ord> {
    vec: Vec<T>,
}

/// Relies on `slice::sort_unstable`: afterwards the vector holds the same
/// elements, in non-decreasing order.
#[verifier::external_body]
fn sort_unstable<T: Ord>(v: &mut Vec<T>)
    requires
        obeys_cmp::<T>(),
    ensures
        final(v)@.to_multiset() == old(v)@.to_multiset(),
        sorted(final(v)@),
{
    v.sort_unstable()
}

/// What a search for `x` in the sorted `s` reports: `Ok(i)` names an element
/// equal to `x`; `Err(i)` is where `x` would go, after every smaller element
/// and before every greater one.
pub open spec fn search_spec<T: Ord>(s: Seq<T>, x: T, r: Result<usize, usize>) -> bool {
    match r {
        Ok(i) => i < s.len() && equiv(s[i as int], x),
        Err(i) => {
            &&& i <= s.len()
            &&& forall|j: int| 0 <= j < i ==> lt(#[trigger] s[j], x)
            &&& forall|j: int| i <= j < s.len() ==> lt(x, #[trigger] s[j])
        },
    }
}

/// Whether `vec` already runs from greatest to least under `T`'s own
/// order: the check that reading a stored reverse container back must
/// pass before its values are wrapped in `Reverse`.
pub fn is_reverse_sorted<T: Ord>(vec: &Vec<T>) -> (r: bool)
    requires
        obeys_cmp::<T>(),
    ensures
        r == reverse_sorted(vec@),
{
    proof {
        lemma_cmp_laws::<T>();
    }
    let n = vec.len();
    let mut i: usize = 1;
    while i < n
        invariant
            obeys_cmp::<T>(),
            n == vec@.len(),
            1 <= i,
            n > 0 ==> i <= n,
            forall|a: int, b: int| 0 <= a < b < i && b < n ==> le(#[trigger] vec@[b], #[trigger] vec@[a]),
        decreases n - i,
    {
        proof {
            lemma_cmp_laws::<T>();
        }
        let o = vec[i].cmp(&vec[i - 1]);
        if let Ordering::Greater = o {
            proof {
                assert(!le(vec@[i as int], vec@[i - 1]));
            }
            return false;
        }
        proof {
            assert forall|a: int, b: int| 0 <= a < b < i + 1 && b < n implies le(#[trigger] vec@[b], #[trigger] vec@[a]) by {
                if b == i && a < i - 1 {
                    assert(le(vec@[i - 1], vec@[a]));
                }
            }
        }
        i = i + 1;
    }
    true
}

impl<T: Ord> View for SortedVec<T> {
    type V = Seq<T>;

    closed spec fn view(&self) -> Seq<T> {
        self.vec@
    }
}

impl<T: Ord> SortedVec<T> {
    /// The order that every operation keeps: non-decreasing.
    pub open spec fn well_formed(&self) -> bool {
        sorted(self@)
    }

    /// An empty vector.
    pub fn new() -> (r: Self)
        ensures
            r@ == Seq::<T>::empty(),
            r.well_formed(),
    {
        SortedVec { vec: Vec::new() }
    }

    /// An empty vector with room for `capacity` elements.
    pub fn with_capacity(capacity: usize) -> (r: Self)
        ensures
            r@ == Seq::<T>::empty(),
            r.well_formed(),
    {
        SortedVec { vec: Vec::with_capacity(capacity) }
    }

    /// Sorts `vec` in place with an unstable sort and takes it over.
    pub fn from_unsorted(vec: Vec<T>) -> (r: Self)
        requires
            obeys_cmp::<T>(),
        ensures
            r.well_formed(),
            r@.to_multiset() == vec@.to_multiset(),
            equiv_is_identity::<T>() ==> r@ == vec@.sort_by(le_rel::<T>()),
    {
        let mut vec = vec;
        let ghost input = vec@;
        sort_unstable(&mut vec);
        proof {
            if equiv_is_identity::<T>() {
                lemma_sorted_is_the_sort(input, vec@);
            }
        }
        SortedVec { vec }
    }

    /// Takes over `vec` as it stands if it is already sorted, and refuses it
    /// otherwise: the check that reading a stored vector back must pass.
    pub fn from_sorted(vec: Vec<T>) -> (r: Option<Self>)
        requires
            obeys_cmp::<T>(),
        ensures
            r is Some <==> sorted(vec@),
            match r {
                Some(sv) => sv@ == vec@ && sv.well_formed(),
                None => true,
            },
    {
        proof {
            lemma_cmp_laws::<T>();
        }
        let n = vec.len();
        let mut i: usize = 1;
        while i < n
            invariant
                obeys_cmp::<T>(),
                n == vec@.len(),
                1 <= i,
                n > 0 ==> i <= n,
                forall|a: int, b: int| 0 <= a < b < i && b < n ==> le(#[trigger] vec@[a], #[trigger] vec@[b]),
            decreases n - i,
        {
            proof {
                lemma_cmp_laws::<T>();
            }
            let o = vec[i - 1].cmp(&vec[i]);
            if let Ordering::Greater = o {
                proof {
                    assert(!le(vec@[i - 1], vec@[i as int]));
                }
                return None;
            }
            proof {
                assert forall|a: int, b: int| 0 <= a < b < i + 1 && b < n implies le(#[trigger] vec@[a], #[trigger] vec@[b]) by {
                    if b == i && a < i - 1 {
                        assert(le(vec@[a], vec@[i - 1]));
                    }
                }
            }
            i = i + 1;
        }
        Some(SortedVec { vec })
    }

    /// Halving search that makes no demand on the order: it always ends
    /// within bounds, and answers as `binary_search` where the order is
    /// lawful and the vector sorted.
    fn locate(&self, x: &T) -> (r: Result<usize, usize>)
        ensures
            in_bounds(self@.len(), r),
            obeys_cmp::<T>() && self.well_formed() ==> search_spec(self@, *x, r),
            obeys_cmp::<T>() && self.well_formed() ==> r == hit(self@, *x),
    {
        proof {
            if obeys_cmp::<T>() && self.well_formed() {
                lemma_cmp_laws::<T>();
                lemma_sorted_partitioned(self.vec@, *x);
            }
        }
        let probe = |y: &T| -> (o: Ordering)
            ensures
                T::obeys_cmp_spec() ==> o == y.cmp_spec(x),
            { y.cmp(x) };
        search_first_hit(&self.vec, probe, Ghost(cmp_key(*x)))
    }

    /// Halving search for an element equal to `x`; among several equal
    /// elements, the one found is the first that the halving probes.
    pub fn binary_search(&self, x: &T) -> (r: Result<usize, usize>)
        requires
            obeys_cmp::<T>(),
            self.well_formed(),
        ensures
            search_spec(self@, *x, r),
            r == hit(self@, *x),
    {
        self.locate(x)
    }

    /// Inserts `element` where the search for it ends; that is its sorted
    /// place where the order is lawful and the vector sorted.
    fn place(&mut self, element: T) -> (r: usize)
        ensures
            r <= old(self)@.len(),
            final(self)@ == old(self)@.insert(r as int, element),
            obeys_cmp::<T>() && old(self).well_formed() ==> r == hit_index(old(self)@, element),
            obeys_cmp::<T>() && old(self).well_formed() ==> {
                &&& forall|j: int| 0 <= j < r ==> le(#[trigger] old(self)@[j], element)
                &&& forall|j: int|
                    r <= j < old(self)@.len() ==> le(element, #[trigger] old(self)@[j])
                &&& final(self).well_formed()
            },
    {
        let at = match self.locate(&element) {
            Ok(i) => i,
            Err(i) => i,
        };
        proof {
            if obeys_cmp::<T>() && self.well_formed() {
                lemma_cmp_laws::<T>();
                let s = self.vec@;
                assert forall|j: int| 0 <= j < at implies le(#[trigger] s[j], element) by {
                    if j < at && at < s.len() && equiv(s[at as int], element) {
                        assert(le(s[j], s[at as int]));
                    }
                }
                assert forall|j: int| at <= j < s.len() implies le(element, #[trigger] s[j]) by {
                    if equiv(s[at as int], element) && at < j {
                        assert(le(s[at as int], s[j]));
                    }
                }
                let t = s.insert(at as int, element);
                assert forall|i: int, j: int| 0 <= i < j < t.len() implies le(
                    #[trigger] t[i],
                    #[trigger] t[j],
                ) by {
                    if i < at && j > at {
                        assert(le(s[i], element));
                        assert(le(element, s[j - 1]));
                    } else if j < at {
                        assert(le(s[i], s[j]));
                    } else if i > at {
                        assert(le(s[i - 1], s[j - 1]));
                    }
                }
            }
        }
        self.vec.insert(at, element);
        at
    }

    /// Inserts `element` at its sorted place and returns that index; next
    /// to equal elements, it goes just before the one the search lands on.
    pub fn insert(&mut self, element: T) -> (r: usize)
        requires
            obeys_cmp::<T>(),
            old(self).well_formed(),
        ensures
            r == hit_index(old(self)@, element),
            r <= old(self)@.len(),
            final(self)@ == old(self)@.insert(r as int, element),
            forall|j: int| 0 <= j < r ==> le(#[trigger] old(self)@[j], element),
            forall|j: int| r <= j < old(self)@.len() ==> le(element, #[trigger] old(self)@[j]),
            final(self).well_formed(),
    {
        self.place(element)
    }

    /// Looks for an element equal to `element`: `Found` with its index if
    /// there is one, the vector left as it was; otherwise inserts `element`
    /// and reports `Inserted` with its index.
    pub fn find_or_insert(&mut self, element: T) -> (r: FindOrInsert)
        requires
            obeys_cmp::<T>(),
            old(self).well_formed(),
        ensures
            final(self).well_formed(),
            r is Found <==> holds_equiv(old(self)@, element),
            match r {
                FindOrInsert::Found(i) => hit(old(self)@, element) == Ok::<usize, usize>(i),
                FindOrInsert::Inserted(i) => hit(old(self)@, element) == Err::<usize, usize>(i),
            },
            match r {
                FindOrInsert::Found(i) => {
                    &&& i < old(self)@.len()
                    &&& equiv(old(self)@[i as int], element)
                    &&& final(self)@ == old(self)@
                },
                FindOrInsert::Inserted(i) => {
                    &&& i <= old(self)@.len()
                    &&& final(self)@ == old(self)@.insert(i as int, element)
                },
            },
    {
        proof {
            lemma_cmp_laws::<T>();
        }
        match self.binary_search(&element) {
            Ok(i) => FindOrInsert::Found(i),
            Err(i) => {
                proof {
                    let s = self.vec@;
                    assert forall|j: int| 0 <= j < s.len() implies !equiv(
                        #[trigger] s[j],
                        element,
                    ) by {
                        if j < i {
                            assert(lt(s[j], element));
                        } else {
                            assert(lt(element, s[j]));
                        }
                    }
                    let t = s.insert(i as int, element);
                    assert forall|a: int, b: int| 0 <= a < b < t.len() implies le(
                        #[trigger] t[a],
                        #[trigger] t[b],
                    ) by {
                        if a < i && b > i {
                            assert(lt(s[a], element));
                            assert(lt(element, s[b - 1]));
                        } else if b < i {
                            assert(le(s[a], s[b]));
                        } else if a > i {
                            assert(le(s[a - 1], s[b - 1]));
                        } else if a == i {
                            assert(lt(element, s[b - 1]));
                        } else {
                            assert(lt(s[a], element));
                        }
                    }
                }
                self.vec.insert(i, element);
                FindOrInsert::Inserted(i)
            },
        }
    }

    /// Removes an element equal to `item` and returns it, or `None` if
    /// there is none. Among several equal elements, the one removed is the
    /// one the search lands on.
    pub fn remove_item(&mut self, item: &T) -> (r: Option<T>)
        requires
            obeys_cmp::<T>(),
            old(self).well_formed(),
        ensures
            final(self).well_formed(),
            r is Some <==> holds_equiv(old(self)@, *item),
            match r {
                Some(e) => exists|i: int|
                    {
                        &&& hit(old(self)@, *item) == Ok::<usize, usize>(i as usize)
                        &&& 0 <= i < old(self)@.len()
                        &&& equiv(old(self)@[i], *item)
                        &&& e == old(self)@[i]
                        &&& final(self)@ == old(self)@.remove(i)
                    },
                None => final(self)@ == old(self)@,
            },
    {
        proof {
            lemma_cmp_laws::<T>();
        }
        match self.binary_search(item) {
            Ok(i) => {
                proof {
                    let s = self.vec@;
                    let t = s.remove(i as int);
                    assert forall|a: int, b: int| 0 <= a < b < t.len() implies le(
                        #[trigger] t[a],
                        #[trigger] t[b],
                    ) by {
                        if a < i && b >= i {
                            assert(le(s[a], s[b + 1]));
                        } else if b < i {
                            assert(le(s[a], s[b]));
                        } else {
                            assert(le(s[a + 1], s[b + 1]));
                        }
                    }
                }
                let e = self.vec.remove(i);
                Some(e)
            },
            Err(i) => {
                proof {
                    let s = self.vec@;
                    assert forall|j: int| 0 <= j < s.len() implies !equiv(
                        #[trigger] s[j],
                        *item,
                    ) by {
                        if j < i {
                            assert(lt(s[j], *item));
                        } else {
                            assert(lt(*item, s[j]));
                        }
                    }
                }
                None
            },
        }
    }

    /// Removes and returns the element at `index`, which must be in bounds.
    pub fn remove_index(&mut self, index: usize) -> (r: T)
        requires
            old(self).well_formed(),
            index < old(self)@.len(),
        ensures
            final(self).well_formed(),
            r == old(self)@[index as int],
            final(self)@ == old(self)@.remove(index as int),
    {
        proof {
            let s = self.vec@;
            let t = s.remove(index as int);
            assert forall|a: int, b: int| 0 <= a < b < t.len() implies le(
                #[trigger] t[a],
                #[trigger] t[b],
            ) by {
                if a < index && b >= index {
                    assert(le(s[a], s[b + 1]));
                } else if b < index {
                    assert(le(s[a], s[b]));
                } else {
                    assert(le(s[a + 1], s[b + 1]));
                }
            }
        }
        self.vec.remove(index)
    }

    /// Removes and returns the last (greatest) element, or `None` if empty.
    pub fn pop(&mut self) -> (r: Option<T>)
        requires
            old(self).well_formed(),
        ensures
            final(self).well_formed(),
            old(self)@.len() == 0 ==> r is None && final(self)@ == old(self)@,
            old(self)@.len() > 0 ==> r == Some(old(self)@.last()) && final(self)@ == old(
                self,
            )@.drop_last(),
    {
        proof {
            let s = self.vec@;
            assert forall|a: int, b: int| 0 <= a < b < s.len() - 1 implies le(
                #[trigger] s.drop_last()[a],
                #[trigger] s.drop_last()[b],
            ) by {
                assert(le(s[a], s[b]));
            }
        }
        self.vec.pop()
    }

    /// Removes every element.
    pub fn clear(&mut self)
        ensures
            final(self)@ == Seq::<T>::empty(),
            final(self).well_formed(),
    {
        self.vec.clear()
    }

    /// Drops every element equal to the last one kept before it. Where the
    /// order is lawful and the vector sorted, no two equal elements remain.
    pub(crate) fn squeeze(&mut self)
        ensures
            T::obeys_eq_spec() ==> final(self)@ == dedup_spec(old(self)@),
            obeys_cmp::<T>() && old(self).well_formed() ==> strictly_sorted(final(self)@),
            obeys_cmp::<T>() && old(self).well_formed() ==> final(self).well_formed(),
    {
        proof {
            if obeys_cmp::<T>() && self.well_formed() {
                lemma_cmp_laws::<T>();
                lemma_dedup_sorted(self.vec@);
                lemma_strict_is_sorted(dedup_spec(self.vec@));
            }
        }
        dedup_vec(&mut self.vec);
    }

    /// Removes consecutive equal elements, keeping the first of each run;
    /// since equal elements stand together, no two equal ones remain.
    pub fn dedup(&mut self)
        requires
            obeys_cmp::<T>(),
            old(self).well_formed(),
        ensures
            final(self)@ == dedup_spec(old(self)@),
            strictly_sorted(final(self)@),
            final(self).well_formed(),
    {
        proof {
            lemma_cmp_laws::<T>();
        }
        self.squeeze();
    }

    /// Gives up the backing vector, in its sorted order.
    pub fn into_vec(self) -> (r: Vec<T>)
        ensures
            r@ == self@,
    {
        self.vec
    }

    /// Hands the backing vector to `f`, which may change it in any way,
    /// then sorts it again with an unstable sort and returns what `f`
    /// returned.
    pub fn mutate_vec<F, O>(&mut self, f: F) -> (r: O)
        where
            F: FnOnce(&mut Vec<T>) -> O,
        requires
            obeys_cmp::<T>(),
            forall|v: &mut Vec<T>| #[trigger] f.requires((v,)),
        ensures
            final(self).well_formed(),
            exists|v: &mut Vec<T>|
                {
                    &&& (*v)@ == old(self)@
                    &&& #[trigger] f.ensures((v,), r)
                    &&& final(self)@.to_multiset() == final(v)@.to_multiset()
                },
    {
        let r = f(&mut self.vec);
        sort_unstable(&mut self.vec);
        r
    }

    /// Keeps the elements for which `f` returns true, in their order.
    pub fn retain<F>(&mut self, f: F)
        where
            F: Fn(&T) -> bool,
        requires
            old(self).well_formed(),
            forall|x: &T| #[trigger] f.requires((x,)),
        ensures
            final(self).well_formed(),
            exists|keep: Seq<bool>|
                {
                    &&& keep.len() == old(self)@.len()
                    &&& forall|j: int|
                        0 <= j < keep.len() ==> #[trigger] f.ensures((&old(self)@[j],), keep[j])
                    &&& final(self)@ == select(old(self)@, keep)
                },
    {
        let mut items: Vec<T> = Vec::new();
        core::mem::swap(&mut self.vec, &mut items);
        let ghost all = items@;
        let ghost mut keep: Seq<bool> = Seq::empty();
        for x in it: items.into_iter()
            invariant
                forall|x: &T| #[trigger] f.requires((x,)),
                it.seq() == all,
                keep.len() == it.index(),
                forall|j: int| 0 <= j < keep.len() ==> #[trigger] f.ensures((&all[j],), keep[j]),
                self.vec@ == select(all.take(it.index() as int), keep),
        {
            let ghost i = it.index() as int;
            let b = f(&x);
            proof {
                assert(x == all[i]);
                assert(all.take(i + 1).drop_last() == all.take(i));
                let prev = keep;
                keep = keep.push(b);
                assert(keep.take(i) == prev);
                assert(all.take(i + 1).len() == i + 1);
                assert(select(all.take(i + 1), keep) == if b {
                    select(all.take(i), prev).push(x)
                } else {
                    select(all.take(i), prev)
                });
            }
            if b {
                self.vec.push(x);
            }
        }
        proof {
            assert(all.take(all.len() as int) == all);
            lemma_select_sorted(all, keep);
        }
    }

    /// Removes consecutive elements whose keys compare equal, keeping the
    /// first of each run. The key is taken once of every element.
    pub fn dedup_by_key<F, K>(&mut self, key: F)
        where
            F: Fn(&T) -> K,
            K: PartialEq<K>,
        requires
            old(self).well_formed(),
            K::obeys_eq_spec(),
            forall|x: &T| #[trigger] key.requires((x,)),
        ensures
            final(self).well_formed(),
            exists|ks: Seq<K>|
                {
                    &&& ks.len() == old(self)@.len()
                    &&& forall|j: int|
                        0 <= j < ks.len() ==> #[trigger] key.ensures((&old(self)@[j],), ks[j])
                    &&& final(self)@ == select(old(self)@, fresh_keys(ks))
                },
    {
        let mut items: Vec<T> = Vec::new();
        core::mem::swap(&mut self.vec, &mut items);
        let ghost all = items@;
        let ghost mut ks: Seq<K> = Seq::empty();
        let mut last: Option<K> = None;
        for x in it: items.into_iter()
            invariant
                K::obeys_eq_spec(),
                forall|x: &T| #[trigger] key.requires((x,)),
                it.seq() == all,
                ks.len() == it.index(),
                forall|j: int| 0 <= j < ks.len() ==> #[trigger] key.ensures((&all[j],), ks[j]),
                self.vec@ == select(all.take(it.index() as int), fresh_keys(ks)),
                last is Some <==> dedup_spec(ks).len() > 0,
                last is Some ==> last->Some_0 == dedup_spec(ks).last(),
        {
            let ghost i = it.index() as int;
            let k = key(&x);
            let fresh = match &last {
                None => true,
                Some(lk) => !(*lk == k),
            };
            proof {
                assert(x == all[i]);
                assert(all.take(i + 1).drop_last() == all.take(i));
                let prev = ks;
                ks = ks.push(k);
                assert(ks.drop_last() == prev);
                assert(ks.take(i) == prev);
                assert forall|j: int| 0 <= j < i implies #[trigger] fresh_keys(ks)[j]
                    == fresh_keys(prev)[j] by {
                    assert(ks.take(j) == prev.take(j));
                }
                assert(fresh_keys(ks).take(i) =~= fresh_keys(prev));
                assert(fresh_keys(ks)[i] == fresh);
                assert(all.take(i + 1).len() == i + 1);
                assert(select(all.take(i + 1), fresh_keys(ks)) == if fresh {
                    select(all.take(i), fresh_keys(prev)).push(x)
                } else {
                    select(all.take(i), fresh_keys(prev))
                });
            }
            if fresh {
                self.vec.push(x);
                last = Some(k);
            }
        }
        proof {
            assert(all.take(all.len() as int) == all);
            lemma_select_sorted(all, fresh_keys(ks));
        }
    }

    /// Removes the elements at indices `start .. end` and returns them in
    /// order; the rest close the gap.
    pub fn drain_range(&mut self, start: usize, end: usize) -> (r: Vec<T>)
        requires
            old(self).well_formed(),
            start <= end <= old(self)@.len(),
        ensures
            final(self).well_formed(),
            r@ == old(self)@.subrange(start as int, end as int),
            final(self)@ == old(self)@.subrange(0, start as int) + old(self)@.subrange(
                end as int,
                old(self)@.len() as int,
            ),
    {
        let ghost s = self.vec@;
        let mut tail = self.vec.split_off(end);
        let middle = self.vec.split_off(start);
        self.vec.append(&mut tail);
        proof {
            let t = self.vec@;
            assert forall|a: int, b: int| 0 <= a < b < t.len() implies le(
                #[trigger] t[a],
                #[trigger] t[b],
            ) by {
                if a < start && b >= start {
                    assert(t[b] == s[b + end - start]);
                    assert(le(s[a], s[b + end - start]));
                } else if b < start {
                    assert(le(s[a], s[b]));
                } else {
                    assert(t[a] == s[a + end - start]);
                    assert(t[b] == s[b + end - start]);
                    assert(le(s[a + end - start], s[b + end - start]));
                }
            }
        }
        middle
    }

    /// Removes the elements in `range` and hands them out in order; the rest
    /// close the gap. The removal happens at once, whether or not the
    /// iterator is used up. A range that does not lie within the vector
    /// removes nothing.
    pub fn drain<R: RangeBounds<usize>>(&mut self, range: R) -> (r: std::vec::IntoIter<T>)
        requires
            old(self).well_formed(),
        ensures
            final(self).well_formed(),
            exists|a: int, b: int|
                {
                    &&& 0 <= a <= b <= old(self)@.len()
                    &&& into_iter_elts(r) == old(self)@.subrange(a, b)
                    &&& final(self)@ == old(self)@.subrange(0, a) + old(self)@.subrange(
                        b,
                        old(self)@.len() as int,
                    )
                },
    {
        let start = start_edge(&range);
        let end = end_edge(&range);
        let ghost s = self.vec@;
        let removed = match resolve(start, end, self.vec.len()) {
            Some((a, b)) => self.drain_range(a, b),
            None => {
                assert(s == s.subrange(0, 0) + s.subrange(0, s.len() as int));
                Vec::new()
            },
        };
        removed.into_iter()
    }

    /// Places every element that `iter` yields, one after the other.
    fn absorb(&mut self, iter: std::vec::IntoIter<T>)
        requires
            iter.initial_value_relation(&iter),
            iter.decrease() is Some,
        ensures
            final(self)@.to_multiset() == old(self)@.to_multiset().add(
                into_iter_elts(iter).to_multiset(),
            ),
            obeys_cmp::<T>() && old(self).well_formed() ==> final(self).well_formed(),
    {
        let ghost start = self@;
        let ghost lawful = obeys_cmp::<T>() && self.well_formed();
        let ghost all = into_iter_elts(iter);
        proof {
            all.take(0).to_multiset_ensures();
            assert(start.to_multiset().add(all.take(0).to_multiset()) =~= start.to_multiset());
        }
        for t in it: iter
            invariant
                lawful == (obeys_cmp::<T>() && sorted(start)),
                lawful ==> self.well_formed(),
                it.seq() == all,
                self@.to_multiset() == start.to_multiset().add(
                    all.take(it.index() as int).to_multiset(),
                ),
        {
            let ghost i = it.index() as int;
            let ghost before = self@;
            let at = self.place(t);
            proof {
                assert(t == all[i]);
                assert(all.take(i + 1) == all.take(i).push(t));
                assert(self@.remove(at as int) == before);
                assert(self@[at as int] == t);
                assert(self@.contains(t));
                self@.to_multiset_ensures();
                all.take(i).to_multiset_ensures();
                assert(self@.remove(at as int).to_multiset() == before.to_multiset());
                assert(self@.to_multiset() =~= before.to_multiset().insert(t));
                assert(all.take(i).push(t).to_multiset() =~= all.take(i).to_multiset().insert(t));
                assert(start.to_multiset().add(all.take(i + 1).to_multiset()) =~= start.to_multiset().add(
                    all.take(i).to_multiset(),
                ).insert(t));
            }
        }
        proof {
            assert(all.take(all.len() as int) == all);
        }
    }

    /// Inserts every element that `iter` yields, one after the other.
    pub fn extend(&mut self, iter: std::vec::IntoIter<T>)
        requires
            obeys_cmp::<T>(),
            old(self).well_formed(),
            iter.initial_value_relation(&iter),
            iter.decrease() is Some,
        ensures
            final(self).well_formed(),
            final(self)@.to_multiset() == old(self)@.to_multiset().add(
                into_iter_elts(iter).to_multiset(),
            ),
    {
        self.absorb(iter)
    }
}

impl<T: Ord> core::ops::Deref for SortedVec<T> {
    type Target = Vec<T>;

    /// Read-only access to the backing vector.
    fn deref(&self) -> (r: &Vec<T>)
        ensures
            r@ == self@,
    {
        &self.vec
    }
}

impl<T: Ord> Default for SortedVec<T> {
    fn default() -> (r: Self)
        ensures
            r@ == Seq::<T>::empty(),
    {
        Self::new()
    }
}

impl<T: Ord> vstd::std_specs::convert::FromSpecImpl<Vec<T>> for SortedVec<T> {
    open spec fn obeys_from_spec() -> bool {
        false
    }

    closed spec fn from_spec(v: Vec<T>) -> Self {
        SortedVec { vec: v }
    }
}

impl<T: Ord> From<Vec<T>> for SortedVec<T> {
    /// Places the elements of `unsorted` one by one; the result is sorted
    /// wherever the order is lawful.
    fn from(unsorted: Vec<T>) -> (r: Self)
        ensures
            r@.to_multiset() == unsorted@.to_multiset(),
            obeys_cmp::<T>() ==> r.well_formed(),
    {
        let mut r = Self::new();
        proof {
            Seq::<T>::empty().to_multiset_ensures();
            assert(Seq::<T>::empty().to_multiset().add(unsorted@.to_multiset()) =~= unsorted@.to_multiset());
        }
        r.absorb(unsorted.into_iter());
        r
    }
}

} // verus!
