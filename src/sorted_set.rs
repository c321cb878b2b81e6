//! A vector kept in increasing order: no two elements compare equal.
use vstd::prelude::*;
use vstd::laws_cmp::obeys_cmp;
use vstd::std_specs::cmp::OrdSpec;
use vstd::std_specs::iter::IteratorSpec;
use vstd::std_specs::vec::into_iter_elts;
use core::ops::RangeBounds;
use crate::FindOrInsert;
use crate::dedup::dedup_spec;
use crate::order::{
    equiv, equiv_is_identity, holds_equiv, le, le_rel, lemma_cmp_laws, lemma_dedup_of_sort,
    lemma_strict_is_sorted, lt, sorted, strictly_sorted,
};
use crate::select::{lemma_select_sorted, select};
use crate::sorted_vec::SortedVec;

verus! {

/// Forward sorted set: its elements run from least to greatest, and no two
/// of them compare equal.
#[derive(Clone, Debug, PartialEq, Eq, PartialOrd, Ord, Hash)]
pub struct SortedSet<T: Ord> {
    set: SortedVec<T>,
}

impl<T: Ord> View for SortedSet<T> {
    type V = Seq<T>;

    closed spec fn view(&self) -> Seq<T> {
        self.set@
    }
}

/// Removing items from an increasing sequence leaves it increasing.
proof fn lemma_remove_strict<T: Ord>(s: Seq<T>, i: int)
    requires
        strictly_sorted(s),
        0 <= i < s.len(),
    ensures
        strictly_sorted(s.remove(i)),
{
    let t = s.remove(i);
    assert forall|a: int, b: int| 0 <= a < b < t.len() implies lt(#[trigger] t[a], #[trigger] t[b]) by {
        if a < i && b >= i {
            assert(lt(s[a], s[b + 1]));
        } else if b < i {
            assert(lt(s[a], s[b]));
        } else {
            assert(lt(s[a + 1], s[b + 1]));
        }
    }
}

/// A sorted sequence in which no two items compare equal is increasing.
proof fn lemma_sorted_distinct<T: Ord>(t: Seq<T>)
    requires
        obeys_cmp::<T>(),
        sorted(t),
        forall|a: int, b: int| 0 <= a < b < t.len() ==> !equiv(#[trigger] t[a], #[trigger] t[b]),
    ensures
        strictly_sorted(t),
{
    assert forall|a: int, b: int| 0 <= a < b < t.len() implies lt(#[trigger] t[a], #[trigger] t[b]) by {
        assert(le(t[a], t[b]));
        assert(!equiv(t[a], t[b]));
    }
}

/// Inserting and then finding the same value: once `x` stands at index `i`
/// of an increasing sequence, an element equal to `x` is held there and at
/// no other index. So after `insert` or `find_or_insert` has put `x` at `i`,
/// a second `find_or_insert(x)` reports `Found(i)` and keeps the length.
pub proof fn lemma_found_where_inserted<T: Ord>(s: Seq<T>, x: T, i: int)
    requires
        obeys_cmp::<T>(),
        0 <= i <= s.len(),
        strictly_sorted(s.insert(i, x)),
    ensures
        holds_equiv(s.insert(i, x), x),
        forall|j: int|
            0 <= j < s.len() + 1 && equiv(#[trigger] s.insert(i, x)[j], x) ==> j == i,
{
    lemma_cmp_laws::<T>();
    let t = s.insert(i, x);
    assert(equiv(t[i], x));
    assert forall|j: int| 0 <= j < s.len() + 1 && equiv(#[trigger] t[j], x) implies j == i by {
        if j < i {
            assert(lt(t[j], t[i]));
        } else if j > i {
            assert(lt(t[i], t[j]));
        }
    }
}

/// After the set's `insert` of `t`, landing at `r`, whatever compared equal
/// to an element before compares equal to an element after: an element goes
/// only when `t` equal to it comes in.
proof fn lemma_insert_keeps_equiv<T: Ord>(s: Seq<T>, f: Seq<T>, r: int, t: T, y: T)
    requires
        obeys_cmp::<T>(),
        0 <= r < f.len(),
        r <= s.len(),
        f[r] == t,
        holds_equiv(s, t) ==> exists|i: int|
            {
                &&& 0 <= i < s.len()
                &&& equiv(s[i], t)
                &&& r < s.len()
                &&& f == s.remove(i).insert(r, t)
            },
        !holds_equiv(s, t) ==> f == s.insert(r, t),
        holds_equiv(s, y),
    ensures
        holds_equiv(f, y),
{
    lemma_cmp_laws::<T>();
    let j = choose|j: int| 0 <= j < s.len() && equiv(#[trigger] s[j], y);
    if holds_equiv(s, t) {
        let i0 = choose|i0: int|
            {
                &&& 0 <= i0 < s.len()
                &&& equiv(s[i0], t)
                &&& r < s.len()
                &&& f == s.remove(i0).insert(r, t)
            };
        if j == i0 {
            assert(equiv(f[r], y));
        } else {
            let m = s.remove(i0);
            let j1 = if j < i0 { j } else { j - 1 };
            assert(m[j1] == s[j]);
            let j2 = if j1 < r { j1 } else { j1 + 1 };
            assert(m.insert(r, t)[j2] == m[j1]);
            assert(f[j2] == s[j]);
        }
    } else {
        let j2 = if j < r { j } else { j + 1 };
        assert(s.insert(r, t)[j2] == s[j]);
        assert(f[j2] == s[j]);
    }
}

impl<T: Ord> SortedSet<T> {
    /// The order that every operation keeps: increasing.
    pub open spec fn well_formed(&self) -> bool {
        strictly_sorted(self@)
    }

    /// An empty set.
    pub fn new() -> (r: Self)
        ensures
            r@ == Seq::<T>::empty(),
            r.well_formed(),
    {
        SortedSet { set: SortedVec::new() }
    }

    /// An empty set with room for `capacity` elements.
    pub fn with_capacity(capacity: usize) -> (r: Self)
        ensures
            r@ == Seq::<T>::empty(),
            r.well_formed(),
    {
        SortedSet { set: SortedVec::with_capacity(capacity) }
    }

    /// Sorts `vec` with an unstable sort, then drops repeats: the result is
    /// the deduplication of some sorted arrangement of `vec`.
    pub fn from_unsorted(vec: Vec<T>) -> (r: Self)
        requires
            obeys_cmp::<T>(),
        ensures
            r.well_formed(),
            exists|p: Seq<T>|
                {
                    &&& sorted(p)
                    &&& p.to_multiset() == vec@.to_multiset()
                    &&& r@ == dedup_spec(p)
                },
            equiv_is_identity::<T>() ==> r@ == dedup_spec(vec@.sort_by(le_rel::<T>())),
    {
        let ghost input = vec@;
        let mut set = SortedVec::from_unsorted(vec);
        let ghost p = set@;
        set.dedup();
        proof {
            if equiv_is_identity::<T>() {
                lemma_dedup_of_sort(input, p, set@);
            }
        }
        SortedSet { set }
    }

    /// Takes over `vec` as it stands if it is already increasing, and
    /// refuses it otherwise: the check that reading a stored set back must
    /// pass.
    pub fn from_sorted(vec: Vec<T>) -> (r: Option<Self>)
        requires
            obeys_cmp::<T>(),
        ensures
            r is Some <==> strictly_sorted(vec@),
            match r {
                Some(set) => set@ == vec@ && set.well_formed(),
                None => true,
            },
    {
        proof {
            lemma_cmp_laws::<T>();
        }
        let n = vec.len();
        let mut i: usize = 1;
        while i < n
            invariant
                obeys_cmp::<T>(),
                n == vec@.len(),
                1 <= i,
                n > 0 ==> i <= n,
                forall|a: int, b: int| 0 <= a < b < i && b < n ==> lt(#[trigger] vec@[a], #[trigger] vec@[b]),
            decreases n - i,
        {
            proof {
                lemma_cmp_laws::<T>();
            }
            let o = vec[i - 1].cmp(&vec[i]);
            match o {
                core::cmp::Ordering::Less => {},
                _ => {
                    proof {
                        assert(!lt(vec@[i - 1], vec@[i as int]));
                    }
                    return None;
                },
            }
            proof {
                assert forall|a: int, b: int| 0 <= a < b < i + 1 && b < n implies lt(#[trigger] vec@[a], #[trigger] vec@[b]) by {
                    if b == i && a < i - 1 {
                        assert(lt(vec@[a], vec@[i - 1]));
                    }
                }
            }
            i = i + 1;
        }
        proof {
            lemma_strict_is_sorted(vec@);
        }
        match SortedVec::from_sorted(vec) {
            Some(set) => Some(SortedSet { set }),
            None => None,
        }
    }

    /// Halving search for `x`, as in `SortedVec::binary_search`.
    pub fn binary_search(&self, x: &T) -> (r: Result<usize, usize>)
        requires
            obeys_cmp::<T>(),
            self.well_formed(),
        ensures
            crate::search_spec(self@, *x, r),
    {
        proof {
            lemma_strict_is_sorted(self.set@);
        }
        self.set.binary_search(x)
    }

    /// Inserts `element` at its sorted place and returns that index. An
    /// element equal to it is removed first, so the new one takes its place.
    pub fn insert(&mut self, element: T) -> (r: usize)
        requires
            obeys_cmp::<T>(),
            old(self).well_formed(),
        ensures
            final(self).well_formed(),
            r < final(self)@.len(),
            r <= old(self)@.len(),
            final(self)@[r as int] == element,
            final(self)@.len() == old(self)@.len() + if holds_equiv(old(self)@, element) {
                0int
            } else {
                1int
            },
            holds_equiv(old(self)@, element) ==> exists|i: int|
                {
                    &&& 0 <= i < old(self)@.len()
                    &&& equiv(old(self)@[i], element)
                    &&& r < old(self)@.len()
                    &&& final(self)@ == old(self)@.remove(i).insert(r as int, element)
                },
            !holds_equiv(old(self)@, element) ==> final(self)@ == old(self)@.insert(
                r as int,
                element,
            ),
    {
        proof {
            lemma_cmp_laws::<T>();
            lemma_strict_is_sorted(self.set@);
        }
        let ghost s = self.set@;
        let removed = self.set.remove_item(&element);
        let ghost mid = self.set@;
        proof {
            if removed is Some {
                let i = choose|i: int|
                    {
                        &&& 0 <= i < s.len()
                        &&& equiv(s[i], element)
                        &&& removed == Some(s[i])
                        &&& mid == s.remove(i)
                    };
                lemma_remove_strict(s, i);
                assert forall|j: int| 0 <= j < mid.len() implies !equiv(#[trigger] mid[j], element) by {
                    if j < i {
                        assert(lt(s[j], s[i]));
                    } else {
                        assert(lt(s[i], s[j + 1]));
                    }
                }
            }
        }
        let r = self.set.insert(element);
        proof {
            let t = self.set@;
            assert forall|a: int, b: int| 0 <= a < b < t.len() implies !equiv(
                #[trigger] t[a],
                #[trigger] t[b],
            ) by {
                if a < r && b > r {
                    assert(lt(mid[a], mid[b - 1]));
                } else if b < r {
                    assert(lt(mid[a], mid[b]));
                } else if a > r {
                    assert(lt(mid[a - 1], mid[b - 1]));
                } else if a == r {
                    assert(!equiv(mid[b - 1], element));
                } else {
                    assert(!equiv(mid[a], element));
                }
            }
            lemma_sorted_distinct(t);
        }
        r
    }

    /// Looks for an element equal to `element`: `Found` with its index if
    /// there is one, the set left as it was; otherwise inserts `element`
    /// and reports `Inserted` with its index.
    pub fn find_or_insert(&mut self, element: T) -> (r: FindOrInsert)
        requires
            obeys_cmp::<T>(),
            old(self).well_formed(),
        ensures
            final(self).well_formed(),
            r is Found <==> holds_equiv(old(self)@, element),
            match r {
                FindOrInsert::Found(i) => {
                    &&& i < old(self)@.len()
                    &&& equiv(old(self)@[i as int], element)
                    &&& final(self)@ == old(self)@
                },
                FindOrInsert::Inserted(i) => {
                    &&& i <= old(self)@.len()
                    &&& final(self)@ == old(self)@.insert(i as int, element)
                },
            },
    {
        proof {
            lemma_cmp_laws::<T>();
            lemma_strict_is_sorted(self.set@);
        }
        let ghost s = self.set@;
        let r = self.set.find_or_insert(element);
        proof {
            if let FindOrInsert::Inserted(i) = r {
                let t = self.set@;
                assert forall|a: int, b: int| 0 <= a < b < t.len() implies !equiv(
                    #[trigger] t[a],
                    #[trigger] t[b],
                ) by {
                    if a < i && b > i {
                        assert(lt(s[a], s[b - 1]));
                    } else if b < i {
                        assert(lt(s[a], s[b]));
                    } else if a > i {
                        assert(lt(s[a - 1], s[b - 1]));
                    } else if a == i {
                        assert(!equiv(s[b - 1], element));
                    } else {
                        assert(!equiv(s[a], element));
                    }
                }
                lemma_sorted_distinct(t);
            }
        }
        r
    }

    /// Removes the element equal to `item` and returns it, or `None` if
    /// there is none.
    pub fn remove_item(&mut self, item: &T) -> (r: Option<T>)
        requires
            obeys_cmp::<T>(),
            old(self).well_formed(),
        ensures
            final(self).well_formed(),
            r is Some <==> holds_equiv(old(self)@, *item),
            match r {
                Some(e) => exists|i: int|
                    {
                        &&& 0 <= i < old(self)@.len()
                        &&& equiv(old(self)@[i], *item)
                        &&& e == old(self)@[i]
                        &&& final(self)@ == old(self)@.remove(i)
                    },
                None => final(self)@ == old(self)@,
            },
    {
        proof {
            lemma_strict_is_sorted(self.set@);
        }
        let ghost s = self.set@;
        let r = self.set.remove_item(item);
        proof {
            if r is Some {
                let i = choose|i: int|
                    {
                        &&& 0 <= i < s.len()
                        &&& equiv(s[i], *item)
                        &&& r->Some_0 == s[i]
                        &&& self.set@ == s.remove(i)
                    };
                lemma_remove_strict(s, i);
            }
        }
        r
    }

    /// Removes and returns the element at `index`, which must be in bounds.
    pub fn remove_index(&mut self, index: usize) -> (r: T)
        requires
            old(self).well_formed(),
            index < old(self)@.len(),
        ensures
            final(self).well_formed(),
            r == old(self)@[index as int],
            final(self)@ == old(self)@.remove(index as int),
    {
        proof {
            lemma_strict_is_sorted(self.set@);
            lemma_remove_strict(self.set@, index as int);
        }
        self.set.remove_index(index)
    }

    /// Removes and returns the last (greatest) element, or `None` if empty.
    pub fn pop(&mut self) -> (r: Option<T>)
        requires
            old(self).well_formed(),
        ensures
            final(self).well_formed(),
            old(self)@.len() == 0 ==> r is None && final(self)@ == old(self)@,
            old(self)@.len() > 0 ==> r == Some(old(self)@.last()) && final(self)@ == old(
                self,
            )@.drop_last(),
    {
        proof {
            lemma_strict_is_sorted(self.set@);
            if self.set@.len() > 0 {
                lemma_remove_strict(self.set@, self.set@.len() - 1);
                assert(self.set@.remove(self.set@.len() - 1) == self.set@.drop_last());
            }
        }
        self.set.pop()
    }

    /// Removes every element.
    pub fn clear(&mut self)
        ensures
            final(self)@ == Seq::<T>::empty(),
            final(self).well_formed(),
    {
        self.set.clear()
    }

    /// Removes the elements in `range` and hands them out in order, as
    /// `SortedVec::drain` does.
    pub fn drain<R: RangeBounds<usize>>(&mut self, range: R) -> (r: std::vec::IntoIter<T>)
        requires
            old(self).well_formed(),
        ensures
            final(self).well_formed(),
            exists|a: int, b: int|
                {
                    &&& 0 <= a <= b <= old(self)@.len()
                    &&& into_iter_elts(r) == old(self)@.subrange(a, b)
                    &&& final(self)@ == old(self)@.subrange(0, a) + old(self)@.subrange(
                        b,
                        old(self)@.len() as int,
                    )
                },
    {
        proof {
            lemma_strict_is_sorted(self.set@);
        }
        let ghost s = self.set@;
        let r = self.set.drain(range);
        proof {
            let (a, b) = choose|a: int, b: int|
                {
                    &&& 0 <= a <= b <= s.len()
                    &&& into_iter_elts(r) == s.subrange(a, b)
                    &&& self.set@ == s.subrange(0, a) + s.subrange(b, s.len() as int)
                };
            let t = self.set@;
            assert forall|i: int, j: int| 0 <= i < j < t.len() implies lt(
                #[trigger] t[i],
                #[trigger] t[j],
            ) by {
                if i < a && j >= a {
                    assert(t[j] == s[j + b - a]);
                    assert(lt(s[i], s[j + b - a]));
                } else if j < a {
                    assert(lt(s[i], s[j]));
                } else {
                    assert(t[i] == s[i + b - a]);
                    assert(t[j] == s[j + b - a]);
                    assert(lt(s[i + b - a], s[j + b - a]));
                }
            }
        }
        r
    }

    /// Keeps the elements for which `f` returns true, in their order.
    pub fn retain<F>(&mut self, f: F)
        where
            F: Fn(&T) -> bool,
        requires
            old(self).well_formed(),
            forall|x: &T| #[trigger] f.requires((x,)),
        ensures
            final(self).well_formed(),
            exists|keep: Seq<bool>|
                {
                    &&& keep.len() == old(self)@.len()
                    &&& forall|j: int|
                        0 <= j < keep.len() ==> #[trigger] f.ensures((&old(self)@[j],), keep[j])
                    &&& final(self)@ == select(old(self)@, keep)
                },
    {
        proof {
            lemma_strict_is_sorted(self.set@);
        }
        let ghost s = self.set@;
        self.set.retain(f);
        proof {
            let keep = choose|keep: Seq<bool>|
                {
                    &&& keep.len() == s.len()
                    &&& forall|j: int|
                        0 <= j < keep.len() ==> #[trigger] f.ensures((&s[j],), keep[j])
                    &&& self.set@ == select(s, keep)
                };
            lemma_select_sorted(s, keep);
        }
    }

    /// Inserts every element that `iter` yields, one after the other, each
    /// taking the place of an equal element already here.
    pub fn extend(&mut self, iter: std::vec::IntoIter<T>)
        requires
            obeys_cmp::<T>(),
            old(self).well_formed(),
            iter.initial_value_relation(&iter),
            iter.decrease() is Some,
        ensures
            final(self).well_formed(),
            final(self)@.len() <= old(self)@.len() + into_iter_elts(iter).len(),
            forall|k: int|
                0 <= k < old(self)@.len() ==> holds_equiv(final(self)@, #[trigger] old(self)@[k]),
            forall|k: int|
                0 <= k < into_iter_elts(iter).len() ==> holds_equiv(
                    final(self)@,
                    #[trigger] into_iter_elts(iter)[k],
                ),
    {
        let ghost all = into_iter_elts(iter);
        let ghost start = self@;
        proof {
            lemma_cmp_laws::<T>();
            assert forall|k: int| 0 <= k < start.len() implies holds_equiv(start, #[trigger] start[k]) by {
                let x = start[k];
                assert(x.cmp_spec(&x) == core::cmp::Ordering::Less <==> x.cmp_spec(&x)
                    == core::cmp::Ordering::Greater);
                assert(equiv(start[k], x));
            }
        }
        for t in it: iter
            invariant
                obeys_cmp::<T>(),
                self.well_formed(),
                it.seq() == all,
                self@.len() <= start.len() + it.index(),
                forall|k: int| 0 <= k < start.len() ==> holds_equiv(self@, #[trigger] start[k]),
                forall|k: int| 0 <= k < it.index() ==> holds_equiv(self@, #[trigger] all[k]),
        {
            let ghost i = it.index() as int;
            let ghost s = self@;
            let r = self.insert(t);
            proof {
                lemma_cmp_laws::<T>();
                assert(t == all[i]);
                assert(t.cmp_spec(&t) == core::cmp::Ordering::Less <==> t.cmp_spec(&t)
                    == core::cmp::Ordering::Greater);
                assert(equiv(self@[r as int], t));
                assert forall|k: int| 0 <= k < i + 1 implies holds_equiv(self@, #[trigger] all[k]) by {
                    if k == i {
                        assert(equiv(self@[r as int], all[k]));
                    } else {
                        lemma_insert_keeps_equiv(s, self@, r as int, t, all[k]);
                    }
                }
                assert forall|k: int| 0 <= k < start.len() implies holds_equiv(self@, #[trigger] start[k]) by {
                    lemma_insert_keeps_equiv(s, self@, r as int, t, start[k]);
                }
            }
        }
    }

    /// Gives up the backing vector, in its increasing order.
    pub fn into_vec(self) -> (r: Vec<T>)
        ensures
            r@ == self@,
    {
        self.set.into_vec()
    }

    /// Hands the backing vector to `f`, which may change it in any way, then
    /// sorts it again with an unstable sort and drops repeats; returns what
    /// `f` returned.
    pub fn mutate_vec<F, O>(&mut self, f: F) -> (r: O)
        where
            F: FnOnce(&mut Vec<T>) -> O,
        requires
            obeys_cmp::<T>(),
            forall|v: &mut Vec<T>| #[trigger] f.requires((v,)),
        ensures
            final(self).well_formed(),
            exists|v: &mut Vec<T>, p: Seq<T>|
                #![trigger f.ensures((v,), r), dedup_spec(p)]
                {
                    &&& (*v)@ == old(self)@
                    &&& f.ensures((v,), r)
                    &&& sorted(p)
                    &&& p.to_multiset() == final(v)@.to_multiset()
                    &&& final(self)@ == dedup_spec(p)
                },
    {
        let r = self.set.mutate_vec(f);
        self.set.dedup();
        r
    }
}

impl<T: Ord> core::ops::Deref for SortedSet<T> {
    type Target = SortedVec<T>;

    /// Read-only access to the backing sorted vector.
    fn deref(&self) -> (r: &SortedVec<T>)
        ensures
            r@ == self@,
    {
        &self.set
    }
}

impl<T: Ord> Default for SortedSet<T> {
    fn default() -> (r: Self)
        ensures
            r@ == Seq::<T>::empty(),
    {
        Self::new()
    }
}

impl<T: Ord> From<Vec<T>> for SortedSet<T> {
    /// Places the elements of `unsorted` one by one, then drops repeats; the
    /// result is increasing wherever the order is lawful.
    fn from(unsorted: Vec<T>) -> (r: Self)
        ensures
            obeys_cmp::<T>() ==> r.well_formed(),
            obeys_cmp::<T>() ==> exists|p: Seq<T>|
                {
                    &&& sorted(p)
                    &&& p.to_multiset() == unsorted@.to_multiset()
                    &&& r@ == dedup_spec(p)
                },
    {
        let mut set = SortedVec::from(unsorted);
        let ghost p = set@;
        set.squeeze();
        proof {
            if obeys_cmp::<T>() {
                lemma_cmp_laws::<T>();
                assert(sorted(p) && p.to_multiset() == unsorted@.to_multiset() && set@ == dedup_spec(p));
            }
        }
        SortedSet { set }
    }
}

impl<T: Ord> vstd::std_specs::convert::FromSpecImpl<Vec<T>> for SortedSet<T> {
    open spec fn obeys_from_spec() -> bool {
        false
    }

    closed spec fn from_spec(v: Vec<T>) -> Self {
        SortedSet { set: <SortedVec<T> as vstd::std_specs::convert::FromSpec<Vec<T>>>::from_spec(v) }
    }
}

} // verus!
