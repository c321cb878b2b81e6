//! Halving searches over a sequence that a probe splits into three runs:
//! the items that come before the target, those equal to it, and those
//! that come after it.
use vstd::prelude::*;
use core::cmp::Ordering;

verus! {

/// Position of an ordering in the run layout: before, equal, after.
pub open spec fn rank(o: Ordering) -> int {
    match o {
        Ordering::Less => 0,
        Ordering::Equal => 1,
        Ordering::Greater => 2,
    }
}

/// The probe results over `s` never step back: `Less` items first, then
/// `Equal` ones, then `Greater` ones.
pub open spec fn partitioned<T>(s: Seq<T>, key: spec_fn(T) -> Ordering) -> bool {
    forall|i: int, j: int|
        0 <= i <= j < s.len() ==> #[trigger] rank(key(s[i])) <= #[trigger] rank(key(s[j]))
}

/// What every search reports: `Ok(i)` names an equal item; `Err(i)` is the
/// one place where the target would keep the layout.
pub open spec fn search_answers<T>(
    s: Seq<T>,
    key: spec_fn(T) -> Ordering,
    r: Result<usize, usize>,
) -> bool {
    match r {
        Ok(i) => i < s.len() && key(s[i as int]) == Ordering::Equal,
        Err(i) => {
            &&& i <= s.len()
            &&& forall|j: int| 0 <= j < i ==> key(#[trigger] s[j]) == Ordering::Less
            &&& forall|j: int| i <= j < s.len() ==> key(#[trigger] s[j]) == Ordering::Greater
        },
    }
}

/// The probe may be called on every item.
pub open spec fn probe_callable<T, F: Fn(&T) -> Ordering>(s: Seq<T>, probe: F) -> bool {
    forall|i: int| 0 <= i < s.len() ==> probe.requires((&#[trigger] s[i],))
}

/// The probe reports `key` of every item, and those reports never step
/// back along `s`.
pub open spec fn probe_reports<T, F: Fn(&T) -> Ordering>(
    s: Seq<T>,
    probe: F,
    key: spec_fn(T) -> Ordering,
) -> bool {
    &&& forall|i: int, o: Ordering|
        0 <= i < s.len() && #[trigger] probe.ensures((&s[i],), o) ==> o == key(s[i])
    &&& partitioned(s, key)
}

/// Where the search ends, whatever the probe reports.
pub open spec fn in_bounds(len: nat, r: Result<usize, usize>) -> bool {
    match r {
        Ok(i) => i < len,
        Err(i) => i <= len,
    }
}

/// The answer of the halving search over the window `[left, right)` of `s`:
/// probe the middle item, stop there if it is equal, else go on in the half
/// that can still hold the target. Among several equal items, this fixes
/// which one is found.
pub open spec fn first_hit<T>(
    s: Seq<T>,
    key: spec_fn(T) -> Ordering,
    left: int,
    right: int,
) -> Result<usize, usize>
    decreases right - left,
{
    if 0 <= left < right <= s.len() {
        let mid = left + (right - left) / 2;
        match key(s[mid]) {
            Ordering::Less => first_hit(s, key, mid + 1, right),
            Ordering::Greater => first_hit(s, key, left, mid),
            Ordering::Equal => Ok(mid as usize),
        }
    } else {
        Err(left as usize)
    }
}

/// Probes the middle of the open window and stops at the first item found
/// equal; which of several equal items that is follows from the halving.
pub fn search_first_hit<T, F: Fn(&T) -> Ordering>(
    v: &Vec<T>,
    probe: F,
    Ghost(key): Ghost<spec_fn(T) -> Ordering>,
) -> (r: Result<usize, usize>)
    requires
        probe_callable(v@, probe),
    ensures
        in_bounds(v@.len(), r),
        probe_reports(v@, probe, key) ==> search_answers(v@, key, r),
        probe_reports(v@, probe, key) ==> r == first_hit(v@, key, 0, v@.len() as int),
{
    let mut size: usize = v.len();
    let mut left: usize = 0;
    let mut right: usize = size;
    while left < right
        invariant
            probe_callable(v@, probe),
            left <= right <= v.len(),
            size == right - left,
            probe_reports(v@, probe, key) ==> forall|j: int|
                0 <= j < left ==> key(#[trigger] v@[j]) == Ordering::Less,
            probe_reports(v@, probe, key) ==> forall|j: int|
                right <= j < v.len() ==> key(#[trigger] v@[j]) == Ordering::Greater,
            probe_reports(v@, probe, key) ==> first_hit(v@, key, left as int, right as int)
                == first_hit(v@, key, 0, v@.len() as int),
        decreases size,
    {
        let mid = left + size / 2;
        let cmp = probe(&v[mid]);
        proof {
            assert(probe.ensures((&v@[mid as int],), cmp));
        }
        match cmp {
            Ordering::Less => {
                proof {
                    assert forall|j: int|
                        probe_reports(v@, probe, key) && 0 <= j < mid + 1 implies key(
                        #[trigger] v@[j],
                    ) == Ordering::Less by {
                        assert(rank(key(v@[j])) <= rank(key(v@[mid as int])));
                    }
                }
                left = mid + 1;
            },
            Ordering::Greater => {
                proof {
                    assert forall|j: int|
                        probe_reports(v@, probe, key) && mid <= j < v.len() implies key(
                        #[trigger] v@[j],
                    ) == Ordering::Greater by {
                        assert(rank(key(v@[mid as int])) <= rank(key(v@[j])));
                    }
                }
                right = mid;
            },
            Ordering::Equal => {
                return Ok(mid);
            },
        }
        size = right - left;
    }
    Err(left)
}

/// Narrows the window down to the last item that does not come after the
/// target; among several equal items it therefore lands on the last one.
pub fn search_last_hit<T, F: Fn(&T) -> Ordering>(
    v: &Vec<T>,
    probe: F,
    Ghost(key): Ghost<spec_fn(T) -> Ordering>,
) -> (r: Result<usize, usize>)
    requires
        probe_callable(v@, probe),
    ensures
        in_bounds(v@.len(), r),
        probe_reports(v@, probe, key) ==> search_answers(v@, key, r),
        probe_reports(v@, probe, key) && r is Ok ==> forall|j: int|
            r->Ok_0 < j < v.len() ==> key(#[trigger] v@[j]) == Ordering::Greater,
{
    let mut size: usize = v.len();
    if size == 0 {
        return Err(0);
    }
    let mut base: usize = 0;
    while size > 1
        invariant
            probe_callable(v@, probe),
            size >= 1,
            base + size <= v.len(),
            probe_reports(v@, probe, key) ==> forall|j: int|
                0 <= j < base ==> key(#[trigger] v@[j]) != Ordering::Greater,
            probe_reports(v@, probe, key) ==> base == 0 || key(v@[base as int])
                != Ordering::Greater,
            probe_reports(v@, probe, key) ==> forall|j: int|
                base + size <= j < v.len() ==> key(#[trigger] v@[j]) == Ordering::Greater,
        decreases size,
    {
        let half = size / 2;
        let mid = base + half;
        let cmp = probe(&v[mid]);
        proof {
            assert(probe.ensures((&v@[mid as int],), cmp));
        }
        match cmp {
            Ordering::Greater => {
                proof {
                    assert forall|j: int|
                        probe_reports(v@, probe, key) && mid <= j < v.len() implies key(
                        #[trigger] v@[j],
                    ) == Ordering::Greater by {
                        assert(rank(key(v@[mid as int])) <= rank(key(v@[j])));
                    }
                }
            },
            _ => {
                proof {
                    assert forall|j: int|
                        probe_reports(v@, probe, key) && 0 <= j < mid + 1 implies key(
                        #[trigger] v@[j],
                    ) != Ordering::Greater by {
                        assert(rank(key(v@[j])) <= rank(key(v@[mid as int])));
                    }
                }
                base = mid;
            },
        }
        size = size - half;
    }
    let cmp = probe(&v[base]);
    proof {
        assert(probe.ensures((&v@[base as int],), cmp));
    }
    match cmp {
        Ordering::Equal => Ok(base),
        Ordering::Less => {
            proof {
                assert forall|j: int|
                    probe_reports(v@, probe, key) && 0 <= j < base + 1 implies key(
                    #[trigger] v@[j],
                ) == Ordering::Less by {
                    assert(rank(key(v@[j])) <= rank(key(v@[base as int])));
                }
            }
            Err(base + 1)
        },
        Ordering::Greater => {
            proof {
                assert forall|j: int|
                    probe_reports(v@, probe, key) && 0 <= j < v.len() implies key(
                    #[trigger] v@[j],
                ) == Ordering::Greater by {
                    assert(rank(key(v@[base as int])) <= rank(key(v@[j])));
                }
            }
            Err(base)
        },
    }
}

} // verus!
