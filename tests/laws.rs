use sorted_vec::partial;
use sorted_vec::range::{resolve, Edge};
use sorted_vec::{is_reverse_sorted, FindOrInsert, ReverseSortedVec, SortedSet, SortedVec};
use std::cmp::Reverse;
use std::collections::hash_map::DefaultHasher;
use std::hash::{Hash, Hasher};

fn is_non_decreasing(v: &[i32]) -> bool {
    v.windows(2).all(|w| w[0] <= w[1])
}

fn is_increasing(v: &[i32]) -> bool {
    v.windows(2).all(|w| w[0] < w[1])
}

#[test]
fn order_kept_through_mixed_calls() {
    let mut v = SortedVec::new();
    for x in [7, -2, 7, 0, 13, -2, 4] {
        v.insert(x);
        assert!(is_non_decreasing(&v));
    }
    assert_eq!(v.remove_item(&7), Some(7));
    assert!(is_non_decreasing(&v));
    assert_eq!(v.remove_index(0), -2);
    assert!(is_non_decreasing(&v));
    v.dedup();
    assert!(is_increasing(&v));
    v.retain(|x| *x != 4);
    assert_eq!(*v, vec![-2, 0, 7, 13]);
}

#[test]
fn reverse_order_kept_through_mixed_calls() {
    let mut v = ReverseSortedVec::new();
    for x in [7, -2, 7, 0, 13] {
        v.insert(Reverse(x));
        let plain: Vec<i32> = v.iter().map(|r| r.0).collect();
        assert!(plain.windows(2).all(|w| w[0] >= w[1]));
    }
    assert_eq!(v.pop(), Some(Reverse(-2)));
    assert_eq!(v.into_vec(), vec![Reverse(13), Reverse(7), Reverse(7), Reverse(0)]);
}

#[test]
fn set_stays_increasing() {
    let mut s = SortedSet::new();
    for x in [3, 1, 3, 2, 1, 5] {
        s.insert(x);
        assert!(is_increasing(&s));
    }
    assert_eq!(s.remove_item(&2), Some(2));
    assert_eq!(s.remove_item(&2), None);
    s.retain(|x| *x > 1);
    assert_eq!(**s, vec![3, 5]);
}

#[test]
fn insert_index_splits_smaller_and_larger() {
    let mut v = SortedVec::from_unsorted(vec![1, 3, 3, 3, 8, 9]);
    let i = v.insert(3);
    assert!(v[..i].iter().all(|x| *x <= 3));
    assert!(v[i..].iter().all(|x| *x >= 3));
    assert_eq!(v[i], 3);
    let j = v.insert(5);
    assert_eq!(j, 5);
    assert_eq!(*v, vec![1, 3, 3, 3, 3, 5, 8, 9]);
}

#[test]
fn set_find_after_insert() {
    let mut s = SortedSet::from_unsorted(vec![10, 30]);
    let first = s.find_or_insert(20);
    assert_eq!(first, FindOrInsert::Inserted(1));
    let len = s.len();
    let second = s.find_or_insert(20);
    assert_eq!(second, FindOrInsert::Found(1));
    assert_eq!(s.len(), len);
}

#[test]
fn from_unsorted_reads_back_sorted() {
    let input = vec![4, -1, 9, 4, 0, -7, 9, 9];
    let mut expected = input.clone();
    expected.sort();
    assert_eq!(SortedVec::from_unsorted(input.clone()).into_vec(), expected);
    let mut unique = expected.clone();
    unique.dedup();
    assert_eq!(SortedSet::from_unsorted(input.clone()).into_vec(), unique);
    let reversed: Vec<Reverse<i32>> = input.iter().map(|x| Reverse(*x)).collect();
    let mut descending = expected.clone();
    descending.reverse();
    let got: Vec<i32> = ReverseSortedVec::from_unsorted(reversed)
        .into_vec()
        .into_iter()
        .map(|r| r.0)
        .collect();
    assert_eq!(got, descending);
}

#[test]
fn from_matches_from_unsorted() {
    let v: SortedVec<i32> = vec![3, 1, 2].into();
    assert_eq!(*v, vec![1, 2, 3]);
    let s: SortedSet<i32> = vec![3, 1, 3, 2].into();
    assert_eq!(**s, vec![1, 2, 3]);
}

#[test]
fn mutate_restores_order() {
    let mut v = SortedVec::from_unsorted(vec![1, 2, 3, 4]);
    let out = v.mutate_vec(|w| {
        w.push(0);
        w[1] = 10;
        w.len()
    });
    assert_eq!(out, 5);
    assert_eq!(*v, vec![0, 1, 3, 4, 10]);
    let mut s = SortedSet::from_unsorted(vec![1, 2, 3]);
    s.mutate_vec(|w| {
        w[0] = 3;
        w.push(2);
    });
    assert_eq!(**s, vec![2, 3]);
}

#[test]
fn scenario_insert_then_dedup() {
    let mut v = SortedVec::new();
    assert_eq!(v.insert(5), 0);
    assert_eq!(v.insert(3), 0);
    assert_eq!(v.insert(4), 1);
    assert_eq!(v.insert(4), 1);
    assert_eq!(v.len(), 4);
    v.dedup();
    assert_eq!(v.len(), 3);
    assert_eq!(*v, vec![3, 4, 5]);
}

#[test]
fn scenario_forward_and_reverse_from_unsorted() {
    let v = SortedVec::from_unsorted(vec![5, -10, 99, -11, 2, 17, 10]);
    assert_eq!(*v, vec![-11, -10, 2, 5, 10, 17, 99]);
    let r = partial::ReverseSortedVec::from_unsorted(vec![5, -10, 99, -11, 2, 17, 10]);
    assert_eq!(*r, vec![99, 17, 10, 5, 2, -10, -11]);
}

#[test]
fn scenario_set_found_keeps_length() {
    let mut s = SortedSet::new();
    assert_eq!(s.insert(5), 0);
    assert_eq!(s.insert(3), 0);
    assert_eq!(s.insert(4), 1);
    assert_eq!(s.insert(4), 1);
    assert_eq!(s.find_or_insert(4), FindOrInsert::Found(1));
    assert_eq!(s.len(), 3);
}

#[test]
fn scenario_stored_sequence_checked() {
    assert!(SortedVec::from_sorted(vec![-11, -10, 2, 5, 10, 17, 99]).is_some());
    assert!(SortedVec::from_sorted(vec![99, -11, -10, 2, 5, 10, 17]).is_none());
    assert!(SortedVec::from_sorted(Vec::<i32>::new()).is_some());
    assert!(SortedSet::from_sorted(vec![1, 2, 3]).is_some());
    assert!(SortedSet::from_sorted(vec![1, 2, 2]).is_none());
}

#[test]
fn reverse_check_uses_plain_order() {
    assert!(is_reverse_sorted(&vec![99, 17, 10, 5, 2, -10, -11]));
    assert!(is_reverse_sorted(&vec![3, 3, 1]));
    assert!(!is_reverse_sorted(&vec![99, -11, -10, 2, 5, 10, 17]));
    assert!(is_reverse_sorted(&Vec::<i32>::new()));
}

#[test]
fn set_from_matches_from_unsorted() {
    let input = vec![5, -10, 99, -10, -11, 10, 2, 17, 10];
    let a = SortedSet::from_unsorted(input.clone());
    let b: SortedSet<i32> = SortedSet::from(input);
    assert_eq!(a, b);
    assert_eq!(**b, vec![-11, -10, 2, 5, 10, 17, 99]);
}

#[test]
fn scenario_drain_all() {
    let mut v = SortedVec::from_unsorted(vec![-11, -10, 2, 5, 10, 17, 99]);
    let out: Vec<i32> = v.drain(..).collect();
    assert_eq!(out, vec![-11, -10, 2, 5, 10, 17, 99]);
    assert!(v.is_empty());
}

#[test]
fn drain_partial_ranges() {
    let mut v = SortedVec::from_unsorted(vec![1, 2, 3, 4, 5, 6]);
    let mid: Vec<i32> = v.drain(1..3).collect();
    assert_eq!(mid, vec![2, 3]);
    assert_eq!(*v, vec![1, 4, 5, 6]);
    let head: Vec<i32> = v.drain(..=1).collect();
    assert_eq!(head, vec![1, 4]);
    assert_eq!(*v, vec![5, 6]);
    let none: Vec<i32> = v.drain(1..9).collect();
    assert!(none.is_empty());
    assert_eq!(*v, vec![5, 6]);
    let tail: Vec<i32> = v.drain(1..).collect();
    assert_eq!(tail, vec![6]);
}

#[test]
fn resolve_edges() {
    assert_eq!(resolve(Edge::Unbounded, Edge::Unbounded, 4), Some((0, 4)));
    assert_eq!(resolve(Edge::Excluded(0), Edge::Included(2), 4), Some((1, 3)));
    assert_eq!(resolve(Edge::Included(3), Edge::Excluded(2), 4), None);
    assert_eq!(resolve(Edge::Included(0), Edge::Included(usize::MAX), 4), None);
    assert_eq!(resolve(Edge::Excluded(usize::MAX), Edge::Unbounded, 4), None);
}

#[test]
fn empty_and_missing() {
    let mut v: SortedVec<i32> = SortedVec::default();
    assert_eq!(v.pop(), None);
    assert_eq!(v.remove_item(&1), None);
    assert_eq!(v.binary_search(&1), Err(0));
    let mut w = SortedVec::with_capacity(8);
    w.insert(2);
    w.clear();
    assert!(w.is_empty());
    let mut s: SortedSet<i32> = SortedSet::with_capacity(2);
    assert_eq!(s.pop(), None);
    s.clear();
    assert_eq!(s.into_vec(), Vec::<i32>::new());
}

#[test]
fn search_reports_insertion_point() {
    let v = SortedVec::from_unsorted(vec![10, 20, 30]);
    assert_eq!(v.binary_search(&25), Err(2));
    assert_eq!(v.binary_search(&5), Err(0));
    assert_eq!(v.binary_search(&35), Err(3));
    assert_eq!(v.binary_search(&20), Ok(1));
}

#[test]
fn find_or_insert_variants() {
    let mut v = SortedVec::from_unsorted(vec![1, 5]);
    let r = v.find_or_insert(3);
    assert_eq!(r, FindOrInsert::Inserted(1));
    assert_eq!(r.inserted(), Some(1));
    assert_eq!(r.found(), None);
    assert!(r.is_inserted());
    assert!(!r.is_found());
    let f = v.find_or_insert(5);
    assert_eq!(f.found(), Some(2));
    assert_eq!(f.inserted(), None);
    assert!(f.is_found());
    let times_ten: fn(usize) -> usize = |i| i * 10;
    let plus_hundred: fn(usize) -> usize = |i| i + 100;
    assert_eq!(f.map(times_ten, plus_hundred), 20);
    assert_eq!(r.map(times_ten, plus_hundred), 101);
    assert_eq!(FindOrInsert::from(Ok::<usize, usize>(4)), FindOrInsert::Found(4));
    assert_eq!(FindOrInsert::from(Err::<usize, usize>(7)), FindOrInsert::Inserted(7));
}

#[test]
fn dedup_by_key_keeps_first_of_run() {
    let mut v = SortedVec::from_unsorted(vec![10, 11, 12, 20, 25, 31]);
    v.dedup_by_key(|x| *x / 10);
    assert_eq!(*v, vec![10, 20, 31]);
}

#[test]
fn set_insert_replaces_equal() {
    let mut s = SortedSet::from_unsorted(vec![1, 2, 3]);
    assert_eq!(s.insert(2), 1);
    assert_eq!(**s, vec![1, 2, 3]);
    let drained: Vec<i32> = s.drain(1..2).collect();
    assert_eq!(drained, vec![2]);
    assert_eq!(s.remove_index(0), 1);
    assert_eq!(**s, vec![3]);
}

#[test]
fn equal_containers_hash_alike() {
    let a = SortedVec::from_unsorted(vec![3, 1, 2]);
    let b: SortedVec<i32> = vec![2, 3, 1].into();
    let mut ha = DefaultHasher::new();
    let mut hb = DefaultHasher::new();
    a.hash(&mut ha);
    b.hash(&mut hb);
    assert_eq!(a, b);
    assert_eq!(ha.finish(), hb.finish());
}

#[test]
fn partial_remove_takes_last_equal() {
    let mut v = partial::SortedVec::from_unsorted(vec![(1, 0), (2, 0), (2, 1), (3, 0)]);
    assert_eq!(v.binary_search(&(2, 1)), Ok(2));
    assert_eq!(v.remove_item(&(2, 1)), Some((2, 1)));
    assert_eq!(v.remove_item(&(9, 9)), None);
    assert_eq!(v.pop(), Some((3, 0)));
    assert_eq!(v.remove_index(0), (1, 0));
    v.clear();
    assert!(v.is_empty());
}

#[test]
fn partial_reverse_ties_and_mutation() {
    let mut v = partial::ReverseSortedVec::from_unsorted(vec![4, 4, 4, 1, 9]);
    assert_eq!(*v, vec![9, 4, 4, 4, 1]);
    assert_eq!(v.binary_search(&4), Ok(3));
    assert_eq!(v.binary_search(&5), Err(1));
    assert_eq!(v.find_or_insert(0), Err(5));
    v.mutate_vec(|w| w[0] = -3);
    assert_eq!(v.into_vec(), vec![4, 4, 4, 1, 0, -3]);
}

#[test]
fn partial_floats() {
    let mut v = partial::SortedVec::with_capacity(4);
    v.extend(vec![2.5f64, -1.0, 0.5].into_iter());
    assert_eq!(*v, vec![-1.0, 0.5, 2.5]);
    assert_eq!(partial::partial_compare(&1.0f64, &2.0), std::cmp::Ordering::Less);
    let d: partial::ReverseSortedVec<f64> = partial::ReverseSortedVec::default();
    assert!(d.is_empty());
}
