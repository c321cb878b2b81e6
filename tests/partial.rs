use sorted_vec::partial::{ReverseSortedVec, SortedVec};

#[test]
fn partial_test_sorted_vec() {
    let mut v = SortedVec::new();
    assert_eq!(v.insert(5.0), 0);
    assert_eq!(v.insert(3.0), 0);
    assert_eq!(v.insert(4.0), 1);
    assert_eq!(v.insert(4.0), 1);
    assert_eq!(v.find_or_insert(4.0), Ok(2));
    assert_eq!(v.len(), 4);
    v.dedup();
    assert_eq!(v.len(), 3);
    assert_eq!(v.binary_search(&3.0), Ok(0));
    assert_eq!(
        *SortedVec::from_unsorted(vec![5.0, -10.0, 99.0, -11.0, 2.0, 17.0, 10.0]),
        vec![-11.0, -10.0, 2.0, 5.0, 10.0, 17.0, 99.0]
    );
    let mut v = SortedVec::new();
    v.extend(vec![5.0, -10.0, 99.0, -11.0, 2.0, 17.0, 10.0].into_iter());
    assert_eq!(
        v.drain(..).collect::<Vec<f32>>(),
        vec![-11.0, -10.0, 2.0, 5.0, 10.0, 17.0, 99.0]
    );
}

#[test]
fn partial_test_reverse_sorted_vec() {
    let mut v = ReverseSortedVec::new();
    assert_eq!(v.insert(5.0), 0);
    assert_eq!(v.insert(3.0), 1);
    assert_eq!(v.insert(4.0), 1);
    assert_eq!(v.find_or_insert(6.0), Err(0));
    assert_eq!(v.insert(4.0), 2);
    assert_eq!(v.find_or_insert(4.0), Ok(3));
    assert_eq!(v.len(), 5);
    v.dedup();
    assert_eq!(v.len(), 4);
    assert_eq!(v.binary_search(&3.0), Ok(3));
    assert_eq!(
        *ReverseSortedVec::from_unsorted(vec![5.0, -10.0, 99.0, -11.0, 2.0, 17.0, 10.0]),
        vec![99.0, 17.0, 10.0, 5.0, 2.0, -10.0, -11.0]
    );
    let mut v = ReverseSortedVec::new();
    v.extend(vec![5.0, -10.0, 99.0, -11.0, 2.0, 17.0, 10.0].into_iter());
    assert_eq!(
        v.drain(..).collect::<Vec<f32>>(),
        vec![99.0, 17.0, 10.0, 5.0, 2.0, -10.0, -11.0]
    );
}
