use sorted_vec::{
    is_reverse_sorted, FindOrInsert, ReverseSortedSet, ReverseSortedVec, SortedSet, SortedVec,
};
use std::cmp::Reverse;

#[test]
fn lib_test_sorted_vec() {
    let mut v = SortedVec::new();
    assert_eq!(v.insert(5), 0);
    assert_eq!(v.insert(3), 0);
    assert_eq!(v.insert(4), 1);
    assert_eq!(v.insert(4), 1);
    assert_eq!(v.find_or_insert(4), FindOrInsert::Found(2));
    assert_eq!(v.find_or_insert(4).index(), 2);
    assert_eq!(v.len(), 4);
    v.dedup();
    assert_eq!(v.len(), 3);
    assert_eq!(v.binary_search(&3), Ok(0));
    assert_eq!(
        *SortedVec::from_unsorted(vec![5, -10, 99, -11, 2, 17, 10]),
        vec![-11, -10, 2, 5, 10, 17, 99]
    );
    assert_eq!(
        SortedVec::from_unsorted(vec![5, -10, 99, -11, 2, 17, 10]),
        vec![5, -10, 99, -11, 2, 17, 10].into()
    );
    let mut v = SortedVec::new();
    v.extend(vec![5, -10, 99, -11, 2, 17, 10].into_iter());
    assert_eq!(*v, vec![-11, -10, 2, 5, 10, 17, 99]);
    let _ = v.mutate_vec(|v| {
        v[0] = 11;
        v[3] = 1;
    });
    assert_eq!(
        v.drain(..).collect::<Vec<i32>>(),
        vec![-10, 1, 2, 10, 11, 17, 99]
    );
}

#[test]
fn test_sorted_set() {
    let mut s = SortedSet::new();
    assert_eq!(s.insert(5), 0);
    assert_eq!(s.insert(3), 0);
    assert_eq!(s.insert(4), 1);
    assert_eq!(s.insert(4), 1);
    assert_eq!(s.find_or_insert(4), FindOrInsert::Found(1));
    assert_eq!(s.find_or_insert(4).index(), 1);
    assert_eq!(s.len(), 3);
    assert_eq!(s.binary_search(&3), Ok(0));
    assert_eq!(
        **SortedSet::from_unsorted(vec![5, -10, 99, -10, -11, 10, 2, 17, 10]),
        vec![-11, -10, 2, 5, 10, 17, 99]
    );
    assert_eq!(
        SortedSet::from_unsorted(vec![5, -10, 99, -10, -11, 10, 2, 17, 10]),
        vec![5, -10, 99, -10, -11, 10, 2, 17, 10].into()
    );
    let mut s = SortedSet::new();
    s.extend(vec![5, -11, -10, 99, -11, 2, 17, 2, 10].into_iter());
    assert_eq!(**s, vec![-11, -10, 2, 5, 10, 17, 99]);
    let _ = s.mutate_vec(|s| {
        s[0] = 5;
        s[3] = 1;
    });
    assert_eq!(
        s.drain(..).collect::<Vec<i32>>(),
        vec![-10, 1, 2, 5, 10, 17, 99]
    );
}

#[test]
fn lib_test_reverse_sorted_vec() {
    let mut v = ReverseSortedVec::new();
    assert_eq!(v.insert(Reverse(5)), 0);
    assert_eq!(v.insert(Reverse(3)), 1);
    assert_eq!(v.insert(Reverse(4)), 1);
    assert_eq!(v.find_or_insert(Reverse(6)), FindOrInsert::Inserted(0));
    assert_eq!(v.insert(Reverse(4)), 2);
    assert_eq!(v.find_or_insert(Reverse(4)), FindOrInsert::Found(2));
    assert_eq!(v.len(), 5);
    v.dedup();
    assert_eq!(v.len(), 4);
    assert_eq!(
        *ReverseSortedVec::from_unsorted(vec![
            Reverse(5),
            Reverse(-10),
            Reverse(99),
            Reverse(-11),
            Reverse(2),
            Reverse(17),
            Reverse(10)
        ]),
        vec![
            Reverse(99),
            Reverse(17),
            Reverse(10),
            Reverse(5),
            Reverse(2),
            Reverse(-10),
            Reverse(-11)
        ]
    );
    assert_eq!(
        ReverseSortedVec::from_unsorted(vec![
            Reverse(5),
            Reverse(-10),
            Reverse(99),
            Reverse(-11),
            Reverse(2),
            Reverse(17),
            Reverse(10)
        ]),
        vec![
            Reverse(5),
            Reverse(-10),
            Reverse(99),
            Reverse(-11),
            Reverse(2),
            Reverse(17),
            Reverse(10)
        ]
        .into()
    );
    let mut v = ReverseSortedVec::new();
    v.extend(
        vec![
            Reverse(5),
            Reverse(-10),
            Reverse(99),
            Reverse(-11),
            Reverse(2),
            Reverse(17),
            Reverse(10),
        ]
        .into_iter(),
    );
    assert_eq!(
        *v,
        vec![
            Reverse(99),
            Reverse(17),
            Reverse(10),
            Reverse(5),
            Reverse(2),
            Reverse(-10),
            Reverse(-11)
        ]
    );
    let _ = v.mutate_vec(|v| {
        v[6] = Reverse(11);
        v[3] = Reverse(1);
    });
    assert_eq!(
        v.drain(..).collect::<Vec<Reverse<i32>>>(),
        vec![
            Reverse(99),
            Reverse(17),
            Reverse(11),
            Reverse(10),
            Reverse(2),
            Reverse(1),
            Reverse(-10)
        ]
    );
}

#[test]
fn test_reverse_sorted_set() {
    let mut s = ReverseSortedSet::new();
    assert_eq!(s.insert(Reverse(5)), 0);
    assert_eq!(s.insert(Reverse(3)), 1);
    assert_eq!(s.insert(Reverse(4)), 1);
    assert_eq!(s.find_or_insert(Reverse(6)), FindOrInsert::Inserted(0));
    assert_eq!(s.insert(Reverse(4)), 2);
    assert_eq!(s.find_or_insert(Reverse(4)), FindOrInsert::Found(2));
    assert_eq!(s.len(), 4);
    assert_eq!(s.binary_search(&Reverse(3)), Ok(3));
    assert_eq!(
        **ReverseSortedSet::from_unsorted(vec![
            Reverse(5),
            Reverse(-10),
            Reverse(99),
            Reverse(-11),
            Reverse(2),
            Reverse(99),
            Reverse(17),
            Reverse(10),
            Reverse(-10)
        ]),
        vec![
            Reverse(99),
            Reverse(17),
            Reverse(10),
            Reverse(5),
            Reverse(2),
            Reverse(-10),
            Reverse(-11)
        ]
    );
    assert_eq!(
        ReverseSortedSet::from_unsorted(vec![
            Reverse(5),
            Reverse(-10),
            Reverse(99),
            Reverse(-11),
            Reverse(2),
            Reverse(99),
            Reverse(17),
            Reverse(10),
            Reverse(-10)
        ]),
        vec![
            Reverse(5),
            Reverse(-10),
            Reverse(99),
            Reverse(-11),
            Reverse(2),
            Reverse(99),
            Reverse(17),
            Reverse(10),
            Reverse(-10)
        ]
        .into()
    );
    let mut s = ReverseSortedSet::new();
    s.extend(
        vec![
            Reverse(5),
            Reverse(-10),
            Reverse(2),
            Reverse(99),
            Reverse(-11),
            Reverse(-11),
            Reverse(2),
            Reverse(17),
            Reverse(10),
        ]
        .into_iter(),
    );
    assert_eq!(
        **s,
        vec![
            Reverse(99),
            Reverse(17),
            Reverse(10),
            Reverse(5),
            Reverse(2),
            Reverse(-10),
            Reverse(-11)
        ]
    );
    let _ = s.mutate_vec(|s| {
        s[6] = Reverse(17);
        s[3] = Reverse(1);
    });
    assert_eq!(
        s.drain(..).collect::<Vec<Reverse<i32>>>(),
        vec![
            Reverse(99),
            Reverse(17),
            Reverse(10),
            Reverse(2),
            Reverse(1),
            Reverse(-10)
        ]
    );
}

#[test]
fn lib_test_deserialize() {
    let s = "[-11,-10,2,5,10,17,99]";
    let v: Vec<i32> = serde_json::from_str(s).unwrap();
    let _ = SortedVec::from_sorted(v).unwrap();
}

#[test]
#[should_panic]
fn lib_test_deserialize_unsorted() {
    let s = "[99,-11,-10,2,5,10,17]";
    let v: Vec<i32> = serde_json::from_str(s).unwrap();
    let _ = SortedVec::from_sorted(v).unwrap();
}

#[test]
fn lib_test_deserialize_reverse() {
    let s = "[99,17,10,5,2,-10,-11]";
    let v: Vec<i32> = serde_json::from_str(s).unwrap();
    assert!(is_reverse_sorted(&v));
    let w: Vec<Reverse<i32>> = v.into_iter().map(Reverse).collect();
    let _ = ReverseSortedVec::from_sorted(w).unwrap();
}

#[test]
#[should_panic]
fn lib_test_deserialize_reverse_unsorted() {
    let s = "[99,-11,-10,2,5,10,17]";
    let v: Vec<i32> = serde_json::from_str(s).unwrap();
    assert!(is_reverse_sorted(&v));
    let w: Vec<Reverse<i32>> = v.into_iter().map(Reverse).collect();
    let _ = ReverseSortedVec::from_sorted(w).unwrap();
}
