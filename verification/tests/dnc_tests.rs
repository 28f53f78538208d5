use csx3::dnc::{merge_sort_vec, merge_sort, quick_sort, partition_at_index};

#[test]
fn test_sort() {
    let v1 = vec![3, 2, 1];
    let v2 = vec![4, 1, 3, 2];
    let v3 = vec![8, 4, 2, 1];
    let v4 = vec![6, 2, 4, 3, 5, 1];
    let v5 = vec![7, 6, 5, 4, 3, 2, 1];
    let v6 = vec![8, 7, 6, 5, 4, 3, 2, 1];
    assert_eq!(merge_sort(&v1), (3, vec![1, 2, 3]));
    assert_eq!(merge_sort(&v2), (4, vec![1, 2, 3, 4]));
    assert_eq!(merge_sort(&v3), (6, vec![1, 2, 4, 8]));
    assert_eq!(merge_sort(&v4), (10, vec![1, 2, 3, 4, 5, 6]));
    assert_eq!(merge_sort(&v5), (21, vec![1, 2, 3, 4, 5, 6, 7]));
    assert_eq!(merge_sort(&v6), (28, vec![1, 2, 3, 4, 5, 6, 7, 8]));
}

#[test]
fn dnc_test_partition_at_index() {
    let mut v = vec![6, 12, 5, 9, 7, 8, 11, 3, 1, 4, 2, 10];
    let idx = partition_at_index(&mut v[..], 4);
    assert_eq!(v[..idx], [2, 5, 6, 3, 1, 4]);
    assert_eq!(v[idx], 7);
    assert_eq!(v[idx + 1..v.len()], [9, 12, 8, 11, 10]);
}

#[test]
fn quick_sort_step_partitions_around_the_fourth_item() {
    let mut v = vec![6, 12, 5, 9, 7, 8, 11, 3, 1, 4, 2, 10];
    quick_sort(&mut v);
    let p = v.iter().position(|x| *x == 9).unwrap();
    assert!(v[..p].iter().all(|x| *x < 9));
    assert!(v[p + 1..].iter().all(|x| *x >= 9));
    let mut sorted = v.clone();
    sorted.sort();
    assert_eq!(sorted, vec![1, 2, 3, 4, 5, 6, 7, 8, 9, 10, 11, 12]);
}

#[test]
fn merge_sort_empty_and_single() {
    let e: Vec<i32> = vec![];
    assert_eq!(merge_sort(&e), (0, vec![]));
    assert_eq!(merge_sort(&[5]), (0, vec![5]));
    assert_eq!(merge_sort(&[2, 1]), (1, vec![1, 2]));
}

#[test]
fn merge_sort_vec_sorts_into_a_new_vector() {
    let mut v = vec![91, 82, 73, 64, 5, 9, 18, 2, 73, 6, 45, 0];
    let r = merge_sort_vec(&mut v);
    assert_eq!(r, vec![0, 2, 5, 6, 9, 18, 45, 64, 73, 73, 82, 91]);
    assert_eq!(v, vec![91, 82, 73, 64, 5, 9, 18, 2, 73, 6, 45, 0]);
    let mut two = vec![3, -1];
    assert_eq!(merge_sort_vec(&mut two), vec![-1, 3]);
    assert_eq!(two, vec![-1, 3]);
    let mut one = vec![7];
    assert_eq!(merge_sort_vec(&mut one), vec![7]);
}
