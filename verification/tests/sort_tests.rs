use csx3::sort::{merge_sort, quick_sort, partition_at_index, merge_mut, rand_selection};
use csx3::sort::quick::QuickSort;
use csx3::sort::merge::MergeSort;
use csx3::sort::count::{CountSort, Distance};
use csx3::merge::{Merge, MergeIterator};

#[test]
fn sort_test_quick_sort() {
    let test_data: [(&mut [u32], &[u32]); 6] = [
        (&mut [3, 2, 1], &[1, 2, 3]),
        (&mut [4, 1, 3, 2], &[1, 2, 3, 4]),
        (&mut [8, 4, 2, 1], &[1, 2, 4, 8]),
        (&mut [6, 2, 4, 3, 5, 1], &[1, 2, 3, 4, 5, 6]),
        (&mut [7, 6, 5, 4, 3, 2, 1], &[1, 2, 3, 4, 5, 6, 7]),
        (&mut [8, 7, 6, 5, 4, 3, 2, 1], &[1, 2, 3, 4, 5, 6, 7, 8]),
    ];
    for (input, output) in test_data {
        quick_sort(input);
        assert_eq!(input, output);
    }
}

#[test]
fn test_merge_sort() {
    let test_data: [(&mut [u32], (u32, &[u32])); 6] = [
        (&mut [3, 2, 1], (3, &[1, 2, 3])),
        (&mut [4, 1, 3, 2], (4, &[1, 2, 3, 4])),
        (&mut [8, 4, 2, 1], (6, &[1, 2, 4, 8])),
        (&mut [6, 2, 4, 3, 5, 1], (10, &[1, 2, 3, 4, 5, 6])),
        (&mut [7, 6, 5, 4, 3, 2, 1], (21, &[1, 2, 3, 4, 5, 6, 7])),
        (&mut [8, 7, 6, 5, 4, 3, 2, 1], (28, &[1, 2, 3, 4, 5, 6, 7, 8])),
    ];
    for (input, (inv_count, output)) in test_data {
        assert_eq!(merge_sort(input), inv_count);
        assert_eq!(input, output);
    }
}

#[test]
fn sort_test_merge() {
    let s1 = &[34, 36, 80, 127];
    let s2 = &[-36, -22, -3, 109];

    let mut iter = MergeIterator::new(s1, s2);

    assert_eq!(iter.next(), Some((4, &-36)));
    assert_eq!(iter.next(), Some((4, &-22)));
    assert_eq!(iter.next(), Some((4, &-3)));
    assert_eq!(iter.next(), Some((0, &34)));
    assert_eq!(iter.next(), Some((0, &36)));
    assert_eq!(iter.next(), Some((0, &80)));
    assert_eq!(iter.next(), Some((1, &109)));
    assert_eq!(iter.next(), Some((0, &127)));
    assert_eq!(iter.next(), None);
}

#[test]
fn sort_test_merge_mut() {
    let arr: [(&mut [i32], &[i32]); 11] = [
        (&mut [34, 36, 80, 127, -36, -22, -3, 109], &[-36, -22, -3, 34, 36, 80, 109, 127]),
        (&mut [2, 4, 6, 1, 3, 5], &[1, 2, 3, 4, 5, 6]),
        (&mut [1, 3, 5, 2, 4, 6], &[1, 2, 3, 4, 5, 6]),
        (&mut [2, 4, 1, 3, 5], &[1, 2, 3, 4, 5]),
        (&mut [1, 3, 2, 4, 5], &[1, 2, 3, 4, 5]),
        (&mut [1, 2, 3, 4, 5], &[1, 2, 3, 4, 5]),
        (&mut [2, 1, 4], &[1, 2, 4]),
        (&mut [3, 1, 2], &[1, 2, 3]),
        (&mut [1, 2, 3], &[1, 2, 3]),
        (&mut [2, 1], &[1, 2]),
        (&mut [1, 2], &[1, 2]),
    ];
    for (input, output) in arr {
        let len = input.len();
        merge_mut(input, len >> 1);
        assert_eq!(input, output);
    }
}

#[test]
fn sort_test_random_selection() {
    let test_data: [(&mut [u32], usize, &u32); 6] = [
        (&mut [23, 43, 8, 22, 15, 11], 1, &8),
        (&mut [23, 43, 8, 22, 15, 11], 2, &11),
        (&mut [23, 43, 8, 22, 15, 11], 3, &15),
        (&mut [23, 43, 8, 22, 15, 11], 4, &22),
        (&mut [23, 43, 8, 22, 15, 11], 5, &23),
        (&mut [23, 43, 8, 22, 15, 11], 6, &43),
    ];
    for (input, order, position) in test_data {
        assert_eq!(rand_selection(input, order), position);
    }
}

#[test]
fn sort_test_partition_at_index() {
    let mut v = vec![6, 12, 5, 9, 7, 8, 11, 3, 1, 4, 2, 10];
    let (l, idx, r) = partition_at_index(&mut v[..], 4);

    assert_eq!(l, &[2, 5, 6, 3, 1, 4]);
    assert_eq!(idx, &7);
    assert_eq!(r, &[9, 12, 8, 11, 10]);
}

#[test]
fn mod_test_partition_at_index() {
    let mut v = vec![6, 12, 5, 9, 7, 8, 11, 3, 1, 4, 2, 10];
    let (l, idx, r) = partition_at_index(&mut v, 4);

    assert_eq!(l, &[2, 5, 6, 3, 1, 4]);
    assert_eq!(idx, &7);
    assert_eq!(r, &[9, 12, 8, 11, 10]);
}

#[test]
fn quick_test_quick_sort() {
    let test_data: [(&mut [u32], &[u32]); 6] = [
        (&mut [3, 2, 1], &[1, 2, 3]),
        (&mut [4, 1, 3, 2], &[1, 2, 3, 4]),
        (&mut [8, 4, 2, 1], &[1, 2, 4, 8]),
        (&mut [6, 2, 4, 3, 5, 1], &[1, 2, 3, 4, 5, 6]),
        (&mut [7, 6, 5, 4, 3, 2, 1], &[1, 2, 3, 4, 5, 6, 7]),
        (&mut [8, 7, 6, 5, 4, 3, 2, 1], &[1, 2, 3, 4, 5, 6, 7, 8]),
    ];
    for (input, output) in test_data {
        input.quick_sort();
        assert_eq!(input, output);
    }
}

#[test]
fn quick_test_partition_at_index() {
    let mut v = vec![6, 12, 5, 9, 7, 8, 11, 3, 1, 4, 2, 10];
    let (l, idx, r) = partition_at_index(&mut v, 4);

    assert_eq!(l, &[2, 5, 6, 3, 1, 4]);
    assert_eq!(idx, &7);
    assert_eq!(r, &[9, 12, 8, 11, 10]);
}

#[test]
fn test_merge_sort_mut() {
    let test_data: [(&mut [i32], (usize, &[i32])); 7] = [
        (&mut [3, 2, 1], (3, &[1, 2, 3])),
        (&mut [4, 1, 3, 2], (4, &[1, 2, 3, 4])),
        (&mut [8, 4, 2, 1], (6, &[1, 2, 4, 8])),
        (&mut [6, 2, 4, 3, 5, 1], (10, &[1, 2, 3, 4, 5, 6])),
        (&mut [7, 6, 5, 4, 3, 2, 1], (21, &[1, 2, 3, 4, 5, 6, 7])),
        (&mut [8, 7, 6, 5, 4, 3, 2, 1], (28, &[1, 2, 3, 4, 5, 6, 7, 8])),
        (&mut [-111, -52, -38, -13, 16, 26, 73, 103], (0, &[-111, -52, -38, -13, 16, 26, 73, 103])),
    ];
    for (input, (inv_count, output)) in test_data {
        assert_eq!(input.mergesort_mut(Merge::merge_mut), inv_count);
        assert_eq!(input, output);
    }
}

#[test]
fn test_merge_sort_mut_adjacent() {
    let test_data: [(&mut [u32], (usize, &[u32])); 6] = [
        (&mut [3, 2, 1], (3, &[1, 2, 3])),
        (&mut [4, 1, 3, 2], (4, &[1, 2, 3, 4])),
        (&mut [8, 4, 2, 1], (6, &[1, 2, 4, 8])),
        (&mut [6, 2, 4, 3, 5, 1], (10, &[1, 2, 3, 4, 5, 6])),
        (&mut [7, 6, 5, 4, 3, 2, 1], (21, &[1, 2, 3, 4, 5, 6, 7])),
        (&mut [8, 7, 6, 5, 4, 3, 2, 1], (28, &[1, 2, 3, 4, 5, 6, 7, 8])),
    ];
    for (input, (inv_count, output)) in test_data {
        assert_eq!(input.mergesort_mut(Merge::merge_mut_adjacent), inv_count);
        assert_eq!(input, output);
    }
}

#[test]
fn mergesort_into_new_vector() {
    let v = [8, 7, 6, 5, 4, 3, 2, 1];
    assert_eq!(v.mergesort(), (28, vec![1, 2, 3, 4, 5, 6, 7, 8]));
    let e: [i32; 0] = [];
    assert_eq!(e.mergesort(), (0, vec![]));
}

#[test]
fn test_count_sort() {
    let test_data: [(&mut [isize], &[isize]); 6] = [
        (&mut [13, 12, 11], &[11, 12, 13]),
        (&mut [14, 11, 13, 12], &[11, 12, 13, 14]),
        (&mut [28, 24, 22, 21], &[21, 22, 24, 28]),
        (&mut [36, 32, 34, 33, 35, 31], &[31, 32, 33, 34, 35, 36]),
        (&mut [7, 6, 5, 4, 3, 2, 1], &[1, 2, 3, 4, 5, 6, 7]),
        (&mut [113, 82, 127, 58, 16, -128, -58, -110], &[-128, -110, -58, 16, 58, 82, 113, 127]),
    ];
    for (input, output) in test_data {
        input.count_sort();
        assert_eq!(input, output);
    }
}

#[test]
fn count_sort_other_types() {
    let v = &mut [3i8, 5, 8, 1, 2, 4, 6, 0];
    v.count_sort();
    assert_eq!(v, &[0, 1, 2, 3, 4, 5, 6, 8]);
    let u = &mut [200u8, 0, 255, 7, 7];
    u.count_sort();
    assert_eq!(u, &[0, 7, 7, 200, 255]);
    let w = &mut [-1000i32, 5, -5];
    w.count_sort();
    assert_eq!(w, &[-1000, -5, 5]);
    let e: &mut [u32] = &mut [];
    e.count_sort();
    assert!(e.is_empty());
}

#[test]
fn distance_and_offset() {
    assert_eq!((-3i8).dist_from(5), 8);
    assert_eq!(5i8.dist_from(-3), 8);
    assert_eq!((-128i8).add_index(255), 127);
    assert_eq!(10usize.dist_from(3), 7);
    assert_eq!(3u16.add_index(4), 7);
}

#[test]
fn merge_sort_single_and_pair() {
    let v: &mut [i32] = &mut [5];
    assert_eq!(merge_sort(v), 0);
    let w: &mut [i32] = &mut [2, 1];
    assert_eq!(merge_sort(w), 1);
    assert_eq!(w, &[1, 2]);
}
