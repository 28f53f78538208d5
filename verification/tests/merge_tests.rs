use csx3::merge::{Merge, MergeIterator};
use csx3::merge::vs::VirtualSlice;

#[test]
fn test_merge_shallow() {
    let s1 = &mut [1, 3, 5, 7, 9];
    let s2 = &mut [2, 4, 6, 8, 10];

    let vs = s1.merge_virtual(s2);
    let mut it = vs.iter();
    let mut i = 0;
    while let Some(x) = it.next() {
        i += 1;
        assert_eq!(*x, i);
    }
    assert_eq!(i, 10);

    assert_eq!(s1, &mut [1, 3, 5, 7, 9]);
    assert_eq!(s2, &mut [2, 4, 6, 8, 10]);
}

#[test]
fn mod_test_merge() {
    let s1 = &[34, 36, 80, 127];
    let s2 = &[-36, -22, -3, 109];

    let mut iter = MergeIterator::new(s1, s2);

    assert_eq!(iter.next(), Some((4, &-36)));
    assert_eq!(iter.next(), Some((4, &-22)));
    assert_eq!(iter.next(), Some((4, &-3)));
    assert_eq!(iter.next(), Some((0, &34)));
    assert_eq!(iter.next(), Some((0, &36)));
    assert_eq!(iter.next(), Some((0, &80)));
    assert_eq!(iter.next(), Some((1, &109)));
    assert_eq!(iter.next(), Some((0, &127)));
    assert_eq!(iter.next(), None);
}

#[test]
fn dnc_test_merge() {
    let s1 = &[2, 4, 6];
    let s2 = &[1, 3, 5];

    let mut iter = MergeIterator::new(s1, s2);

    assert_eq!(iter.next(), Some((3, &1)));
    assert_eq!(iter.next(), Some((0, &2)));
    assert_eq!(iter.next(), Some((2, &3)));
    assert_eq!(iter.next(), Some((0, &4)));
    assert_eq!(iter.next(), Some((1, &5)));
    assert_eq!(iter.next(), Some((0, &6)));
    assert_eq!(iter.next(), None);
}

#[test]
fn test_merge_mut_adjacent() {
    let arr: [(&mut [i32], &[i32]); 11] = [
        (&mut [34, 36, 80, 127, -36, -22, -3, 109], &[-36, -22, -3, 34, 36, 80, 109, 127]),
        (&mut [2, 4, 6, 1, 3, 5], &[1, 2, 3, 4, 5, 6]),
        (&mut [1, 3, 5, 2, 4, 6], &[1, 2, 3, 4, 5, 6]),
        (&mut [2, 4, 1, 3, 5], &[1, 2, 3, 4, 5]),
        (&mut [1, 3, 2, 4, 5], &[1, 2, 3, 4, 5]),
        (&mut [1, 2, 3, 4, 5], &[1, 2, 3, 4, 5]),
        (&mut [2, 1, 4], &[1, 2, 4]),
        (&mut [3, 1, 2], &[1, 2, 3]),
        (&mut [1, 2, 3], &[1, 2, 3]),
        (&mut [2, 1], &[1, 2]),
        (&mut [1, 2], &[1, 2]),
    ];
    for (input, output) in arr {
        let len = input.len();
        let (s1, s2) = input.split_at_mut(len >> 1);
        s1.merge_mut_adjacent(s2);
        assert_eq!(input, output);
    }
}

#[test]
fn mod_test_merge_mut() {
    let arr: [(&mut [i32], &[i32]); 13] = [
        (&mut [34, 36, 80, 127, -36, -22, -3, 109], &[-36, -22, -3, 34, 36, 80, 109, 127]),
        (&mut [2, 4, 6, 1, 3, 5], &[1, 2, 3, 4, 5, 6]),
        (&mut [1, 3, 5, 2, 4, 6], &[1, 2, 3, 4, 5, 6]),
        (&mut [5, 6, 7, 1, 2, 3, 4], &[1, 2, 3, 4, 5, 6, 7]),
        (&mut [1, 2, 3, 4, 5, 6, 7], &[1, 2, 3, 4, 5, 6, 7]),
        (&mut [2, 4, 1, 3, 5], &[1, 2, 3, 4, 5]),
        (&mut [1, 3, 2, 4, 5], &[1, 2, 3, 4, 5]),
        (&mut [1, 2, 3, 4, 5], &[1, 2, 3, 4, 5]),
        (&mut [2, 1, 4], &[1, 2, 4]),
        (&mut [3, 1, 2], &[1, 2, 3]),
        (&mut [1, 2, 3], &[1, 2, 3]),
        (&mut [2, 1], &[1, 2]),
        (&mut [1, 2], &[1, 2]),
    ];
    for (input, output) in arr {
        let len = input.len();
        let (s1, s2) = input.split_at_mut(len >> 1);
        s1.merge_mut(s2);
        assert_eq!(input, output);
    }
}

#[test]
fn merge_mut_counts_inversions() {
    let input: &mut [i32] = &mut [2, 4, 6, 1, 3, 5];
    let (s1, s2) = input.split_at_mut(3);
    assert_eq!(s1.merge_mut(s2), 6);
    let input: &mut [i32] = &mut [1, 2, 3, 4];
    let (s1, s2) = input.split_at_mut(2);
    assert_eq!(s1.merge_mut_adjacent(s2), 0);
}

#[test]
fn vs_test_virtual_slice_merge() {
    let test_data: [(&mut [i32], &mut [i32], &[i32], &[i32]); 8] = [
        (&mut [-88, -29, 4, 84], &mut [-127, -113, -71, -54],
         &[-127, -113, -88, -71], &[-54, -29, 4, 84]),
        (&mut [5, 6, 7], &mut [1, 2, 3, 4],
         &[1, 2, 3], &[4, 5, 6, 7]),
        (&mut [-127, -81, -55, -38, 40, 78, 122, 124], &mut [-126, -123, -102, -78, -51, -44, -29, 17],
         &[-127, -126, -123, -102, -81, -78, -55, -51], &[-44, -38, -29, 17, 40, 78, 122, 124]),
        (&mut [-69, -18, -8, 3, 38, 68, 69, 74], &mut [-119, -83, -81, -76, -37, -13, 40, 77],
         &[-119, -83, -81, -76, -69, -37, -18, -13], &[-8, 3, 38, 40, 68, 69, 74, 77]),
        (&mut [-106, -82, -64, -57, 5, 23, 67, 79], &mut [-103, -85, -85, -49, -42, -38, -37, 86],
         &[-106, -103, -85, -85, -82, -64, -57, -49], &[-42, -38, -37, 5, 23, 67, 79, 86]),
        (&mut [-122, -19, 3, 51, 69, 77, 78, 115], &mut [-118, -99, 23, 23, 35, 59, 63, 75],
         &[-122, -118, -99, -19, 3, 23, 23, 35], &[51, 59, 63, 69, 75, 77, 78, 115]),
        (&mut [-79, -39, -5, 69, 87, 117, 118, 126], &mut [-59, -39, -39, -14, 40, 86, 97, 113],
         &[-79, -59, -39, -39, -39, -14, -5, 40], &[69, 86, 87, 97, 113, 117, 118, 126]),
        (&mut [-108, -84, 6, 49, 74, 96, 100, 112], &mut [-118, -91, -86, -81, -43, 16, 45, 52],
         &[-118, -108, -91, -86, -84, -81, -43, 6], &[16, 45, 49, 52, 74, 96, 100, 112]),
    ];
    for (s1, s2, c1, c2) in test_data {
        let mut vs = VirtualSlice::new(s1.len() + s2.len());
        vs.merge(s1);
        vs.merge(s2);
        assert_eq!(s1, c1);
        assert_eq!(s2, c2);
    }
}

#[test]
fn vs_test_virtual_slice_merge_multiple() {
    let s1 = &mut [5, 6, 7];
    let _x = &[0, 0, 0, 0, 0, 0];
    let s2 = &mut [1, 2, 3, 4];
    let _y = &[0, 0, 0, 0, 0, 0];
    let s3 = &mut [10, 12, 14];
    let _z = &[0, 0, 0, 0, 0, 0];
    let s4 = &mut [8, 9, 15, 16];

    let mut vs = VirtualSlice::new(s1.len() + s2.len() + s3.len() + s4.len());
    vs.merge(s1);
    vs.merge(s2);
    vs.merge(s3);
    vs.merge(s4);

    assert_eq!(s1, &mut [1, 2, 3]);
    assert_eq!(s2, &mut [4, 5, 6, 7]);
    assert_eq!(s3, &mut [8, 9, 10]);
    assert_eq!(s4, &mut [12, 14, 15, 16]);
}

fn contents(vs: &VirtualSlice<i32>) -> Vec<i32> {
    let mut out = Vec::new();
    let mut it = vs.iter();
    while let Some(x) = it.next() {
        out.push(*x);
    }
    out
}

#[test]
fn vs_test_virtual_slice_swap_shallow() {
    let s1 = &mut [1, 3, 5, 7, 9];
    let s2 = &mut [2, 4, 6, 8, 10];
    {
        let mut vs = VirtualSlice::new(s1.len() + s2.len());
        vs.attach(s1);
        vs.attach(s2);
        vs.set(0, 11);
        vs.set(5, 22);
        assert_eq!(contents(&vs), vec![11, 3, 5, 7, 9, 22, 4, 6, 8, 10]);
        vs.swap_shallow(0, 5);
        // references have been swapped
        assert_eq!(contents(&vs), vec![22, 3, 5, 7, 9, 11, 4, 6, 8, 10]);
    }
    // however segments haven't been affected
    assert_eq!(s1, &mut [11, 3, 5, 7, 9]);
    assert_eq!(s2, &mut [22, 4, 6, 8, 10]);
}

#[test]
fn vs_test_virtual_slice_new_iter_swap() {
    let s1 = &mut [1, 3, 5, 7, 9];
    let _s3 = &mut [0, 0, 0];
    let s2 = &mut [2, 4, 6, 8, 10];
    {
        let mut v = VirtualSlice::new(s1.len() + s2.len());
        v.attach(s1);
        v.attach(s2);
        let mut it = v.iter_mut();
        while let Some(ptr) = it.next() {
            *ptr = 12;
        }
    }
    {
        let mut v = VirtualSlice::new(s1.len() + s2.len());
        v.attach(s1);
        v.attach(s2);
        v.set(0, 11);
        v.set(5, 9);
    }
    assert_eq!(s1, &mut [11, 12, 12, 12, 12]);
    assert_eq!(s2, &mut [9, 12, 12, 12, 12]);
    {
        let mut v = VirtualSlice::new(s1.len() + s2.len());
        v.attach(s1);
        v.attach(s2);
        v.swap(0, 5);
    }
    assert_eq!(s1, &mut [9, 12, 12, 12, 12]);
    assert_eq!(s2, &mut [11, 12, 12, 12, 12]);
}

#[test]
fn vs_test_virtual_slice_iter_mut_adjacent() {
    let mut input = vec![1, 3, 5, 7, 9, 2, 4, 6, 8, 10];
    let (s1, s2) = input.split_at_mut(5);
    {
        let mut vs = VirtualSlice::new_adjacent(s1);
        vs.attach(s2);
        assert_eq!(contents(&vs), vec![1, 3, 5, 7, 9, 2, 4, 6, 8, 10]);
        let mut it = vs.iter_mut();
        while let Some(x) = it.next() {
            *x = 12;
        }
    }
    assert_eq!(s1, &mut [12, 12, 12, 12, 12]);
    assert_eq!(s2, &mut [12, 12, 12, 12, 12]);
}

#[test]
fn vs_test_virtual_slice_index_adjacent() {
    let mut input = vec![1, 3, 5, 7, 9, 2, 4, 6, 8, 10];
    let (s1, s2) = input.split_at_mut(5);
    {
        let mut vs = VirtualSlice::new_adjacent(s1);
        vs.attach(s2);
        vs.set(0, 11);
        vs.set(5, 9);
        assert_eq!(contents(&vs), vec![11, 3, 5, 7, 9, 9, 4, 6, 8, 10]);
    }
    assert_eq!(s1, &mut [11, 3, 5, 7, 9]);
    assert_eq!(s2, &mut [9, 4, 6, 8, 10]);
}

#[test]
fn test_merge_superimpose() {
    let data: [(&mut [i32], &mut [i32], &[i32], &[i32]); 3] = [
        (&mut [-88, -29, 4, 84], &mut [-127, -113, -71, -54], &[-127, -113, -88, -71], &[-54, -29, 4, 84]),
        (&mut [5, 6, 7], &mut [1, 2, 3, 4], &[1, 2, 3], &[4, 5, 6, 7]),
        (&mut [1, 2, 3, 4], &mut [5, 6, 7], &[1, 2, 3, 4], &[5, 6, 7]),
    ];
    for (s1, s2, o1, o2) in data {
        let mut vs = s1.merge_virtual(s2);
        vs.superimpose_shallow_merge();
        assert_eq!(s1, o1);
        assert_eq!(s2, o2);
    }
}

#[test]
fn superimpose_keeps_virtual_contents() {
    let s1 = &mut [4, 8, 9];
    let s2 = &mut [1, 5, 7, 10];
    {
        let mut vs = s1.merge_virtual(s2);
        assert_eq!(contents(&vs), vec![1, 4, 5, 7, 8, 9, 10]);
        vs.superimpose_shallow_merge();
        assert_eq!(contents(&vs), vec![1, 4, 5, 7, 8, 9, 10]);
    }
    assert_eq!(s1, &mut [1, 4, 5]);
    assert_eq!(s2, &mut [7, 8, 9, 10]);
}

#[test]
fn merge_lazy_keeps_segments() {
    let s1 = &mut [5, 6, 7];
    let s2 = &mut [1, 2, 3, 4];
    {
        let mut vs = VirtualSlice::new(7);
        vs.attach(s1);
        assert_eq!(vs.merge_lazy(s2), 12);
        let mut it = vs.iter();
        let mut i = 0;
        while let Some(x) = it.next() {
            i += 1;
            assert_eq!(*x, i);
        }
    }
    assert_eq!(s1, &mut [5, 6, 7]);
    assert_eq!(s2, &mut [1, 2, 3, 4]);
}
