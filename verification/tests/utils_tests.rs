use csx3::utils::VirtualSlice;
use std::cmp::Ordering;

#[test]
fn utils_test_virtual_slice_merge() {
    let s1 = &mut [5, 6, 7];
    let _x = &[0, 0, 0, 0, 0, 0];
    let s2 = &mut [1, 2, 3, 4];
    let _y = &[0, 0, 0, 0, 0, 0];
    let s3 = &mut [10, 12, 14];
    let _z = &[0, 0, 0, 0, 0, 0];
    let s4 = &mut [8, 9, 15, 16];
    {
        let mut vs = VirtualSlice::new();
        vs.merge(s1);
        vs.merge(s2);
        vs.merge(s3);
        vs.merge(s4);
    }
    assert_eq!(s1, &mut [1, 2, 3]);
    assert_eq!(s2, &mut [4, 5, 6, 7]);
    assert_eq!(s3, &mut [8, 9, 10]);
    assert_eq!(s4, &mut [12, 14, 15, 16]);
}

#[test]
fn mod_test_virtual_slice_merge() {
    let test_data: [(&mut [i32], &mut [i32], &[i32], &[i32]); 6] = [
        (&mut [-88, -29, 4, 84], &mut [-127, -113, -71, -54],
         &[-127, -113, -88, -71], &[-54, -29, 4, 84]),
        (&mut [5, 6, 7], &mut [1, 2, 3, 4],
         &[1, 2, 3], &[4, 5, 6, 7]),
        (&mut [-127, -81, -55, -38, 40, 78, 122, 124], &mut [-126, -123, -102, -78, -51, -44, -29, 17],
         &[-127, -126, -123, -102, -81, -78, -55, -51], &[-44, -38, -29, 17, 40, 78, 122, 124]),
        (&mut [-69, -18, -8, 3, 38, 68, 69, 74], &mut [-119, -83, -81, -76, -37, -13, 40, 77],
         &[-119, -83, -81, -76, -69, -37, -18, -13], &[-8, 3, 38, 40, 68, 69, 74, 77]),
        (&mut [-106, -82, -64, -57, 5, 23, 67, 79], &mut [-103, -85, -85, -49, -42, -38, -37, 86],
         &[-106, -103, -85, -85, -82, -64, -57, -49], &[-42, -38, -37, 5, 23, 67, 79, 86]),
        (&mut [-122, -19, 3, 51, 69, 77, 78, 115], &mut [-118, -99, 23, 23, 35, 59, 63, 75],
         &[-122, -118, -99, -19, 3, 23, 23, 35], &[51, 59, 63, 69, 75, 77, 78, 115]),
    ];
    for (s1, s2, c1, c2) in test_data {
        let mut vs = VirtualSlice::new();
        vs.merge(s1);
        vs.merge(s2);
        assert_eq!(s1, c1);
        assert_eq!(s2, c2);
    }
}

#[test]
fn mod_test_virtual_slice_merge_multiple() {
    let s1 = &mut [5, 6, 7];
    let _x = &[0, 0, 0, 0, 0, 0];
    let s2 = &mut [1, 2, 3, 4];
    let _y = &[0, 0, 0, 0, 0, 0];
    let s3 = &mut [10, 12, 14];
    let _z = &[0, 0, 0, 0, 0, 0];
    let s4 = &mut [8, 9, 15, 16];

    let mut vs = VirtualSlice::new();
    vs.merge(s1);
    vs.merge(s2);
    vs.merge(s3);
    vs.merge(s4);

    assert_eq!(s1, &mut [1, 2, 3]);
    assert_eq!(s2, &mut [4, 5, 6, 7]);
    assert_eq!(s3, &mut [8, 9, 10]);
    assert_eq!(s4, &mut [12, 14, 15, 16]);
}

#[test]
fn test_virtual_slice_merge_shallow() {
    let s1 = &mut [1, 3, 5, 7, 9];
    let s2 = &mut [2, 4, 6, 8, 10];
    {
        let mut vs = VirtualSlice::new();
        vs.merge_shallow(s1);
        vs.merge_shallow(s2);
        let mut it = vs.iter();
        let mut i = 0;
        while let Some(x) = it.next() {
            i += 1;
            assert_eq!(*x, i);
        }
        assert_eq!(i, 10);
    }
    assert_eq!(s1, &mut [1, 3, 5, 7, 9]);
    assert_eq!(s2, &mut [2, 4, 6, 8, 10]);
}

#[test]
fn test_virtual_slice_new_and_iter() {
    let s1 = &mut [1, 3, 5, 7, 9];
    let _s3 = &mut [0, 0, 0];
    let s2 = &mut [2, 4, 6, 8, 10];
    {
        let mut v = VirtualSlice::new();
        v.chain(s1);
        v.chain(s2);
        {
            let mut it = v.iter_mut();
            while let Some(ptr) = it.next() {
                *ptr = 12;
            }
        }
        v.set(0, 11);
        v.set(5, 9);
    }
    assert_eq!(s1, &mut [11, 12, 12, 12, 12]);
    assert_eq!(s2, &mut [9, 12, 12, 12, 12]);
    {
        let mut v = VirtualSlice::new();
        v.chain(s1);
        v.chain(s2);
        v.swap(0, 5);
    }
    assert_eq!(s1, &mut [9, 12, 12, 12, 12]);
    assert_eq!(s2, &mut [11, 12, 12, 12, 12]);
}

fn contents(vs: &VirtualSlice<i32>) -> Vec<i32> {
    let mut out = Vec::new();
    let mut it = vs.iter();
    while let Some(x) = it.next() {
        out.push(*x);
    }
    out
}

#[test]
fn test_virtual_slice_impose() {
    let data: [(&mut [i32], &mut [i32], &[i32], &[i32]); 3] = [
        (&mut [-88, -29, 4, 84], &mut [-127, -113, -71, -54], &[-127, -113, -88, -71], &[-54, -29, 4, 84]),
        (&mut [5, 6, 7], &mut [1, 2, 3, 4], &[1, 2, 3], &[4, 5, 6, 7]),
        (&mut [1, 2, 3, 4], &mut [5, 6, 7], &[1, 2, 3, 4], &[5, 6, 7]),
    ];
    for (s1, s2, o1, o2) in data {
        let mut vs = VirtualSlice::new();
        vs.attach(s1);
        vs.merge_shallow(s2);
        vs.superimpose_shallow_merge();
        assert_eq!(s1, o1);
        assert_eq!(s2, o2);
    }
}

#[test]
fn mod_test_virtual_slice_iter_mut_adjacent() {
    let mut input = vec![1, 3, 5, 7, 9, 2, 4, 6, 8, 10];
    let (s1, s2) = input.split_at_mut(5);
    {
        let mut vs = VirtualSlice::new_adjacent(s1);
        vs.attach(s2);
        assert_eq!(contents(&vs), vec![1, 3, 5, 7, 9, 2, 4, 6, 8, 10]);
        let mut it = vs.iter_mut();
        while let Some(x) = it.next() {
            *x = 12;
        }
    }
    assert_eq!(s1, &mut [12, 12, 12, 12, 12]);
    assert_eq!(s2, &mut [12, 12, 12, 12, 12]);
}

#[test]
fn mod_test_virtual_slice_index_adjacent() {
    let mut input = vec![1, 3, 5, 7, 9, 2, 4, 6, 8, 10];
    let (s1, s2) = input.split_at_mut(5);
    {
        let mut vs = VirtualSlice::new_adjacent(s1);
        vs.attach(s2);
        vs.set(0, 11);
        vs.set(5, 9);
        assert_eq!(contents(&vs), vec![11, 3, 5, 7, 9, 9, 4, 6, 8, 10]);
    }
    assert_eq!(s1, &mut [11, 3, 5, 7, 9]);
    assert_eq!(s2, &mut [9, 4, 6, 8, 10]);
}

#[test]
fn mod_test_virtual_slice_swap_shallow() {
    let s1 = &mut [1, 3, 5, 7, 9];
    let s2 = &mut [2, 4, 6, 8, 10];
    {
        let mut vs = VirtualSlice::new();
        vs.attach(s1);
        vs.attach(s2);
        vs.set(0, 11);
        vs.set(5, 22);
        assert_eq!(contents(&vs), vec![11, 3, 5, 7, 9, 22, 4, 6, 8, 10]);
        vs.swap_shallow(0, 5);
        // references have been swapped
        assert_eq!(contents(&vs), vec![22, 3, 5, 7, 9, 11, 4, 6, 8, 10]);
    }
    // however segments haven't been affected
    assert_eq!(s1, &mut [11, 3, 5, 7, 9]);
    assert_eq!(s2, &mut [22, 4, 6, 8, 10]);
}

#[test]
fn mod_test_virtual_slice_new_iter_swap() {
    let s1 = &mut [1, 3, 5, 7, 9];
    let _s3 = &mut [0, 0, 0];
    let s2 = &mut [2, 4, 6, 8, 10];
    {
        let mut v = VirtualSlice::new();
        v.attach(s1);
        v.attach(s2);
        let mut it = v.iter_mut();
        while let Some(ptr) = it.next() {
            *ptr = 12;
        }
    }
    {
        let mut v = VirtualSlice::new();
        v.attach(s1);
        v.attach(s2);
        v.set(0, 11);
        v.set(5, 9);
    }
    assert_eq!(s1, &mut [11, 12, 12, 12, 12]);
    assert_eq!(s2, &mut [9, 12, 12, 12, 12]);
    {
        let mut v = VirtualSlice::new();
        v.attach(s1);
        v.attach(s2);
        v.swap(0, 5);
    }
    assert_eq!(s1, &mut [9, 12, 12, 12, 12]);
    assert_eq!(s2, &mut [11, 12, 12, 12, 12]);
}

#[test]
fn reorder_around_pivot_merges_parts() {
    let s1 = &mut [1, 4, 7];
    let _x = &[0, 0, 0];
    let s2 = &mut [2, 3, 9];
    {
        let mut vs = VirtualSlice::new();
        vs.chain(s1);
        vs.chain(s2);
        assert_eq!(vs.reorder_around_pivot(3), 4);
        assert_eq!(contents(&vs), vec![1, 2, 3, 4, 7, 9]);
    }
    assert_eq!(s1, &mut [1, 2, 3]);
    assert_eq!(s2, &mut [4, 7, 9]);
}

#[test]
fn reorder_around_pivot_at_the_ends() {
    let s1 = &mut [6, 7];
    let s2 = &mut [1, 2];
    {
        let mut vs = VirtualSlice::new();
        vs.chain(s1);
        vs.chain(s2);
        assert_eq!(vs.reorder_around_pivot(0), 0);
        assert_eq!(vs.reorder_around_pivot(4), 0);
        assert_eq!(vs.reorder_around_pivot(9), 0);
        assert_eq!(contents(&vs), vec![6, 7, 1, 2]);
        assert_eq!(vs.reorder_around_pivot(2), 4);
    }
    assert_eq!(s1, &mut [1, 2]);
    assert_eq!(s2, &mut [6, 7]);
}

#[test]
fn superimpose_after_several_shallow_merges() {
    let s1 = &mut [3, 9];
    let s2 = &mut [1, 4, 8];
    let s3 = &mut [2, 5];
    {
        let mut vs = VirtualSlice::new();
        vs.merge_shallow(s1);
        vs.merge_shallow(s2);
        vs.merge_shallow(s3);
        assert_eq!(contents(&vs), vec![1, 2, 3, 4, 5, 8, 9]);
        vs.superimpose_shallow_merge();
    }
    assert_eq!(s1, &mut [1, 2]);
    assert_eq!(s2, &mut [3, 4, 5]);
    assert_eq!(s3, &mut [8, 9]);
}

#[test]
fn virtual_slices_compare_by_values() {
    let a = &mut [1, 2, 3];
    let b = &mut [1, 2, 4];
    let c = &mut [1, 2];
    let d = &mut [1, 2, 3];
    let mut va = VirtualSlice::new();
    va.attach(a);
    let mut vb = VirtualSlice::new();
    vb.attach(b);
    let mut vc = VirtualSlice::new();
    vc.attach(c);
    let mut vd = VirtualSlice::new();
    vd.attach(d);
    assert!(va.eq(&vd));
    assert!(!va.eq(&vb));
    assert!(!va.eq(&vc));
    assert_eq!(va.partial_cmp(&vb), Some(Ordering::Less));
    assert_eq!(vb.partial_cmp(&va), Some(Ordering::Greater));
    assert_eq!(vc.partial_cmp(&va), Some(Ordering::Less));
    assert_eq!(va.partial_cmp(&vc), Some(Ordering::Greater));
    assert_eq!(va.partial_cmp(&vd), Some(Ordering::Equal));
    let e: VirtualSlice<i32> = VirtualSlice::default();
    assert!(e.is_empty());
}
