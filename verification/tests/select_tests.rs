use csx3::select::{find_median, d_selection, r_selection, medians_of_medians};

#[test]
fn test_find_median() {
    let v = &mut [28, 59, -79, 38, -97, -55, 66, 61, -77, -97,
                  -37, 93, -22, 115, -22, -88, 101, 100, 48, -58,
                  100, 55, -49, 104, 110, 35, -86, -118, -10, 115,
                  55, 25, 83, -19, 87, -98, -30, 103, -14, 84,
                  -80, 106, -32, -30, 113, 109, 45, -55, 89, 18];
    assert_eq!(find_median(v), 28);
}

#[test]
fn test_deterministic_selection() {
    let test_data: [(&mut [u32], usize, &u32); 6] = [
        (&mut [23, 43, 8, 22, 15, 11], 1, &8),
        (&mut [23, 43, 8, 22, 15, 11], 2, &11),
        (&mut [23, 43, 8, 22, 15, 11], 3, &15),
        (&mut [23, 43, 8, 22, 15, 11], 4, &22),
        (&mut [23, 43, 8, 22, 15, 11], 5, &23),
        (&mut [23, 43, 8, 22, 15, 11], 6, &43),
    ];
    for (input, order, item) in test_data {
        let ret_val = *d_selection(input, order);
        assert_eq!(*item, ret_val);
        assert_eq!(&input[order - 1], item);
    }
}

#[test]
fn mod_test_random_selection() {
    let test_data: [(&mut [u32], usize, &u32); 6] = [
        (&mut [23, 43, 8, 22, 15, 11], 1, &8),
        (&mut [23, 43, 8, 22, 15, 11], 2, &11),
        (&mut [23, 43, 8, 22, 15, 11], 3, &15),
        (&mut [23, 43, 8, 22, 15, 11], 4, &22),
        (&mut [23, 43, 8, 22, 15, 11], 5, &23),
        (&mut [23, 43, 8, 22, 15, 11], 6, &43),
    ];
    for (input, order, item) in test_data {
        let ret_val = *r_selection(input, order);
        assert_eq!(*item, ret_val);
        assert_eq!(&input[order - 1], item);
    }
}

#[test]
fn medians_of_groups_of_five() {
    let v = &mut [9, 1, 8, 2, 7, 3, 6, 4, 5, 0, 10, 11];
    let m = medians_of_medians(v);
    assert_eq!(m, vec![7, 4, 11]);
}

#[test]
fn find_median_is_the_middle_value() {
    let v = &mut [1, 2, 3, 4, 5, 6, 7];
    assert_eq!(find_median(v), 4);
    let v = &mut [7, 1, 6, 2, 5, 3, 4, 8];
    assert_eq!(find_median(v), 4);
    let v = &mut [9];
    assert_eq!(find_median(v), 9);
}
