use csx3::hash_heap::{two_sum, two_sum_all, three_sum};

#[test]
fn test_2_sum() {
    let data = vec![
        (vec![2, 7, 11, 15], 9, vec![0, 1]),
        (vec![3, 2, 4], 6, vec![1, 2]),
        (vec![3, 3], 6, vec![0, 1]),
    ];
    for (nums, target, res) in data {
        assert_eq!(two_sum(&nums, target), Some(res))
    }
}

#[test]
fn test_2_sum_all() {
    let data = vec![
        (vec![1, 6, 2, 8, 1, 5, 3, 7, 11, 15], 9, vec![[0, 3], [3, 4], [1, 6], [2, 7]]),
        (vec![3, 2, 4], 6, vec![[1, 2]]),
        (vec![3, 3], 6, vec![[0, 1]]),
    ];
    for (nums, target, res) in data {
        assert_eq!(two_sum_all(&nums, target), res)
    }
}

#[test]
fn test_3_sum() {
    let data = [
        (vec![-1, 0, 1, 2, -1, -4], vec![[-1, -1, 2], [-1, 0, 1]]),
        (vec![0, 1, 1], vec![]),
        (vec![0, 0, 0], vec![[0, 0, 0]]),
        (vec![1, 2, -2, -1], vec![]),
        (vec![-1, 0, 1, 2, -1, -4, -2, -3, 3, 0, 4], vec![[-4, 0, 4], [-4, 1, 3], [-3, -1, 4], [-3, 0, 3], [-3, 1, 2], [-2, -1, 3], [-2, 0, 2], [-1, -1, 2], [-1, 0, 1]]),
    ];
    for (inp, res) in data.into_iter() {
        let out = three_sum(inp);
        assert_eq!(out, res);
    }
}

#[test]
fn two_sum_none_and_repeats() {
    assert_eq!(two_sum(&vec![1, 2, 3], 100), None);
    assert_eq!(two_sum(&vec![], 0), None);
    // every pair, ordered by its second index and then by its first
    assert_eq!(two_sum_all(&vec![4, 4, 4], 8), vec![vec![0, 1], vec![0, 2], vec![1, 2]]);
    assert_eq!(two_sum_all(&vec![1, 1, 8], 9), vec![vec![0, 2], vec![1, 2]]);
    // the first pair closes with the last earlier index holding the missing value
    assert_eq!(two_sum(&vec![1, 1, 8], 9), Some(vec![1, 2]));
}
