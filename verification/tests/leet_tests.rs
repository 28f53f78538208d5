use csx3::leet::{is_subsequence_v1, is_subsequence_v2, num_matching_subseq};

#[test]
fn test_is_subsequence() {
    let data = vec![
        ("abc", "ahbgdc", true),
        ("axc", "ahxgdc", true),
        ("acx", "ahxgdc", false),
        ("axc", "ahbgdc", false),
    ];
    for (s, t, result) in data {
        assert_eq!(is_subsequence_v1(s, t), result);
        assert_eq!(is_subsequence_v2(s, t), result);
    }
}

#[test]
fn test_num_matching_subseq() {
    let data: Vec<(&[&str], &str, i32)> = vec![
        (&["a", "bb", "acd", "ace"], "abcde", 3),
        (&["ahjpjau", "ja", "ahbwzgqnuk", "tnmlanowax"], "dsahjpjauf", 2),
    ];
    for (s, t, result) in data {
        assert_eq!(num_matching_subseq(t, s), result);
    }
}

#[test]
fn subsequence_edges() {
    assert!(is_subsequence_v1("", ""));
    assert!(is_subsequence_v2("", "abc"));
    assert!(!is_subsequence_v2("a", ""));
    assert!(is_subsequence_v1("é", "xé"));
}
