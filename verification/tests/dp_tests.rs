use csx3::dp::coin::Coins;
use csx3::dp::path::SquareSum;
use csx3::dp::wis::WIS;
use csx3::dp::knap::{KnapSack, Object};
use csx3::dp::{weight_independent_set, extract, parse_graph, wis_to_string};
use csx3::text::IntError;

#[test]
fn test_coins() {
    let data = [
        (vec![1, 2, 3, 5], 19, 5),
        (vec![1, 2, 3, 5], 7, 2),
        (vec![1, 2, 3], 11, 4),
        (vec![1, 3, 5], 16, 4),
        (vec![1, 2, 3, 5, 10, 50], 139, 8),
    ];
    for (set, sum, res) in data {
        let mut coins = Coins::default();
        let n = coins.recursive(sum, &set);
        assert_eq!(n, res);

        let coins = Coins::iterative(sum, &set);
        assert_eq!(coins.get_coins_num(), res);
    }
}

#[test]
fn test_combinations() {
    let (set, sum, res) = (vec![1, 3, 5], 8, 5);
    let mut coins = Coins::default();
    coins.combinations(sum, &set);
    assert_eq!(res, coins.combos.as_ref().unwrap().len());
}

#[test]
fn coins_read_back() {
    let coins = Coins::iterative(7, &[1, 2, 3, 5]);
    let back = coins.get_coins();
    assert_eq!(back.iter().sum::<usize>(), 7);
    assert_eq!(back.len(), coins.get_coins_num());
    assert_eq!(back, vec![2, 5]);
    let mut c = Coins::default();
    assert_eq!(c.combinations(4, &[1, 2]), 5);
    assert_eq!(c.combos.as_ref().unwrap().len(), 3);
}

#[test]
fn test_max_sum_of_squares() {
    let data = vec![
        (vec![vec![2, 3, 4], vec![1, 5, 4], vec![6, 1, 2]], 16),
        (vec![vec![2, 3, 4, 1], vec![1, 4, 5, 4], vec![6, 4, 1, 2], vec![3, 1, 3, 2]], 22),
        (vec![vec![3, 7, 9, 2, 7], vec![9, 8, 3, 5, 5], vec![1, 7, 9, 8, 5], vec![3, 8, 6, 4, 10], vec![6, 3, 9, 7, 8]], 67),
    ];
    for (path, res) in data {
        let ss = SquareSum::new(&path);
        assert_eq!(ss.sum(), res);
        assert_eq!(ss.path().iter().sum::<usize>(), res);
    }
}

#[test]
fn mod_test_wis() {
    let data: Vec<(Vec<usize>, usize)> = vec![
        (vec![1, 4, 5, 4], 8),
        (vec![10, 280, 618, 762, 908, 409, 34, 59, 277, 246, 779], 2626),
        (vec![10, 460, 250, 730, 63, 379, 638, 122, 435, 705, 84], 2533),
    ];
    for (g, res) in data {
        let set = weight_independent_set(&g);
        assert_eq!(set.0, res);
    }
}

#[test]
fn wis_test_wis() {
    let data: Vec<(Vec<usize>, usize)> = vec![
        (vec![1, 4, 5, 4], 8),
        (vec![3, 4, 6, 4], 9),
        (vec![10, 280, 618, 762, 908, 409, 34, 59, 277, 246, 779], 2626),
        (vec![10, 460, 250, 730, 63, 379, 638, 122, 435, 705, 84], 2533),
    ];
    for (g, res) in data {
        let wis = WIS::new(&g);
        assert_eq!(wis.weight(), res);
    }
}

#[test]
fn test_recursive() {
    let data = [
        (vec![1, 4, 5, 4], 8),
        (vec![10, 280, 618, 762, 908, 409, 34, 59, 277, 246, 779], 2626),
    ];
    for (set, res) in data {
        assert_eq!(WIS::recursive(&set), res);
    }
}

#[test]
fn wis_positions() {
    let g = vec![1, 4, 5, 4];
    let wis = WIS::new(&g);
    assert_eq!(wis.positions_in_set(), vec![false, true, false, true]);
    let sol = vec![0, 1, 4, 6, 8];
    assert_eq!(extract(&sol, &g), vec![false, true, false, true]);
}

#[test]
fn knapsack_small() {
    let list = vec![
        Object { value: 3, weight: 4 },
        Object { value: 2, weight: 3 },
        Object { value: 4, weight: 2 },
        Object { value: 4, weight: 3 },
    ];
    let ks = KnapSack::new(&list, 6);
    assert_eq!(ks.max_value(), 8);
    assert_eq!(ks.positions(), vec![true, true, false, false]);
    let values: Vec<usize> = ks.elements().iter().map(|o| o.value).collect();
    assert_eq!(values, vec![4, 4]);
}

#[test]
fn parse_graph_reads_count_then_numbers() {
    assert_eq!(parse_graph("4\n1\n4\n5\n4\n"), Some(vec![1, 4, 5, 4]));
    assert_eq!(parse_graph("2\r\n7\r\n8\r\n9\r\n"), Some(vec![7, 8]));
    assert_eq!(parse_graph("0"), Some(vec![]));
    assert_eq!(parse_graph("3\n1\n2\n"), None);
    assert_eq!(parse_graph("2\n1\nx\n"), None);
    assert_eq!(parse_graph("2 \n1\n2\n"), None);
    assert_eq!(parse_graph(""), None);
    assert_eq!(WIS::parse_graph("3\n10\n20\n30"), Some(vec![10, 20, 30]));
}

#[test]
fn parsed_weights_give_the_heaviest_set() {
    let g = WIS::parse_graph("11\n10\n280\n618\n762\n908\n409\n34\n59\n277\n246\n779\n").unwrap();
    let wis = WIS::new(&g);
    assert_eq!(wis.weight(), 2626);
    let ones = wis.to_binary_string().chars().filter(|&c| c == '1').count();
    assert!(ones > 0);
}

#[test]
fn positions_as_bits() {
    assert_eq!(wis_to_string(&[true, false, true]), "101");
    assert_eq!(wis_to_string(&[]), "");
    let g = vec![1, 4, 5, 4];
    let wis = WIS::new(&g);
    assert_eq!(wis.to_binary_string(), "0101");
}

#[test]
fn knapsack_parse_reads_capacity_and_items() {
    let (cap, list) = KnapSack::parse("6 4\n3 4\n2 3\n4 2\n4 3\n").unwrap().unwrap();
    assert_eq!(cap, 6);
    let pairs: Vec<(usize, usize)> = list.iter().map(|o| (o.value, o.weight)).collect();
    assert_eq!(pairs, vec![(3, 4), (2, 3), (4, 2), (4, 3)]);
    let ks = KnapSack::new(&list, cap);
    assert_eq!(ks.max_value(), 8);
    let (cap, list) = KnapSack::parse("+5 0").unwrap().unwrap();
    assert_eq!(cap, 5);
    assert!(list.is_empty());
}

#[test]
fn knapsack_parse_errors() {
    assert_eq!(KnapSack::parse("6 x\n").unwrap().err(), Some(IntError::InvalidDigit));
    assert_eq!(KnapSack::parse("6 2\n1 99999999999999999999999\n").unwrap().err(), Some(IntError::PosOverflow));
    assert_eq!(KnapSack::parse("6 2\n\n1 1\n").unwrap().err(), Some(IntError::Empty));
    assert_eq!(KnapSack::parse("x\n").unwrap().err(), Some(IntError::InvalidDigit));
    assert!(KnapSack::parse("").is_none());
    assert!(KnapSack::parse("6\n").is_none());
    assert!(KnapSack::parse("6 2\n1 2\n3\n").is_none());
    assert_eq!(KnapSack::parse("6 2\nz\n3\n").unwrap().err(), Some(IntError::InvalidDigit));
}
