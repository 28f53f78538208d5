use std::collections::{HashMap, HashSet};
use csx3::graphs::{Graph, NodeType, Edge};
use csx3::graphs::path_search::PathSearch;

#[test]
fn test_bfs_calc_distances() {
    // ( input graph, starting node, array with expected distances)
    let test_data: (Vec<Vec<usize>>, usize, Vec<usize>) = (
        vec![
            vec![1, 2, 3],
            vec![2, 4, 5],
            vec![3, 5],
            vec![4, 6],
            vec![5, 7],
            vec![6, 8],
            vec![7, 8],
            vec![8, 1],
        ],
        1,
        vec![0, 1, 1, 2, 2, 3, 3, 4],
    );
    let (inp, start, out) = test_data;
    let g = Graph::import_edges(&inp).expect("couldn't load edges");

    let out = Graph::dist_to_adjacentlist(out);
    let inp = g.calc_distances(start);
    println!("Output: {:?}", inp);
    println!("Expected: {:?}", out);
    assert_eq!(inp, out);
}

#[test]
fn test_path_search_small_graph() {
    // ( input graph, starting node, array with expected distances)
    let test_data: (Vec<Vec<usize>>, usize, Vec<(usize, Option<(Vec<usize>, usize)>)>) = (
        vec![
            vec![1, 2, 3],
            vec![2, 4],
            vec![3, 7],
            vec![4, 6],
            vec![5, 7],
            vec![6, 8],
            vec![7, 8],
            vec![8, 1],
        ],
        1,
        vec![
            (1, Some((vec![1], 0))),
            (2, Some((vec![1, 2], 1))),
            (3, Some((vec![1, 3], 1))),
            (4, Some((vec![1, 2, 4], 2))),
            (5, None),
            (6, Some((vec![1, 2, 4, 6], 3))),
            (7, Some((vec![1, 3, 7], 2))),
            (8, Some((vec![1, 3, 7, 8], 3))),
        ],
    );
    let (inp, start, out) = test_data;
    let g = Graph::import_edges(&inp).expect("couldn't load edges");

    for (goal, exp) in out {
        let out = g.path_distance(start, goal);
        println!("Inp: {start}->{goal} => Output: {:?} / Expected: {:?}", out, exp);
        assert_eq!(out, exp);
    }
}

fn both_ways(list: &[(usize, usize, usize)]) -> Vec<(usize, usize, usize)> {
    let mut out = Vec::new();
    for &(a, b, c) in list {
        out.push((a, b, c));
        out.push((b, a, c));
    }
    out
}

#[test]
fn test_path_shortest_costs() {
    let edges = both_ways(&[(1, 2, 7), (1, 3, 9), (1, 6, 14), (2, 3, 10), (2, 4, 15), (3, 4, 11), (3, 6, 2), (4, 5, 6), (5, 6, 9)]);
    let g = Graph::from_edge_list(&edges);
    assert_eq!(g.path_shortest(1, 1), Some((vec![1], 0)));
    assert_eq!(g.path_shortest(1, 2), Some((vec![1, 2], 7)));
    assert_eq!(g.path_shortest(1, 3), Some((vec![1, 3], 9)));
    assert_eq!(g.path_shortest(1, 4), Some((vec![1, 3, 4], 20)));
    assert_eq!(g.path_shortest(1, 5), Some((vec![1, 3, 6, 5], 20)));
    assert_eq!(g.path_shortest(1, 6), Some((vec![1, 3, 6], 11)));
}

#[test]
fn test_path_shortest_directed_unreachable() {
    // 1 -> 2 -> 3, and 4 -> 1: nothing reaches 4 from 1
    let g = Graph::from_edge_list(&[(1, 2, 5), (2, 3, 1), (4, 1, 2), (1, 3, 10), (3, 2, 1)]);
    assert_eq!(g.path_shortest(1, 3), Some((vec![1, 2, 3], 6)));
    assert_eq!(g.path_shortest(1, 4), None);
    assert_eq!(g.path_distance(1, 3), Some((vec![1, 3], 1)));
}

#[test]
fn test_from_edge_list() {
    let g = Graph::from_edge_list(&[(1, 2, 3), (2, 3, 4), (1, 2, 3)]);
    let mut nodes = g.nodes.clone();
    nodes.sort();
    assert_eq!(nodes, vec![1, 2, 3]);
    assert_eq!(g.edges[&1], vec![NodeType::NC(2, 3)]);
    assert_eq!(g.edges[&2], vec![NodeType::NC(3, 4)]);
    assert!(!g.edges.contains_key(&3));
}

fn sorted_adj(g: &Graph) -> Vec<(usize, Vec<usize>)> {
    let mut out: Vec<(usize, Vec<usize>)> = g.edges.iter()
        .map(|(&k, v)| {
            let mut ends: Vec<usize> = v.iter().map(|nt| nt.node()).collect();
            ends.sort();
            (k, ends)
        })
        .collect();
    out.sort();
    out
}

#[test]
fn test_transpose() {
    let g = Graph::import_edges(&[vec![1, 2, 3], vec![2, 3], vec![3]]).unwrap();
    let t = g.transpose();
    assert_eq!(sorted_adj(&t), vec![(2, vec![1]), (3, vec![1, 2])]);
    let mut nodes = t.nodes.clone();
    nodes.sort();
    assert_eq!(nodes, vec![1, 2, 3]);
}

#[test]
fn test_topological_order() {
    // a directed acyclic graph
    let g = Graph::import_edges(&[
        vec![1, 2, 3],
        vec![2, 4],
        vec![3, 4, 5],
        vec![4, 6],
        vec![5, 6],
        vec![6],
    ]).unwrap();
    let order = g.topological_sort();
    assert_eq!(order.len(), 6);
    let pos = |n: usize| order.iter().position(|&x| x == n).unwrap();
    for (u, ends) in [(1, vec![2, 3]), (2, vec![4]), (3, vec![4, 5]), (4, vec![6]), (5, vec![6])] {
        for v in ends {
            assert!(pos(u) < pos(v), "{u} before {v} in {:?}", order);
        }
    }
}

#[test]
fn test_topological_order_with_cycle() {
    // 1 -> 2 -> 3 -> 1, 3 -> 4: every node listed once
    let g = Graph::import_edges(&[vec![1, 2], vec![2, 3], vec![3, 1, 4], vec![4]]).unwrap();
    let mut order = g.topological_sort();
    let pos4 = order.iter().position(|&x| x == 4).unwrap();
    let pos3 = order.iter().position(|&x| x == 3).unwrap();
    assert!(pos3 < pos4);
    order.sort();
    assert_eq!(order, vec![1, 2, 3, 4]);
}

#[test]
fn test_strongly_connected() {
    let g = Graph::import_edges(&[
        vec![1, 2],
        vec![2, 3],
        vec![3, 1, 4],
        vec![4, 5],
        vec![5, 4],
        vec![6, 5],
    ]).unwrap();
    let mut comps: Vec<Vec<usize>> = g.strongly_connected()
        .into_iter()
        .map(|mut c| { c.sort(); c })
        .collect();
    comps.sort();
    assert_eq!(comps, vec![vec![1, 2, 3], vec![4, 5], vec![6]]);
}

fn min_cut_graph() -> Graph {
    Graph::import_edges(&[
        vec![1, 2, 4, 3],
        vec![2, 3, 1, 4, 5],
        vec![3, 4, 2, 8, 1],
        vec![4, 1, 3, 2],
        vec![5, 6, 8, 7, 2],
        vec![6, 7, 5, 8],
        vec![7, 8, 6, 5],
        vec![8, 5, 3, 7, 6],
    ]).unwrap()
}

#[test]
fn test_export_edges() {
    let g = Graph::import_edges(&[vec![1, 2, 3], vec![2, 1], vec![3]]).unwrap();
    let mut edges = g.export_edges();
    edges.sort_by_key(|e| (e.0, e.1));
    assert_eq!(edges, vec![Edge(1, 2), Edge(1, 3), Edge(2, 1), Edge(3, 1)]);
}

#[test]
fn test_crossing_edges() {
    let g = min_cut_graph();
    let cut = g.get_crossing_edges(&vec![1, 2, 3, 4], &vec![5, 6, 7, 8]);
    let mut edges = cut.export_edges();
    edges.sort_by_key(|e| (e.0, e.1));
    assert_eq!(edges, vec![Edge(2, 5), Edge(3, 8), Edge(5, 2), Edge(8, 3)]);
    assert_eq!(sorted_adj(&cut), vec![(2, vec![5]), (3, vec![8]), (5, vec![2]), (8, vec![3])]);
}

#[test]
fn test_contract_graph_cuts() {
    let g = min_cut_graph();
    let mut best = usize::MAX;
    for _ in 0..300 {
        let cut = g.contract_graph().expect("a connected graph contracts");
        let edges = cut.export_edges().len();
        assert!(edges >= 4);
        assert_eq!(edges % 2, 0);
        best = best.min(edges);
    }
    assert_eq!(best, 4);
}

#[test]
fn test_contract_graph_without_edges() {
    let g = Graph::new();
    assert!(g.contract_graph().is_none());
}

#[test]
fn test_super_edges_and_nodes() {
    let g = Graph::import_edges(&[vec![1, 2, 3, 2], vec![2, 1], vec![3, 1]]).unwrap();
    let se = g.get_super_edges();
    let mut keys = se.nodes.clone();
    keys.sort();
    assert_eq!(keys, vec![1, 2, 3]);
    assert_eq!(se.list[&1].contains(&2), 1);
    assert_eq!(se.list[&1].contains(&3), 1);
    assert_eq!(g.get_super_nodes(), vec![1, 2, 3]);
    let mut se = se;
    se.remove_edge(1, 2);
    assert_eq!(se.list[&1].contains(&2), 0);
    se.move_edges(3, 1);
    assert!(!se.list.contains_key(&3));
    assert_eq!(se.list[&2].contains(&1), 1);
    assert_eq!(se.list[&1].contains(&1), 2);
    assert_eq!(se.list[&1].contains(&3), 0);
}

#[test]
fn test_calc_distances_unreachable() {
    let g = Graph::import_edges(&[vec![1, 2], vec![2, 1], vec![3, 1]]).unwrap();
    let out = g.calc_distances(1);
    let mut expected: HashMap<usize, HashSet<usize>> = HashMap::new();
    expected.insert(0, HashSet::from([1, 3]));
    expected.insert(1, HashSet::from([2]));
    assert_eq!(out, expected);
}

fn adj_set(g: &Graph, u: usize) -> HashSet<NodeType> {
    g.edges.get(&u).map(|l| l.iter().copied().collect()).unwrap_or_default()
}

#[test]
fn import_text_graph_reads_adjacency_lists() {
    let g = Graph::import_text_graph("1\t2\t3\n2\t1\n3\t1\t2\t1\n4\n", '\t', '\0');
    let nodes: HashSet<usize> = g.nodes.iter().copied().collect();
    assert_eq!(nodes, HashSet::from([1, 2, 3, 4]));
    assert_eq!(adj_set(&g, 1), HashSet::from([NodeType::N(2), NodeType::N(3)]));
    assert_eq!(adj_set(&g, 3), HashSet::from([NodeType::N(1), NodeType::N(2)]));
    assert_eq!(g.edges.get(&3).unwrap().len(), 2);
    assert!(g.edges.get(&4).is_none());
    let g = Graph::import_text_graph("1 2,5 3,7\r\n2 1,5\r\n", ' ', ',');
    assert_eq!(adj_set(&g, 1), HashSet::from([NodeType::NC(2, 5), NodeType::NC(3, 7)]));
    assert_eq!(adj_set(&g, 2), HashSet::from([NodeType::NC(1, 5)]));
}

#[test]
fn import_text_graph_refuses_what_does_not_read() {
    assert!(Graph::try_import_text_graph("1\tx\n", '\t', '\0').is_none());
    assert!(Graph::try_import_text_graph("1\t2\t\n", '\t', '\0').is_none());
    assert!(Graph::try_import_text_graph("1 2\n", ' ', ',').is_none());
    assert!(Graph::try_import_text_graph("1 2,5,6\n", ' ', ',').is_none());
    assert!(Graph::try_import_text_graph("1 2\n", ' ', ';').is_none());
    assert!(Graph::try_import_text_graph("1\n\n2\n", ' ', '\0').is_none());
    let g = Graph::try_import_text_graph("7\n", ' ', ';').unwrap();
    assert_eq!(g.nodes, vec![7]);
    let g = Graph::try_import_text_graph("", ' ', '\0').unwrap();
    assert!(g.nodes.is_empty());
}

#[test]
fn cloned_graph_is_the_same() {
    let g = Graph::import_text_graph("1 2 3\n2 3\n", ' ', '\0');
    let h = g.clone();
    assert_eq!(h.nodes, g.nodes);
    assert_eq!(h.edges, g.edges);
}

#[test]
fn test_random_edge_picks_an_edge() {
    let g = Graph::import_edges(&[vec![1, 2, 3], vec![2, 1], vec![3, 1]]).unwrap();
    let se = g.get_super_edges();
    for _ in 0..100 {
        let (u, v) = se.get_random_edge().expect("every group has an edge");
        assert!(se.list[&u].contains(&v) > 0);
    }
}

#[test]
fn test_random_edge_none_only_with_an_empty_group() {
    let g = Graph::import_edges(&[vec![1, 2], vec![2, 1]]).unwrap();
    let mut se = g.get_super_edges();
    se.remove_edge(1, 2);
    let mut seen_none = false;
    for _ in 0..200 {
        match se.get_random_edge() {
            Some((u, v)) => assert_eq!((u, v), (2, 1)),
            None => seen_none = true,
        }
    }
    assert!(seen_none);
}

#[test]
fn path_distance_reaches_a_sink() {
    // node 3 has no edge list of its own
    let mut edges = HashMap::new();
    edges.insert(1usize, vec![NodeType::N(2)]);
    edges.insert(2usize, vec![NodeType::N(3)]);
    let g = Graph { edges, nodes: vec![1, 2, 3] };
    assert_eq!(g.path_distance(1, 3), Some((vec![1, 2, 3], 2)));
    assert_eq!(g.path_distance(3, 1), None);
    assert_eq!(g.path_distance(2, 2), Some((vec![2], 0)));
}

#[test]
fn path_shortest_with_a_large_cost() {
    // the cost is more than half of what a usize holds; no path overflows
    let big = usize::MAX / 2 + 1;
    let g = Graph::from_edge_list(&[(1, 2, big)]);
    assert_eq!(g.path_shortest(1, 2), Some((vec![1, 2], big)));
}
