use csx3::graphs::{Graph, NodeType};
use csx3::greedy::Edge;
use csx3::greedy::mst::{MinimumSpanningTree, MstAlgo};

fn weighted(list: &[(usize, usize, usize)]) -> Graph {
    let mut g = Graph::new();
    for &(a, b, c) in list {
        g.push_edge(Edge(a, NodeType::NC(b, c)));
    }
    g
}

fn sample() -> Graph {
    weighted(&[(1, 2, 1), (2, 3, 2), (3, 4, 3), (1, 4, 4), (1, 3, 5), (4, 5, 7), (2, 5, 8)])
}

#[test]
fn test_push_edge_both_ways() {
    let g = weighted(&[(1, 2, 7)]);
    assert_eq!(g.edges[&1], vec![NodeType::NC(2, 7)]);
    assert_eq!(g.edges[&2], vec![NodeType::NC(1, 7)]);
    let mut nodes = g.nodes.clone();
    nodes.sort();
    assert_eq!(nodes, vec![1, 2]);
}

#[test]
fn test_sum_edges() {
    let g = sample();
    assert_eq!(g.sum_edges(), 1 + 2 + 3 + 4 + 5 + 7 + 8);
}

#[test]
fn test_get_edges_by_cost() {
    let g = sample();
    let edges = g.get_edges_by_cost();
    assert_eq!(edges.len(), 14);
    let costs: Vec<usize> = edges.iter().map(|e| e.1.cost()).collect();
    assert_eq!(costs, vec![1, 1, 2, 2, 3, 3, 4, 4, 5, 5, 7, 7, 8, 8]);
}

#[test]
fn test_mst_kruska() {
    let g = sample();
    let tree = g.mst_kruska().expect("the graph is connected");
    assert_eq!(tree.sum_edges(), 1 + 2 + 3 + 7);
    let mut nodes = tree.nodes.clone();
    nodes.sort();
    assert_eq!(nodes, vec![1, 2, 3, 4, 5]);
}

#[test]
fn test_mst_prim() {
    let g = sample();
    let tree = g.mst_prim().expect("the graph is connected");
    assert_eq!(tree.sum_edges(), 1 + 2 + 3 + 7);
    let tree = g.min_spanning_tree(MstAlgo::Prim).unwrap();
    assert_eq!(tree.sum_edges(), 13);
    let tree = g.min_spanning_tree(MstAlgo::Kruskal).unwrap();
    assert_eq!(tree.sum_edges(), 13);
}

#[test]
fn test_mst_disconnected() {
    let g = weighted(&[(1, 2, 1), (3, 4, 1)]);
    assert!(g.mst_kruska().is_none());
    assert!(g.mst_prim().is_none());
}

#[test]
fn test_find_clusters() {
    // two tight groups {1, 2, 3} and {4, 5}, far apart
    let g = weighted(&[(1, 2, 1), (2, 3, 1), (1, 3, 2), (4, 5, 1), (3, 4, 10), (2, 5, 12)]);
    let cs = g.find_clusters(2).expect("connected");
    assert_eq!(cs.clusters[0], cs.clusters[1]);
    assert_eq!(cs.clusters[1], cs.clusters[2]);
    assert_eq!(cs.clusters[3], cs.clusters[4]);
    assert_ne!(cs.clusters[0], cs.clusters[3]);
    let e = cs.spacing();
    assert_eq!(e.1.cost(), 10);
    assert_eq!(cs.crossing_edges().len(), 2);
}

#[test]
fn load_file_mst_adds_listed_edges_both_ways() {
    let mut g = Graph::new();
    assert!(g.load_file_mst("3 2\n1 2 5\n2 3 7\n"));
    assert_eq!(g.sum_edges(), 12);
    let mut nodes = g.nodes.clone();
    nodes.sort();
    assert_eq!(nodes, vec![1, 2, 3]);
    assert_eq!(g.edges.get(&2).unwrap().len(), 2);
    assert!(g.edges.get(&3).unwrap().contains(&NodeType::NC(2, 7)));
    let tree = g.mst_kruska().unwrap();
    assert_eq!(tree.sum_edges(), 12);
}

#[test]
fn load_file_mst_refuses_a_bad_line() {
    let mut g = Graph::new();
    assert!(g.load_file_mst("2 1\n1 2 5\n"));
    assert!(!g.load_file_mst("1 1\n3 4\n"));
    assert!(!g.load_file_mst("1 1\n3 4 x\n"));
    assert_eq!(g.sum_edges(), 5);
    assert_eq!(g.nodes.len(), 2);
    let mut empty = Graph::new();
    assert!(empty.load_file_mst(""));
    assert!(empty.nodes.is_empty());
}

#[test]
fn spanning_trees_have_one_edge_fewer_than_nodes() {
    let g = sample();
    for tree in [g.mst_prim().unwrap(), g.mst_kruska().unwrap()] {
        let listed: usize = tree.edges.values().map(|l| l.len()).sum();
        assert_eq!(listed, 2 * (5 - 1));
    }
}

#[test]
fn prim_on_nodes_not_numbered_from_one_and_with_a_loop() {
    // nodes 10, 20, 30, 40 and a loop at the first node
    let g = weighted(&[(10, 10, 0), (10, 20, 4), (20, 30, 1), (30, 40, 2), (10, 40, 3), (20, 40, 9)]);
    let tree = g.mst_prim().expect("the graph is connected");
    assert_eq!(tree.sum_edges(), 1 + 2 + 3);
    let listed: usize = tree.edges.values().map(|l| l.len()).sum();
    assert_eq!(listed, 2 * (4 - 1));
    assert!(tree.edges.values().all(|l| l.iter().all(|nt| nt.cost() > 0)));
}
