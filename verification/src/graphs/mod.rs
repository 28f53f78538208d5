//! Directed graphs as adjacency lists, with breadth first distances, path
//! searches, strongly connected components, topological order and random
//! contraction cuts.
pub mod bfs;
pub mod path_search;
mod cost_search;
pub mod scc;
pub mod min_cut;
pub mod import;

use vstd::prelude::*;
use std::collections::HashMap;

verus! {

broadcast use vstd::std_specs::hash::group_hash_axioms;

/// The far end of an edge: a node, or a node with the cost of reaching it.
#[derive(Debug, Clone, Copy, PartialEq, Eq, Structural, Hash)]
pub enum NodeType {
    N(usize),
    NC(usize, usize),
}

impl NodeType {
    /// The node at the far end.
    pub open spec fn spec_node(self) -> usize {
        match self {
            NodeType::N(n) => n,
            NodeType::NC(n, _) => n,
        }
    }

    /// Returns the node at the far end.
    pub fn node(&self) -> (n: usize)
        ensures
            n == self.spec_node(),
    {
        match self {
            NodeType::N(n) => *n,
            NodeType::NC(n, _) => *n,
        }
    }
}

/// An edge between two nodes.
#[derive(Debug, Clone, Copy, PartialEq, Eq, Structural, Hash)]
pub struct Edge(pub usize, pub usize);

/// The error type of building a graph from edge lists.
#[verifier::external_type_specification]
#[verifier::external_body]
pub struct ExFmtError(std::fmt::Error);

/// Some row of the list starts with `n`.
pub open spec fn row_node(list: Seq<Vec<usize>>, n: usize) -> bool {
    exists|i: int| 0 <= i < list.len() && (#[trigger] list[i])@[0] == n
}

/// Some row of the list starts with `u` and holds `v` further on.
pub open spec fn row_edge(list: Seq<Vec<usize>>, u: usize, v: usize) -> bool {
    exists|i: int, k: int| 0 <= i < list.len() && 1 <= k < (#[trigger] list[i])@.len()
        && list[i]@[0] == u && #[trigger] list[i]@[k] == v
}

/// The triple's source or destination is `n`.
pub open spec fn edge_ends(e: (usize, usize, usize), n: usize) -> bool {
    e.0 == n || e.1 == n
}

/// No item occurs twice.
pub open spec fn distinct<A>(s: Seq<A>) -> bool {
    forall|a: int, b: int| 0 <= a < b < s.len() ==> #[trigger] s[a] != #[trigger] s[b]
}

/// Pushing an item that is not there keeps the items distinct and adds it
/// to their set.
pub proof fn lemma_push_to_set<A>(s: Seq<A>, x: A)
    ensures
        s.push(x).to_set() == s.to_set().insert(x),
        distinct(s) && !s.contains(x) ==> distinct(s.push(x)),
{
    assert forall|y: A| #[trigger] s.push(x).contains(y) <==> (s.contains(y) || y == x) by {
        if s.contains(y) {
            let k = choose|k: int| 0 <= k < s.len() && s[k] == y;
            assert(s.push(x)[k] == y);
        }
        if y == x {
            assert(s.push(x)[s.len() as int] == y);
        }
        if s.push(x).contains(y) {
            let k = choose|k: int| 0 <= k < s.push(x).len() && s.push(x)[k] == y;
            if k < s.len() {
                assert(s[k] == y);
            }
        }
    }
    assert(s.push(x).to_set() =~= s.to_set().insert(x));
    if distinct(s) && !s.contains(x) {
        assert forall|a: int, b: int| 0 <= a < b < s.push(x).len() implies #[trigger] s.push(x)[a] != #[trigger] s.push(x)[b] by {
            if b == s.len() {
                assert(s[a] == s.push(x)[a]);
            }
        }
    }
}

/// A graph: for each node with edges, the far ends of its edges; and the
/// nodes, each once.
#[derive(Debug)]
pub struct Graph {
    pub edges: HashMap<usize, Vec<NodeType>>,
    pub nodes: Vec<usize>,
}

impl Graph {
    /// The far ends of the edges leaving `u`.
    pub open spec fn adj(&self, u: usize) -> Seq<NodeType> {
        if self.edges@.contains_key(u) { self.edges@[u]@ } else { Seq::empty() }
    }

    /// There is an edge from `u` to `v`.
    pub open spec fn has_edge(&self, u: usize, v: usize) -> bool {
        exists|k: int| 0 <= k < self.adj(u).len() && (#[trigger] self.adj(u)[k]).spec_node() == v
    }

    /// Nodes and edge lists hold no item twice.
    pub open spec fn wf(&self) -> bool {
        &&& distinct(self.nodes@)
        &&& forall|u: usize| #[trigger] self.edges@.contains_key(u) ==> distinct(self.edges@[u]@)
    }

    /// An empty graph.
    pub fn new() -> (g: Graph)
        ensures
            g.wf(),
            g.nodes@ == Seq::<usize>::empty(),
            g.edges@ == Map::<usize, Vec<NodeType>>::empty(),
    {
        Graph { edges: HashMap::new(), nodes: Vec::new() }
    }

    /// Every node with edges is one of the graph's nodes.
    pub open spec fn keys_are_nodes(&self) -> bool {
        forall|u: usize| #[trigger] self.edges@.contains_key(u) ==> self.nodes@.contains(u)
    }

    /// Builds a graph from rows of a source node followed by the nodes its
    /// edges lead to.
    pub fn import_edges(list: &[Vec<usize>]) -> (r: Result<Graph, std::fmt::Error>)
        requires
            forall|i: int| 0 <= i < list@.len() ==> (#[trigger] list@[i])@.len() > 0,
        ensures
            r is Ok,
            r matches Ok(g) ==> {
                &&& g.wf()
                &&& g.keys_are_nodes()
                &&& forall|n: usize| #[trigger] g.nodes@.contains(n) <==> row_node(list@, n)
                &&& forall|u: usize, nt: NodeType| #[trigger] g.adj(u).contains(nt) <==>
                    (nt is N && row_edge(list@, u, nt.spec_node()))
            },
    {
        let mut graph = Graph::new();
        let mut i: usize = 0;
        while i < list.len()
            invariant
                i <= list@.len(),
                forall|q: int| 0 <= q < list@.len() ==> (#[trigger] list@[q])@.len() > 0,
                graph.wf(),
                graph.keys_are_nodes(),
                forall|n: usize| #[trigger] graph.nodes@.contains(n) <==> row_node(list@.take(i as int), n),
                forall|u: usize, nt: NodeType| #[trigger] graph.adj(u).contains(nt) <==>
                    (nt is N && row_edge(list@.take(i as int), u, nt.spec_node())),
            decreases list@.len() - i,
        {
            let row = &list[i];
            let src = row[0];
            let ghost pre = list@.take(i as int);
            let ghost cur = list@.take(i + 1);
            assert(cur[i as int] == *row);
            let ghost ga = graph;
            graph.add_node(src);
            assert forall|u: usize, nt: NodeType| #[trigger] graph.adj(u).contains(nt) <==>
                (nt is N && row_edge(pre, u, nt.spec_node())) by {
                assert(graph.adj(u) == ga.adj(u));
                assert(ga.adj(u).contains(nt) <==> (nt is N && row_edge(pre, u, nt.spec_node())));
            }
            proof {
                assert forall|n: usize| #[trigger] graph.nodes@.contains(n) <==> row_node(cur, n) by {
                    if graph.nodes@.contains(n) && n != src {
                        assert(graph.nodes@.to_set().contains(n));
                        assert(row_node(pre, n));
                        let q = choose|q: int| 0 <= q < pre.len() && (#[trigger] pre[q])@[0] == n;
                        assert(cur[q] == pre[q]);
                    }
                    if row_node(cur, n) {
                        let q = choose|q: int| 0 <= q < cur.len() && (#[trigger] cur[q])@[0] == n;
                        if q < i {
                            assert(pre[q] == cur[q]);
                            assert(graph.nodes@.to_set().contains(n));
                        } else {
                            assert(graph.nodes@.to_set().contains(n));
                        }
                    }
                    if n == src {
                        assert(graph.nodes@.to_set().contains(n));
                    }
                }
            }
            let mut k: usize = 1;
            while k < row.len()
                invariant
                    1 <= k <= row@.len(),
                    src == row@[0],
                    graph.wf(),
                    graph.keys_are_nodes(),
                    graph.nodes@.contains(src),
                    forall|n: usize| #[trigger] graph.nodes@.contains(n) <==> row_node(cur, n),
                    forall|u: usize, nt: NodeType| #[trigger] graph.adj(u).contains(nt) <==>
                        (nt is N && (row_edge(pre, u, nt.spec_node())
                        || (u == src && exists|m: int| 1 <= m < k && #[trigger] row@[m] == nt.spec_node()))),
                decreases row@.len() - k,
            {
                let ghost g0 = graph.adj(src);
                let ghost d0 = graph.edges@.dom();
                graph.add_edge(src, NodeType::N(row[k]));
                proof {
                    assert forall|nt: NodeType| #[trigger] graph.adj(src).contains(nt) <==> g0.contains(nt) || nt == NodeType::N(row@[k as int]) by {
                        assert(graph.adj(src).to_set().contains(nt) == graph.adj(src).contains(nt));
                    }
                    assert forall|u: usize| #[trigger] graph.edges@.contains_key(u) implies graph.nodes@.contains(u) by {
                        assert(d0.contains(u) || u == src);
                    }
                }
                k = k + 1;
            }
            proof {
                assert forall|u: usize, nt: NodeType| #[trigger] graph.adj(u).contains(nt) <==>
                    (nt is N && row_edge(cur, u, nt.spec_node())) by {
                    if nt is N && row_edge(cur, u, nt.spec_node()) {
                        let (q, m) = choose|q: int, m: int| 0 <= q < cur.len() && 1 <= m < (#[trigger] cur[q])@.len()
                            && cur[q]@[0] == u && #[trigger] cur[q]@[m] == nt.spec_node();
                        if q < i {
                            assert(pre[q] == cur[q]);
                            assert(row_edge(pre, u, nt.spec_node()));
                        } else {
                            assert(row@[m] == nt.spec_node());
                        }
                    }
                    if row_edge(pre, u, nt.spec_node()) {
                        let (q, m) = choose|q: int, m: int| 0 <= q < pre.len() && 1 <= m < (#[trigger] pre[q])@.len()
                            && pre[q]@[0] == u && #[trigger] pre[q]@[m] == nt.spec_node();
                        assert(cur[q] == pre[q]);
                        assert(row_edge(cur, u, nt.spec_node()));
                    }
                    if u == src && exists|m: int| 1 <= m < row@.len() && #[trigger] row@[m] == nt.spec_node() {
                        let m = choose|m: int| 1 <= m < row@.len() && #[trigger] row@[m] == nt.spec_node();
                        assert(cur[i as int]@[m] == nt.spec_node());
                        assert(row_edge(cur, u, nt.spec_node()));
                    }
                }
            }
            i = i + 1;
        }
        assert(list@.take(list@.len() as int) =~= list@);
        Ok(graph)
    }

    /// Builds a graph from (source, destination, cost) triples: an edge
    /// with its cost from each source to its destination.
    pub fn from_edge_list(edge_list: &[(usize, usize, usize)]) -> (g: Graph)
        ensures
            g.wf(),
            g.keys_are_nodes(),
            forall|n: usize| #[trigger] g.nodes@.contains(n) <==> exists|i: int| 0 <= i < edge_list@.len()
                && #[trigger] edge_ends(edge_list@[i], n),
            forall|u: usize, nt: NodeType| #[trigger] g.adj(u).contains(nt) <==> exists|i: int| 0 <= i < edge_list@.len()
                && #[trigger] edge_list@[i].0 == u && nt == NodeType::NC(edge_list@[i].1, edge_list@[i].2),
    {
        let mut g = Graph::new();
        let mut i: usize = 0;
        while i < edge_list.len()
            invariant
                i <= edge_list@.len(),
                g.wf(),
                g.keys_are_nodes(),
                forall|n: usize| #[trigger] g.nodes@.contains(n) <==> exists|q: int| 0 <= q < i
                    && #[trigger] edge_ends(edge_list@[q], n),
                forall|u: usize, nt: NodeType| #[trigger] g.adj(u).contains(nt) <==> exists|q: int| 0 <= q < i
                    && #[trigger] edge_list@[q].0 == u && nt == NodeType::NC(edge_list@[q].1, edge_list@[q].2),
            decreases edge_list@.len() - i,
        {
            let (src, dst, cost) = edge_list[i];
            let ghost g0 = g;
            g.add_edge(src, NodeType::NC(dst, cost));
            let ghost g1 = g;
            g.add_node(src);
            g.add_node(dst);
            proof {
                assert(edge_list@[i as int] == (src, dst, cost));
                assert forall|n: usize| #[trigger] g.nodes@.contains(n) <==> exists|q: int| 0 <= q < i + 1
                    && #[trigger] edge_ends(edge_list@[q], n) by {
                    assert(g.nodes@.to_set().contains(n) == g.nodes@.contains(n));
                    assert(g0.nodes@.to_set().contains(n) == g0.nodes@.contains(n));
                    assert(g1.nodes@ == g0.nodes@);
                    if n == src || n == dst {
                        assert(edge_ends(edge_list@[i as int], n));
                    }
                    if exists|q: int| 0 <= q < i + 1 && #[trigger] edge_ends(edge_list@[q], n) {
                        let q = choose|q: int| 0 <= q < i + 1 && #[trigger] edge_ends(edge_list@[q], n);
                        if q < i {
                            assert(g0.nodes@.contains(n));
                        }
                    }
                }
                assert forall|u: usize, nt: NodeType| #[trigger] g.adj(u).contains(nt) <==> exists|q: int| 0 <= q < i + 1
                    && #[trigger] edge_list@[q].0 == u && nt == NodeType::NC(edge_list@[q].1, edge_list@[q].2) by {
                    assert(g.adj(u) == g1.adj(u));
                    if u == src {
                        assert(g1.adj(src).to_set().contains(nt) == g1.adj(src).contains(nt));
                        assert(g0.adj(src).to_set().contains(nt) == g0.adj(src).contains(nt));
                    }
                    if exists|q: int| 0 <= q < i + 1 && #[trigger] edge_list@[q].0 == u && nt == NodeType::NC(edge_list@[q].1, edge_list@[q].2) {
                        let q = choose|q: int| 0 <= q < i + 1 && #[trigger] edge_list@[q].0 == u && nt == NodeType::NC(edge_list@[q].1, edge_list@[q].2);
                        if q < i {
                            assert(g0.adj(u).contains(nt));
                        }
                    }
                }
                assert forall|u: usize| #[trigger] g.edges@.contains_key(u) implies g.nodes@.contains(u) by {
                    assert(g.nodes@.to_set().contains(u) == g.nodes@.contains(u));
                    assert(g0.nodes@.to_set().contains(u) == g0.nodes@.contains(u));
                    if u != src {
                        assert(g0.edges@.contains_key(u));
                    }
                }
            }
            i = i + 1;
        }
        g
    }

    /// Adds a node unless it is there already.
    pub fn add_node(&mut self, n: usize)
        requires
            old(self).wf(),
        ensures
            final(self).wf(),
            final(self).edges@ == old(self).edges@,
            final(self).nodes@.to_set() == old(self).nodes@.to_set().insert(n),
            old(self).nodes@.contains(n) ==> final(self).nodes@ == old(self).nodes@,
            !old(self).nodes@.contains(n) ==> final(self).nodes@ == old(self).nodes@.push(n),
    {
        let mut k: usize = 0;
        while k < self.nodes.len()
            invariant
                self.wf(),
                self.edges@ == old(self).edges@,
                self.nodes@ == old(self).nodes@,
                k <= self.nodes@.len(),
                forall|q: int| 0 <= q < k ==> self.nodes@[q] != n,
            decreases self.nodes@.len() - k,
        {
            if self.nodes[k] == n {
                assert(self.nodes@.to_set() =~= self.nodes@.to_set().insert(n));
                return;
            }
            k = k + 1;
        }
        let ghost n0 = self.nodes@;
        assert(!n0.contains(n));
        self.nodes.push(n);
        proof {
            lemma_push_to_set(n0, n);
        }
    }

    /// Adds an edge from `src` to `dst` unless it is there already.
    pub fn add_edge(&mut self, src: usize, dst: NodeType)
        requires
            old(self).wf(),
        ensures
            final(self).wf(),
            final(self).nodes@ == old(self).nodes@,
            final(self).edges@.dom() == old(self).edges@.dom().insert(src),
            forall|u: usize| u != src ==> #[trigger] final(self).adj(u) == old(self).adj(u),
            final(self).adj(src).to_set() == old(self).adj(src).to_set().insert(dst),
            old(self).adj(src).contains(dst) ==> final(self).adj(src) == old(self).adj(src),
            !old(self).adj(src).contains(dst) ==> final(self).adj(src) == old(self).adj(src).push(dst),
    {
        let ghost a0 = self.adj(src);
        let mut list = match self.edges.remove(&src) {
            Some(l) => l,
            None => Vec::new(),
        };
        assert(list@ == a0);
        let mut k: usize = 0;
        let mut found = false;
        while k < list.len()
            invariant
                k <= list@.len(),
                list@ == a0,
                found == exists|q: int| 0 <= q < k && list@[q] == dst,
            decreases list@.len() - k,
        {
            if list[k] == dst {
                found = true;
            }
            k = k + 1;
        }
        if !found {
            list.push(dst);
            proof {
                lemma_push_to_set(a0, dst);
            }
        } else {
            assert(list@.to_set() =~= a0.to_set().insert(dst));
        }
        self.edges.insert(src, list);
        proof {
            assert(self.edges@.dom() =~= old(self).edges@.dom().insert(src));
        }
    }
}

impl Clone for Graph {
    /// A copy with the same edge lists and nodes.
    fn clone(&self) -> (g: Graph)
        ensures
            g.edges@ == self.edges@,
            g.nodes@ == self.nodes@,
    {
        let nodes = self.nodes.clone();
        assert(nodes@ =~= self.nodes@);
        Graph { edges: self.edges.clone(), nodes }
    }
}

} // verus!
