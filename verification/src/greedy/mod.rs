//! Greedy algorithms over graphs whose edges carry costs: minimum spanning
//! trees and clusterings.
pub mod mst;
pub mod cluster;

use vstd::prelude::*;
use vstd::multiset::Multiset;
use crate::graphs::{Graph, NodeType};
use crate::text::{reads, value, fields, lines, views, chars_of, split_lines, split_fields, read_value};
use mst::lemma_pushed_edges;

verus! {

broadcast use {vstd::std_specs::hash::group_hash_axioms, vstd::seq_lib::group_to_multiset_ensures};

/// An edge from a node to the far end of an edge, with its cost.
#[derive(Debug, Clone, Copy, PartialEq, Eq, Structural, Hash)]
pub struct Edge(pub usize, pub NodeType);

/// The cost an edge carries; none for one without a cost.
pub open spec fn cost_of(nt: NodeType) -> int {
    match nt {
        NodeType::NC(_, c) => c as int,
        NodeType::N(_) => 0,
    }
}

/// The total cost of the edges in a list.
pub open spec fn list_cost(s: Seq<NodeType>) -> int
    decreases s.len(),
{
    if s.len() == 0 { 0 } else { list_cost(s.drop_last()) + cost_of(s.last()) }
}

/// The total cost of the edges out of the nodes of `nodes`.
pub open spec fn nodes_cost(g: Graph, nodes: Seq<usize>) -> int
    decreases nodes.len(),
{
    if nodes.len() == 0 { 0 } else { nodes_cost(g, nodes.drop_last()) + list_cost(g.adj(nodes.last())) }
}

/// Every edge list of the graph is of edges with costs, and not empty.
pub open spec fn costed(g: Graph) -> bool {
    &&& forall|u: usize| #[trigger] g.edges@.contains_key(u) ==> g.adj(u).len() > 0
    &&& forall|u: usize, k: int| 0 <= k < g.adj(u).len() ==> (#[trigger] g.adj(u)[k]) is NC
}

/// Every edge of the graph, from each node of `nodes` with edges, in the
/// order of `nodes` and of each edge list.
pub open spec fn edges_from(g: Graph, nodes: Seq<usize>) -> Seq<Edge>
    decreases nodes.len(),
{
    if nodes.len() == 0 {
        Seq::empty()
    } else {
        edges_from(g, nodes.drop_last()) + g.adj(nodes.last()).map_values(|nt: NodeType| Edge(nodes.last(), nt))
    }
}

/// The cost of an edge.
pub open spec fn edge_cost(e: Edge) -> int {
    cost_of(e.1)
}

/// The edges run by cost, least first.
pub open spec fn by_cost(s: Seq<Edge>) -> bool {
    forall|i: int, j: int| 0 <= i <= j < s.len() ==> edge_cost(#[trigger] s[i]) <= edge_cost(#[trigger] s[j])
}

/// The position of an edge of least cost among `s`.
fn least_cost(s: &Vec<Edge>) -> (best: usize)
    requires
        s@.len() > 0,
    ensures
        best < s@.len(),
        forall|j: int| 0 <= j < s@.len() ==> edge_cost(s@[best as int]) <= edge_cost(#[trigger] s@[j]),
{
    let mut best: usize = 0;
    let mut k: usize = 1;
    while k < s.len()
        invariant
            1 <= k <= s@.len(),
            best < s@.len(),
            forall|j: int| 0 <= j < k ==> edge_cost(s@[best as int]) <= edge_cost(#[trigger] s@[j]),
        decreases s@.len() - k,
    {
        if s[k].1.cost() < s[best].1.cost() {
            best = k;
        }
        k = k + 1;
    }
    best
}

impl NodeType {
    /// The cost of reaching the far end; none for an edge without one.
    pub fn cost(&self) -> (c: usize)
        ensures
            c == cost_of(*self),
    {
        match self {
            NodeType::NC(_, c) => *c,
            NodeType::N(_) => 0,
        }
    }
}

impl Graph {
    /// Half the total cost of the edges: in a graph that holds each edge
    /// both ways, the cost of its edges.
    pub fn sum_edges(&self) -> (c: usize)
        requires
            self.keys_are_nodes(),
            self.wf(),
            costed(*self),
            nodes_cost(*self, self.nodes@) <= usize::MAX,
        ensures
            c == nodes_cost(*self, self.nodes@) / 2,
    {
        let mut total: usize = 0;
        let mut i: usize = 0;
        while i < self.nodes.len()
            invariant
                i <= self.nodes@.len(),
                nodes_cost(*self, self.nodes@) <= usize::MAX,
                total == nodes_cost(*self, self.nodes@.take(i as int)),
            decreases self.nodes@.len() - i,
        {
            let u = self.nodes[i];
            proof {
                assert(self.nodes@.take(i as int + 1).drop_last() =~= self.nodes@.take(i as int));
                lemma_nodes_cost_prefix(*self, self.nodes@, i as int + 1);
                lemma_nodes_cost_nonneg(*self, self.nodes@.take(i as int));
            }
            match self.edges.get(&u) {
                Some(list) => {
                    assert(list@ == self.adj(u));
                    let mut s: usize = 0;
                    let mut k: usize = 0;
                    assert(list@.take(0) =~= Seq::<NodeType>::empty());
                    while k < list.len()
                        invariant
                            list@ == self.adj(u),
                            k <= list@.len(),
                            total + list_cost(list@) <= usize::MAX,
                            s == list_cost(list@.take(k as int)),
                        decreases list@.len() - k,
                    {
                        proof {
                            assert(list@.take(k as int + 1).drop_last() =~= list@.take(k as int));
                            lemma_list_cost_prefix(list@, k as int + 1);
                            lemma_list_cost_nonneg(list@.take(k as int));
                        }
                        s = s + list[k].cost();
                        k = k + 1;
                    }
                    assert(list@.take(list@.len() as int) =~= list@);
                    total = total + s;
                },
                None => {
                    assert(self.adj(u).len() == 0);
                },
            }
            proof {
                assert(self.nodes@.take(i as int + 1).last() == u);
            }
            i = i + 1;
        }
        assert(self.nodes@.take(self.nodes@.len() as int) =~= self.nodes@);
        assert(total >> 1 == total / 2) by (bit_vector);
        total >> 1
    }

    /// Adds an edge both ways: from `edge.0` to the far end with the cost,
    /// and back with the same cost; and the two nodes.
    pub fn push_edge(&mut self, edge: Edge)
        requires
            old(self).wf(),
            edge.1 is NC,
        ensures
            final(self).wf(),
            final(self).nodes@.to_set() == old(self).nodes@.to_set().insert(edge.0).insert(edge.1.spec_node()),
            forall|u: usize| u != edge.0 && u != edge.1.spec_node() ==> #[trigger] final(self).adj(u) == old(self).adj(u),
            edge.0 != edge.1.spec_node() ==> final(self).adj(edge.0).to_set() == old(self).adj(edge.0).to_set().insert(edge.1),
            edge.0 != edge.1.spec_node() ==> final(self).adj(edge.1.spec_node()).to_set()
                == old(self).adj(edge.1.spec_node()).to_set().insert(NodeType::NC(edge.0, edge.1->NC_1)),
            edge.0 == edge.1.spec_node() ==> final(self).adj(edge.0).to_set()
                == old(self).adj(edge.0).to_set().insert(edge.1).insert(NodeType::NC(edge.0, edge.1->NC_1)),
            final(self).edges@.dom() == old(self).edges@.dom().insert(edge.0).insert(edge.1.spec_node()),
            edge.0 != edge.1.spec_node() && !old(self).adj(edge.0).contains(edge.1)
                ==> final(self).adj(edge.0) == old(self).adj(edge.0).push(edge.1),
            edge.0 != edge.1.spec_node() && !old(self).adj(edge.1.spec_node()).contains(NodeType::NC(edge.0, edge.1->NC_1))
                ==> final(self).adj(edge.1.spec_node()) == old(self).adj(edge.1.spec_node()).push(NodeType::NC(edge.0, edge.1->NC_1)),
    {
        let Edge(src, dst) = edge;
        let (d, cost) = match dst {
            NodeType::NC(d, c) => (d, c),
            NodeType::N(d) => (d, 0),
        };
        let ghost g0 = *self;
        self.add_node(src);
        let ghost g1 = *self;
        self.add_edge(src, dst);
        let ghost g2 = *self;
        self.add_node(d);
        let ghost g3 = *self;
        self.add_edge(d, NodeType::NC(src, cost));
        proof {
            assert forall|u: usize| u != src && u != d implies #[trigger] self.adj(u) == g0.adj(u) by {
                assert(self.adj(u) == g3.adj(u));
                assert(g3.adj(u) == g2.adj(u));
                assert(g2.adj(u) == g1.adj(u));
                assert(g1.adj(u) == g0.adj(u));
            }
            assert(g3.adj(d) == g2.adj(d));
            assert(g1.adj(d) == g0.adj(d));
            assert(g3.adj(src) == g2.adj(src));
            assert(g1.adj(src) == g0.adj(src));
            if src != d {
                assert(g2.adj(d) == g1.adj(d));
                assert(self.adj(src) == g3.adj(src));
            }
        }
    }

    /// Every edge, least cost first: each edge list's edges from its node,
    /// as many times as the list holds them.
    pub fn get_edges_by_cost(&self) -> (r: Vec<Edge>)
        requires
            self.keys_are_nodes(),
            self.wf(),
        ensures
            r@.to_multiset() == edges_from(*self, self.nodes@).to_multiset(),
            by_cost(r@),
    {
        // every edge, in the order of the nodes
        let mut pool: Vec<Edge> = Vec::new();
        let mut i: usize = 0;
        while i < self.nodes.len()
            invariant
                i <= self.nodes@.len(),
                pool@ == edges_from(*self, self.nodes@.take(i as int)),
            decreases self.nodes@.len() - i,
        {
            let u = self.nodes[i];
            let ghost p0 = pool@;
            proof {
                assert(self.nodes@.take(i as int + 1).drop_last() =~= self.nodes@.take(i as int));
                assert(self.nodes@.take(i as int + 1).last() == u);
            }
            match self.edges.get(&u) {
                Some(list) => {
                    assert(list@ == self.adj(u));
                    let mut k: usize = 0;
                    while k < list.len()
                        invariant
                            list@ == self.adj(u),
                            k <= list@.len(),
                            pool@ == p0 + list@.take(k as int).map_values(|nt: NodeType| Edge(u, nt)),
                        decreases list@.len() - k,
                    {
                        pool.push(Edge(u, list[k]));
                        k = k + 1;
                        assert(pool@ =~= p0 + list@.take(k as int).map_values(|nt: NodeType| Edge(u, nt)));
                    }
                    assert(list@.take(list@.len() as int) =~= list@);
                },
                None => {
                    assert(self.adj(u).len() == 0);
                    assert(pool@ =~= p0 + self.adj(u).map_values(|nt: NodeType| Edge(u, nt)));
                },
            }
            i = i + 1;
        }
        assert(self.nodes@.take(self.nodes@.len() as int) =~= self.nodes@);
        let ghost all = pool@;
        // take the least cost edge left, one at a time
        let mut r: Vec<Edge> = Vec::new();
        while pool.len() > 0
            invariant
                r@.to_multiset().add(pool@.to_multiset()) == all.to_multiset(),
                by_cost(r@),
                forall|i: int, j: int| 0 <= i < r@.len() && 0 <= j < pool@.len() ==>
                    edge_cost(#[trigger] r@[i]) <= edge_cost(#[trigger] pool@[j]),
            decreases pool@.len(),
        {
            let best = least_cost(&pool);
            let ghost p0 = pool@;
            let ghost r0 = r@;
            let e = pool.remove(best);
            r.push(e);
            proof {
                assert(p0.remove(best as int) == pool@);
                assert(r@ == r0.push(e));
                assert(r@.to_multiset().add(pool@.to_multiset()) =~= all.to_multiset());
                assert forall|i: int, j: int| 0 <= i < r@.len() && 0 <= j < pool@.len() implies
                    edge_cost(#[trigger] r@[i]) <= edge_cost(#[trigger] pool@[j]) by {
                    let j0 = if j < best { j } else { j + 1 };
                    assert(pool@[j] == p0[j0]);
                    if i < r0.len() {
                        assert(r@[i] == r0[i]);
                    }
                }
                assert forall|i: int, j: int| 0 <= i <= j < r@.len() implies edge_cost(#[trigger] r@[i]) <= edge_cost(#[trigger] r@[j]) by {
                    if j == r0.len() {
                        if i < r0.len() {
                            assert(r@[i] == r0[i]);
                        }
                    } else {
                        assert(r@[i] == r0[i] && r@[j] == r0[j]);
                    }
                }
            }
        }
        assert(pool@.to_multiset() =~= Multiset::<Edge>::empty());
        assert(r@.to_multiset() =~= all.to_multiset());
        r
    }
}

/// The cost of the first `k` edges of a list is that of the first `k - 1`
/// and the `k`-th.
proof fn lemma_list_cost_prefix(s: Seq<NodeType>, k: int)
    requires
        0 < k <= s.len(),
    ensures
        list_cost(s.take(k)) == list_cost(s.take(k - 1)) + cost_of(s[k - 1]),
        list_cost(s.take(k)) <= list_cost(s),
    decreases s.len(),
{
    assert(s.take(k).drop_last() =~= s.take(k - 1));
    lemma_list_cost_nonneg(s.take(k));
    if k == s.len() {
        assert(s.take(k) =~= s);
    } else {
        lemma_list_cost_prefix(s.drop_last(), k);
        assert(s.drop_last().take(k) =~= s.take(k));
        lemma_list_cost_nonneg(s);
        assert(cost_of(s.last()) >= 0);
    }
}

/// A total of costs is not negative.
proof fn lemma_list_cost_nonneg(s: Seq<NodeType>)
    ensures
        list_cost(s) >= 0,
    decreases s.len(),
{
    if s.len() > 0 {
        lemma_list_cost_nonneg(s.drop_last());
    }
}

/// A total of costs out of nodes is not negative.
proof fn lemma_nodes_cost_nonneg(g: Graph, s: Seq<usize>)
    ensures
        nodes_cost(g, s) >= 0,
    decreases s.len(),
{
    if s.len() > 0 {
        lemma_nodes_cost_nonneg(g, s.drop_last());
        lemma_list_cost_nonneg(g.adj(s.last()));
    }
}

/// The cost out of the first `k` nodes is that out of the first `k - 1`
/// and out of the `k`-th, and no more than out of all of them.
proof fn lemma_nodes_cost_prefix(g: Graph, s: Seq<usize>, k: int)
    requires
        0 < k <= s.len(),
    ensures
        nodes_cost(g, s.take(k)) == nodes_cost(g, s.take(k - 1)) + list_cost(g.adj(s[k - 1])),
        nodes_cost(g, s.take(k)) <= nodes_cost(g, s),
    decreases s.len(),
{
    assert(s.take(k).drop_last() =~= s.take(k - 1));
    if k == s.len() {
        assert(s.take(k) =~= s);
    } else {
        lemma_nodes_cost_prefix(g, s.drop_last(), k);
        assert(s.drop_last().take(k) =~= s.take(k));
        lemma_list_cost_nonneg(g.adj(s.last()));
        lemma_list_cost_nonneg(g.adj(s[k - 1]));
    }
}

/// The edge a line of an edge list reads as: source, destination and cost,
/// the first three fields split at spaces.
pub open spec fn read_cost_edge(l: Seq<char>) -> Option<Edge> {
    let f = fields(l, ' ');
    if f.len() >= 3 && reads(f[0]) && reads(f[1]) && reads(f[2]) {
        Some(Edge(value(f[0]) as usize, NodeType::NC(value(f[1]) as usize, value(f[2]) as usize)))
    } else {
        None
    }
}

/// Every line after the first, which holds the counts, reads as an edge.
pub open spec fn edge_list_ok(ls: Seq<Seq<char>>) -> bool {
    forall|i: int| 1 <= i < ls.len() ==> #[trigger] read_cost_edge(ls[i]) is Some
}

/// The edges of the lines after the first.
pub open spec fn listed_edges(ls: Seq<Seq<char>>) -> Seq<Edge> {
    Seq::new(if ls.len() > 0 { (ls.len() - 1) as nat } else { 0 }, |k: int| read_cost_edge(ls[k + 1])->Some_0)
}

/// `nt` is a far end of `u` once the edges are added both ways to `g`.
pub open spec fn pushed(g: Graph, es: Seq<Edge>, u: usize, nt: NodeType) -> bool {
    ||| g.adj(u).contains(nt)
    ||| exists|k: int| 0 <= k < es.len() && #[trigger] es[k].0 == u && nt == es[k].1
    ||| exists|k: int| 0 <= k < es.len() && #[trigger] es[k].1.spec_node() == u && nt == NodeType::NC(es[k].0, es[k].1->NC_1)
}

/// `n` is a node of `g` or an end of one of the edges.
pub open spec fn pushed_node(g: Graph, es: Seq<Edge>, n: usize) -> bool {
    ||| g.nodes@.contains(n)
    ||| exists|k: int| 0 <= k < es.len() && (#[trigger] es[k].0 == n || es[k].1.spec_node() == n)
}

/// Reads the edge of a line.
fn parse_cost_edge(l: &[char]) -> (r: Option<Edge>)
    ensures
        r == read_cost_edge(l@),
{
    let f = split_fields(l, ' ');
    assert(forall|k: int| 0 <= k < f@.len() ==> #[trigger] f@[k]@ == fields(l@, ' ')[k]) by {
        assert(views(f@) == fields(l@, ' '));
    }
    assert(f@.len() == fields(l@, ' ').len()) by {
        assert(views(f@).len() == f@.len());
    }
    if f.len() < 3 {
        return None;
    }
    match (read_value(f[0].as_slice()), read_value(f[1].as_slice()), read_value(f[2].as_slice())) {
        (Some(a), Some(b), Some(c)) => Some(Edge(a, NodeType::NC(b, c))),
        _ => None,
    }
}

impl Graph {
    /// Adds the edges of an edge list given as text: after a first line
    /// with the counts, each line holds a source, a destination and a cost,
    /// separated by spaces, and each edge is added both ways.  Where a line
    /// does not read so, returns `false` and leaves the graph as it is.
    pub fn load_file_mst(&mut self, input: &str) -> (ok: bool)
        requires
            old(self).wf(),
        ensures
            final(self).wf(),
            ok == edge_list_ok(lines(input@)),
            !ok ==> *final(self) == *old(self),
            ok ==> forall|u: usize, nt: NodeType| #[trigger] final(self).adj(u).contains(nt)
                <==> pushed(*old(self), listed_edges(lines(input@)), u, nt),
            ok ==> forall|n: usize| #[trigger] final(self).nodes@.contains(n)
                <==> pushed_node(*old(self), listed_edges(lines(input@)), n),
    {
        let cs = chars_of(input);
        let ls = split_lines(cs.as_slice());
        let ghost lv = lines(input@);
        assert(forall|i: int| 0 <= i < ls@.len() ==> #[trigger] ls@[i]@ == lv[i]) by {
            assert(views(ls@) == lv);
        }
        assert(ls@.len() == lv.len()) by {
            assert(views(ls@).len() == ls@.len());
        }
        let ghost es = listed_edges(lv);
        let mut edges: Vec<Edge> = Vec::new();
        let mut i: usize = 1;
        while i < ls.len()
            invariant
                lv == lines(input@),
                es == listed_edges(lv),
                old(self).wf(),
                *self == *old(self),
                ls@.len() == lv.len(),
                forall|q: int| 0 <= q < ls@.len() ==> #[trigger] ls@[q]@ == lv[q],
                1 <= i,
                i <= ls@.len() || (ls@.len() == 0 && i == 1),
                edges@.len() == i - 1,
                forall|q: int| 1 <= q < i ==> #[trigger] read_cost_edge(lv[q]) is Some,
                forall|k: int| 0 <= k < i - 1 ==> #[trigger] edges@[k] == es[k],
            decreases ls@.len() - i,
        {
            match parse_cost_edge(ls[i].as_slice()) {
                Some(e) => {
                    edges.push(e);
                },
                None => {
                    assert(read_cost_edge(lv[i as int]) is None);
                    return false;
                },
            }
            i = i + 1;
        }
        assert(es.len() == edges@.len());
        assert forall|q: int| 0 <= q < es.len() implies #[trigger] edges@[q] == es[q] by {}
        assert(edges@ =~= es);
        let ghost g0 = *self;
        let mut k: usize = 0;
        while k < edges.len()
            invariant
                g0.wf(),
                self.wf(),
                es == edges@,
                k <= es.len(),
                forall|j: int| 0 <= j < es.len() ==> (#[trigger] es[j]).1 is NC,
                forall|u: usize, nt: NodeType| #[trigger] self.adj(u).contains(nt) <==> pushed(g0, es.take(k as int), u, nt),
                forall|n: usize| #[trigger] self.nodes@.contains(n) <==> pushed_node(g0, es.take(k as int), n),
            decreases es.len() - k,
        {
            let e = edges[k];
            let ghost t0 = *self;
            self.push_edge(e);
            proof {
                lemma_pushed_edges(t0, *self, e);
                let a = es.take(k as int);
                let b = es.take(k + 1);
                assert(b =~= a.push(e));
                assert forall|u: usize, nt: NodeType| #[trigger] self.adj(u).contains(nt) <==> pushed(g0, b, u, nt) by {
                    if pushed(g0, a, u, nt) {
                        if exists|j: int| 0 <= j < a.len() && #[trigger] a[j].0 == u && nt == a[j].1 {
                            let j = choose|j: int| 0 <= j < a.len() && #[trigger] a[j].0 == u && nt == a[j].1;
                            assert(b[j] == a[j]);
                        }
                        if exists|j: int| 0 <= j < a.len() && #[trigger] a[j].1.spec_node() == u && nt == NodeType::NC(a[j].0, a[j].1->NC_1) {
                            let j = choose|j: int| 0 <= j < a.len() && #[trigger] a[j].1.spec_node() == u && nt == NodeType::NC(a[j].0, a[j].1->NC_1);
                            assert(b[j] == a[j]);
                        }
                    }
                    if (u == e.0 && nt == e.1) {
                        assert(b[k as int].0 == u);
                    }
                    if (u == e.1.spec_node() && nt == NodeType::NC(e.0, e.1->NC_1)) {
                        assert(b[k as int].1.spec_node() == u);
                    }
                    if pushed(g0, b, u, nt) && !g0.adj(u).contains(nt) {
                        if exists|j: int| 0 <= j < b.len() && #[trigger] b[j].0 == u && nt == b[j].1 {
                            let j = choose|j: int| 0 <= j < b.len() && #[trigger] b[j].0 == u && nt == b[j].1;
                            if j < k {
                                assert(a[j] == b[j]);
                            }
                        }
                        if exists|j: int| 0 <= j < b.len() && #[trigger] b[j].1.spec_node() == u && nt == NodeType::NC(b[j].0, b[j].1->NC_1) {
                            let j = choose|j: int| 0 <= j < b.len() && #[trigger] b[j].1.spec_node() == u && nt == NodeType::NC(b[j].0, b[j].1->NC_1);
                            if j < k {
                                assert(a[j] == b[j]);
                            }
                        }
                    }
                }
                assert forall|n: usize| #[trigger] self.nodes@.contains(n) <==> pushed_node(g0, b, n) by {
                    assert(self.nodes@.to_set().contains(n) == self.nodes@.contains(n));
                    assert(t0.nodes@.to_set().contains(n) == t0.nodes@.contains(n));
                    if pushed_node(g0, a, n) && !g0.nodes@.contains(n) {
                        let j = choose|j: int| 0 <= j < a.len() && (#[trigger] a[j].0 == n || a[j].1.spec_node() == n);
                        assert(b[j] == a[j]);
                    }
                    if n == e.0 || n == e.1.spec_node() {
                        assert(b[k as int] == e);
                    }
                    if pushed_node(g0, b, n) && !g0.nodes@.contains(n) {
                        let j = choose|j: int| 0 <= j < b.len() && (#[trigger] b[j].0 == n || b[j].1.spec_node() == n);
                        if j < k {
                            assert(a[j] == b[j]);
                        }
                    }
                }
            }
            k = k + 1;
        }
        proof {
            assert(es.take(es.len() as int) =~= es);
        }
        true
    }
}

} // verus!
