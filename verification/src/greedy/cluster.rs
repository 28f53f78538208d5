//! Clustering: Kruskal's construction stopped at `k` groups of nodes, and
//! the spacing between the groups.
use vstd::prelude::*;
use crate::graphs::{Graph, NodeType};
use crate::graphs::bfs::{reachable, lemma_reach_start};
use crate::graphs::scc::labelled;
use crate::graphs::min_cut::groups_ok;
use super::{Edge, costed, edges_from, by_cost, edge_cost, cost_of};
use super::mst::{spanning, connected, lemma_edges_from, lemma_merge, lemma_disconnected, lemma_reach_grow,
    reach_within, lemma_reach_light, lemma_light_grow, lemma_light_step, lemma_pushed_edges};

verus! {

broadcast use {vstd::std_specs::hash::group_hash_axioms, vstd::seq_lib::group_to_multiset_ensures};

/// A spanning tree, and the group of each node of `1..=n` when `k` groups
/// were left.
pub struct ClusterSet {
    pub mst: Graph,
    pub clusters: Vec<usize>,
}

/// Every edge out of a node of the tree joins two nodes of `1..=n`.
pub open spec fn within_labels(t: Graph, n: nat) -> bool {
    forall|e: Edge| #[trigger] edges_from(t, t.nodes@).contains(e) ==> 1 <= e.0 <= n && 1 <= e.1.spec_node() <= n
}

/// The edge joins two different groups.
pub open spec fn crosses(label: Seq<usize>, e: Edge) -> bool {
    label[e.0 - 1] != label[e.1.spec_node() - 1]
}

impl ClusterSet {
    /// The tree's edges between different groups, least cost first.
    pub fn crossing_edges(&self) -> (r: Vec<Edge>)
        requires
            self.mst.keys_are_nodes(),
            self.mst.wf(),
            within_labels(self.mst, self.clusters@.len() as nat),
        ensures
            by_cost(r@),
            forall|e: Edge| #[trigger] r@.contains(e) <==>
                (edges_from(self.mst, self.mst.nodes@).contains(e) && crosses(self.clusters@, e)),
    {
        let input = self.mst.get_edges_by_cost();
        let ghost all = edges_from(self.mst, self.mst.nodes@);
        proof {
            assert forall|e: Edge| #[trigger] input@.contains(e) <==> all.contains(e) by {
                assert(input@.to_multiset().count(e) == all.to_multiset().count(e));
                assert(input@.contains(e) <==> input@.to_multiset().count(e) > 0);
                assert(all.contains(e) <==> all.to_multiset().count(e) > 0);
            }
        }
        let mut output: Vec<Edge> = Vec::new();
        let mut i: usize = 0;
        while i < input.len()
            invariant
                i <= input@.len(),
                by_cost(input@),
                within_labels(self.mst, self.clusters@.len() as nat),
                forall|e: Edge| #[trigger] input@.contains(e) <==> all.contains(e),
                all == edges_from(self.mst, self.mst.nodes@),
                forall|j: int| 0 <= j < output@.len() ==> exists|q: int| 0 <= q < i && #[trigger] output@[j] == input@[q],
                forall|j: int| 0 <= j < output@.len() ==> edge_cost(#[trigger] output@[j]) <= edge_cost(input@[i as int - 1])
                    || i == 0,
                by_cost(output@),
                forall|e: Edge| #[trigger] output@.contains(e) <==>
                    (input@.take(i as int).contains(e) && crosses(self.clusters@, e)),
            decreases input@.len() - i,
        {
            let e = input[i];
            proof {
                assert(input@.contains(e));
                assert(all.contains(e));
            }
            let ghost o0 = output@;
            let ghost pre = input@.take(i as int);
            let ghost cur = input@.take(i as int + 1);
            proof {
                assert forall|x: Edge| #[trigger] cur.contains(x) <==> (pre.contains(x) || x == e) by {
                    if cur.contains(x) {
                        let j = choose|j: int| 0 <= j < cur.len() && cur[j] == x;
                        if j < pre.len() {
                            assert(pre[j] == x);
                        }
                    }
                    if pre.contains(x) {
                        let j = choose|j: int| 0 <= j < pre.len() && pre[j] == x;
                        assert(cur[j] == x);
                    }
                    if x == e {
                        assert(cur[i as int] == x);
                    }
                }
            }
            if self.clusters[e.0 - 1] != self.clusters[e.1.node() - 1] {
                output.push(e);
                proof {
                    assert forall|x: Edge| #[trigger] output@.contains(x) <==> (o0.contains(x) || x == e) by {
                        if output@.contains(x) {
                            let j = choose|j: int| 0 <= j < output@.len() && output@[j] == x;
                            if j < o0.len() {
                                assert(o0[j] == x);
                            }
                        }
                        if o0.contains(x) {
                            let j = choose|j: int| 0 <= j < o0.len() && o0[j] == x;
                            assert(output@[j] == x);
                        }
                        if x == e {
                            assert(output@[o0.len() as int] == x);
                        }
                    }
                    assert forall|a: int, b: int| 0 <= a <= b < output@.len() implies
                        edge_cost(#[trigger] output@[a]) <= edge_cost(#[trigger] output@[b]) by {
                        if b == o0.len() {
                            if a < o0.len() {
                                assert(output@[a] == o0[a]);
                                let q = choose|q: int| 0 <= q < i && #[trigger] o0[a] == input@[q];
                                assert(edge_cost(input@[q]) <= edge_cost(input@[i as int]));
                            }
                        } else {
                            assert(output@[a] == o0[a] && output@[b] == o0[b]);
                        }
                    }
                    assert forall|j: int| 0 <= j < output@.len() implies exists|q: int| 0 <= q < i + 1 && #[trigger] output@[j] == input@[q] by {
                        if j < o0.len() {
                            assert(output@[j] == o0[j]);
                            let q = choose|q: int| 0 <= q < i && #[trigger] o0[j] == input@[q];
                            assert(output@[j] == input@[q]);
                        } else {
                            assert(output@[j] == input@[i as int]);
                        }
                    }
                }
            } else {
                proof {
                    assert forall|j: int| 0 <= j < output@.len() implies exists|q: int| 0 <= q < i + 1 && #[trigger] output@[j] == input@[q] by {
                        let q = choose|q: int| 0 <= q < i && #[trigger] output@[j] == input@[q];
                    }
                }
            }
            proof {
                assert forall|j: int| 0 <= j < output@.len() implies edge_cost(#[trigger] output@[j]) <= edge_cost(input@[i as int]) by {
                    let q = choose|q: int| 0 <= q < i + 1 && #[trigger] output@[j] == input@[q];
                }
            }
            i = i + 1;
        }
        assert(input@.take(input@.len() as int) =~= input@);
        output
    }

    /// The least cost edge of the tree between two different groups.
    pub fn spacing(&self) -> (e: Edge)
        requires
            self.mst.keys_are_nodes(),
            self.mst.wf(),
            within_labels(self.mst, self.clusters@.len() as nat),
            exists|x: Edge| #[trigger] edges_from(self.mst, self.mst.nodes@).contains(x) && crosses(self.clusters@, x),
        ensures
            edges_from(self.mst, self.mst.nodes@).contains(e),
            crosses(self.clusters@, e),
            forall|x: Edge| #[trigger] edges_from(self.mst, self.mst.nodes@).contains(x) && crosses(self.clusters@, x)
                ==> edge_cost(e) <= edge_cost(x),
    {
        let crossing = self.crossing_edges();
        proof {
            let x = choose|x: Edge| #[trigger] edges_from(self.mst, self.mst.nodes@).contains(x) && crosses(self.clusters@, x);
            assert(crossing@.contains(x));
        }
        let e = crossing[0];
        proof {
            assert(crossing@.contains(e));
            assert forall|x: Edge| #[trigger] edges_from(self.mst, self.mst.nodes@).contains(x) && crosses(self.clusters@, x)
                implies edge_cost(e) <= edge_cost(x) by {
                assert(crossing@.contains(x));
                let j = choose|j: int| 0 <= j < crossing@.len() && crossing@[j] == x;
                assert(edge_cost(crossing@[0]) <= edge_cost(crossing@[j]));
            }
        }
        e
    }
}

/// The clusters are `d` apart: every two nodes of one cluster are joined in
/// the tree by edges that each cost at most `d`, and every edge of `g`
/// between two clusters costs at least `d`.
pub open spec fn spaced(g: Graph, cs: ClusterSet, d: int) -> bool {
    &&& forall|v: usize, w: usize| 1 <= v <= g.nodes@.len() && 1 <= w <= g.nodes@.len()
        && cs.clusters@[v - 1] == cs.clusters@[w - 1] ==> #[trigger] reach_within(cs.mst, v, w, d)
    &&& forall|u: usize, nt: NodeType| g.nodes@.contains(u) && #[trigger] g.adj(u).contains(nt)
        && cs.clusters@[u - 1] != cs.clusters@[nt.spec_node() - 1] ==> d <= cost_of(nt)
}

/// The spacing of a clustering that `find_clusters` gives (with two or
/// more clusters) is the least cost of an edge of `g` between two
/// clusters: `spacing`'s edge, or its reverse, is such an edge, and none
/// costs less.
pub proof fn lemma_spacing_least(g: Graph, cs: ClusterSet, e: Edge)
    requires
        spanning(g, cs.mst),
        exists|b: Edge| #[trigger] edges_from(cs.mst, cs.mst.nodes@).contains(b) && crosses(cs.clusters@, b)
            && forall|u: usize, nt: NodeType| g.nodes@.contains(u) && #[trigger] g.adj(u).contains(nt)
                && crosses(cs.clusters@, Edge(u, nt)) ==> edge_cost(b) <= cost_of(nt),
        edges_from(cs.mst, cs.mst.nodes@).contains(e),
        crosses(cs.clusters@, e),
        forall|x: Edge| #[trigger] edges_from(cs.mst, cs.mst.nodes@).contains(x) && crosses(cs.clusters@, x)
            ==> edge_cost(e) <= edge_cost(x),
    ensures
        forall|u: usize, nt: NodeType| g.nodes@.contains(u) && #[trigger] g.adj(u).contains(nt)
            && crosses(cs.clusters@, Edge(u, nt)) ==> edge_cost(e) <= cost_of(nt),
        g.adj(e.0).contains(e.1) || (e.1 is NC && g.adj(e.1.spec_node()).contains(NodeType::NC(e.0, e.1->NC_1))),
{
    let b = choose|b: Edge| #[trigger] edges_from(cs.mst, cs.mst.nodes@).contains(b) && crosses(cs.clusters@, b)
        && forall|u: usize, nt: NodeType| g.nodes@.contains(u) && #[trigger] g.adj(u).contains(nt)
            && crosses(cs.clusters@, Edge(u, nt)) ==> edge_cost(b) <= cost_of(nt);
    assert(edge_cost(e) <= edge_cost(b));
    lemma_edges_from(cs.mst, cs.mst.nodes@);
    assert(cs.mst.adj(e.0).contains(e.1));
}

impl Graph {
    /// Kruskal's construction, keeping a copy of the groups of nodes at
    /// the moment `k` groups are left: the spanning tree and those `k`
    /// groups, each joined within by the tree; `None` where the graph is
    /// not connected.
    pub fn find_clusters(&self, k: usize) -> (r: Option<ClusterSet>)
        requires
            labelled(*self),
            self.keys_are_nodes(),
            costed(*self),
            1 <= k < self.nodes@.len(),
            self.nodes@.len() < usize::MAX,
        ensures
            r matches Some(cs) ==> {
                &&& spanning(*self, cs.mst)
                &&& exists|leaders: Seq<usize>| #[trigger] groups_ok(self.nodes@.len() as nat, cs.clusters@, leaders) && leaders.len() == k
                &&& forall|v: usize, w: usize| 1 <= v <= self.nodes@.len() && 1 <= w <= self.nodes@.len()
                    && cs.clusters@[v - 1] == cs.clusters@[w - 1] ==> #[trigger] reachable(cs.mst, v, w)
                &&& exists|d: int| #[trigger] spaced(*self, cs, d)
                &&& k >= 2 ==> exists|b: Edge| #[trigger] edges_from(cs.mst, cs.mst.nodes@).contains(b) && crosses(cs.clusters@, b)
                    && forall|u: usize, nt: NodeType| self.nodes@.contains(u) && #[trigger] self.adj(u).contains(nt)
                        && crosses(cs.clusters@, Edge(u, nt)) ==> edge_cost(b) <= cost_of(nt)
            },
            r is None ==> !connected(*self),
    {
        let n = self.nodes.len();
        let ghost nn = n as nat;
        let edges = self.get_edges_by_cost();
        let mut label = self.get_super_nodes();
        let ghost mut leaders: Seq<usize> = Seq::new(nn, |q: int| (q + 1) as usize);
        let mut groups: usize = n;
        let mut tree = Graph::new();
        let mut clusters: Option<Vec<usize>> = None;
        let ghost mut kept: Seq<usize> = Seq::empty();
        let ghost mut snap: int = 0;
        let ghost mut gap: int = 0;
        let ghost mut bridged: bool = false;
        let ghost mut jb: int = 0;
        proof {
            lemma_edges_from(*self, self.nodes@);
            assert forall|e: Edge| #[trigger] edges@.contains(e) <==> (self.nodes@.contains(e.0) && self.adj(e.0).contains(e.1)) by {
                assert(edges@.to_multiset().count(e) == edges_from(*self, self.nodes@).to_multiset().count(e));
                assert(edges@.contains(e) <==> edges@.to_multiset().count(e) > 0);
                assert(edges_from(*self, self.nodes@).contains(e) <==> edges_from(*self, self.nodes@).to_multiset().count(e) > 0);
            }
            assert forall|a: int, b: int| 0 <= a < b < leaders.len() implies #[trigger] leaders[a] != #[trigger] leaders[b] by {}
            assert forall|v: int| 1 <= v <= nn implies leaders.contains(#[trigger] label@[v - 1]) by {
                assert(leaders[v - 1] == v);
            }
            assert forall|v: usize, w: usize| 1 <= v <= nn && 1 <= w <= nn && label@[v - 1] == label@[w - 1]
                implies #[trigger] reachable(tree, v, w) by {
                lemma_reach_start(tree, v);
            }
        }
        let mut idx: usize = 0;
        while groups > 1
            invariant
                n == self.nodes@.len(),
                nn == n,
                1 <= k < n,
                labelled(*self),
                costed(*self),
                forall|e: Edge| #[trigger] edges@.contains(e) <==> (self.nodes@.contains(e.0) && self.adj(e.0).contains(e.1)),
                groups == leaders.len(),
                groups_ok(nn, label@, leaders),
                tree.wf(),
                super::mst::edges_within(*self, tree),
                forall|v: usize| #[trigger] tree.nodes@.contains(v) ==> self.nodes@.contains(v),
                forall|v: usize, w: usize| 1 <= v <= nn && 1 <= w <= nn && label@[v - 1] == label@[w - 1]
                    ==> #[trigger] reachable(tree, v, w),
                idx <= edges@.len(),
                forall|j: int| 0 <= j < idx ==> 1 <= (#[trigger] edges@[j]).0 <= nn && 1 <= edges@[j].1.spec_node() <= nn
                    && label@[edges@[j].0 - 1] == label@[edges@[j].1.spec_node() - 1],
                groups > k ==> clusters is None,
                clusters matches Some(c) ==> {
                    &&& c@ == kept
                    &&& (exists|ls: Seq<usize>| #[trigger] groups_ok(nn, kept, ls) && ls.len() == k)
                    &&& forall|v: usize, w: usize| 1 <= v <= nn && 1 <= w <= nn && kept[v - 1] == kept[w - 1]
                        ==> #[trigger] reachable(tree, v, w)
                },
                groups <= k ==> clusters is Some,
                by_cost(edges@),
                forall|u: usize, nt: NodeType| #[trigger] tree.adj(u).contains(nt) ==> nt is NC
                    && forall|j: int| idx <= j < edges@.len() ==> cost_of(nt) <= edge_cost(#[trigger] edges@[j]),
                forall|j: int| 0 <= j < idx ==> reach_within(tree, (#[trigger] edges@[j]).0, edges@[j].1.spec_node(), edge_cost(edges@[j])),
                clusters is Some ==> {
                    &&& 0 <= snap < idx
                    &&& gap == edge_cost(edges@[snap])
                    &&& kept.len() == nn
                    &&& forall|j: int| 0 <= j <= snap ==> kept[(#[trigger] edges@[j]).0 - 1] == kept[edges@[j].1.spec_node() - 1]
                    &&& forall|v: usize, w: usize| 1 <= v <= nn && 1 <= w <= nn && kept[v - 1] == kept[w - 1]
                        ==> #[trigger] reach_within(tree, v, w, gap)
                    &&& !bridged ==> label@ == kept && groups == k
                    &&& bridged ==> {
                        &&& 0 <= jb < idx
                        &&& tree.adj(edges@[jb].0).contains(edges@[jb].1)
                        &&& tree.nodes@.contains(edges@[jb].0)
                        &&& kept[edges@[jb].0 - 1] != kept[edges@[jb].1.spec_node() - 1]
                        &&& forall|j: int| 0 <= j < jb ==> kept[(#[trigger] edges@[j]).0 - 1] == kept[edges@[j].1.spec_node() - 1]
                    }
                },
            decreases edges@.len() - idx,
        {
            if idx == edges.len() {
                proof {
                    lemma_disconnected(*self, nn, label@, leaders, edges@);
                }
                return None;
            }
            let e = edges[idx];
            proof {
                assert(edges@.contains(e));
                let m = choose|m: int| 0 <= m < self.adj(e.0).len() && self.adj(e.0)[m] == e.1;
                assert(self.adj(e.0)[m] is NC);
            }
            let src = e.0;
            let dst = e.1.node();
            let ls = label[src - 1];
            let ld = label[dst - 1];
            if ls != ld {
                let ghost label0 = label@;
                let ghost leaders0 = leaders;
                let ghost t0 = tree;
                let mut q: usize = 0;
                while q < n
                    invariant
                        q <= n,
                        label@.len() == n,
                        label0.len() == n,
                        forall|j: int| 0 <= j < q ==> #[trigger] label@[j] == if label0[j] == ld { ls } else { label0[j] },
                        forall|j: int| q <= j < n ==> #[trigger] label@[j] == label0[j],
                    decreases n - q,
                {
                    if label[q] == ld {
                        label.set(q, ls);
                    }
                    q = q + 1;
                }
                tree.push_edge(e);
                proof {
                    leaders = leaders0.remove(leaders0.index_of(ld));
                    lemma_merge(*self, nn, label0, label@, leaders0, leaders, ls, ld, src, dst, e, t0, tree);
                    assert forall|j: int| 0 <= j < idx + 1 implies 1 <= (#[trigger] edges@[j]).0 <= nn && 1 <= edges@[j].1.spec_node() <= nn
                        && label@[edges@[j].0 - 1] == label@[edges@[j].1.spec_node() - 1] by {
                        if j < idx {
                            assert(label0[edges@[j].0 - 1] == label0[edges@[j].1.spec_node() - 1]);
                        }
                    }
                    lemma_pushed_edges(t0, tree, e);
                    assert forall|x: usize, nt: NodeType| #[trigger] tree.adj(x).contains(nt) implies nt is NC && cost_of(nt) <= edge_cost(e) by {
                        assert(edge_cost(edges@[idx as int]) == edge_cost(e));
                    }
                    lemma_light_step(t0, tree, edges@, idx as int, e);
                    if clusters is Some {
                        assert forall|v: usize, w: usize| 1 <= v <= nn && 1 <= w <= nn && kept[v - 1] == kept[w - 1]
                            implies #[trigger] reachable(tree, v, w) by {
                            assert(reachable(t0, v, w));
                            lemma_reach_grow(t0, tree, v, w);
                        }
                        assert forall|v: usize, w: usize| 1 <= v <= nn && 1 <= w <= nn && kept[v - 1] == kept[w - 1]
                            implies #[trigger] reach_within(tree, v, w, gap) by {
                            assert(reach_within(t0, v, w, gap));
                            lemma_light_grow(t0, tree, v, w, gap);
                        }
                        assert forall|x: usize| #[trigger] t0.nodes@.contains(x) implies tree.nodes@.contains(x) by {
                            assert(t0.nodes@.to_set().contains(x));
                            assert(tree.nodes@.to_set().contains(x));
                        }
                        assert(tree.nodes@.to_set().contains(src));
                        assert(tree.nodes@.contains(src));
                        if !bridged {
                            assert(label0 == kept);
                            assert(edges@[idx as int] == e);
                            assert forall|j: int| 0 <= j < idx implies kept[(#[trigger] edges@[j]).0 - 1] == kept[edges@[j].1.spec_node() - 1] by {
                                assert(label0[edges@[j].0 - 1] == label0[edges@[j].1.spec_node() - 1]);
                            }
                            jb = idx as int;
                            bridged = true;
                        }
                    }
                }
                groups = groups - 1;
                if groups == k {
                    clusters = Some(label.clone());
                    proof {
                        kept = label@;
                        snap = idx as int;
                        gap = edge_cost(e);
                        bridged = false;
                        assert(groups_ok(nn, kept, leaders));
                        assert forall|v: usize, w: usize| 1 <= v <= nn && 1 <= w <= nn && kept[v - 1] == kept[w - 1]
                            implies #[trigger] reach_within(tree, v, w, gap) by {
                            assert(reachable(tree, v, w));
                            lemma_reach_light(tree, v, w, gap);
                        }
                    }
                }
            } else {
                proof {
                    assert(reachable(tree, src, dst));
                    assert forall|x: usize, nt: NodeType| #[trigger] tree.adj(x).contains(nt) implies nt is NC && cost_of(nt) <= edge_cost(e) by {
                        assert(edge_cost(edges@[idx as int]) == edge_cost(e));
                    }
                    lemma_reach_light(tree, src, dst, edge_cost(e));
                    assert forall|j: int| 0 <= j < idx + 1 implies reach_within(tree, (#[trigger] edges@[j]).0, edges@[j].1.spec_node(), edge_cost(edges@[j])) by {}
                }
            }
            idx = idx + 1;
        }
        proof {
            assert forall|u: usize, v: usize| self.nodes@.contains(u) && self.nodes@.contains(v) implies #[trigger] reachable(tree, u, v) by {
                assert(1 <= u <= nn && 1 <= v <= nn);
                assert(leaders.contains(label@[u - 1]) && leaders.contains(label@[v - 1]));
                let i = choose|i: int| 0 <= i < leaders.len() && leaders[i] == label@[u - 1];
                let j = choose|j: int| 0 <= j < leaders.len() && leaders[j] == label@[v - 1];
                assert(i == 0 && j == 0);
            }
        }
        match clusters {
            Some(c) => {
                let cs = ClusterSet { mst: tree, clusters: c };
                let r = Some(cs);
                proof {
                    assert(r->0.clusters@ == kept);
                    assert(r->0.mst == tree);
                    let ls = choose|ls: Seq<usize>| #[trigger] groups_ok(nn, kept, ls) && ls.len() == k;
                    assert(groups_ok(self.nodes@.len() as nat, r->0.clusters@, ls));
                    assert(spanning(*self, r->0.mst));
                    if k >= 2 {
                        assert(bridged);
                        let b = edges@[jb];
                        lemma_edges_from(tree, tree.nodes@);
                        assert(edges_from(tree, tree.nodes@).contains(b));
                        assert(crosses(kept, b));
                        assert forall|u: usize, nt: NodeType| self.nodes@.contains(u) && #[trigger] self.adj(u).contains(nt)
                            && crosses(kept, Edge(u, nt)) implies edge_cost(b) <= cost_of(nt) by {
                            let e2 = Edge(u, nt);
                            assert(edges@.contains(e2));
                            let j = choose|j: int| 0 <= j < edges@.len() && edges@[j] == e2;
                            assert(edge_cost(edges@[j]) == cost_of(nt));
                            if j < jb {
                                assert(kept[edges@[j].0 - 1] == kept[edges@[j].1.spec_node() - 1]);
                            } else {
                                assert(edge_cost(edges@[jb]) <= edge_cost(edges@[j]));
                            }
                        }
                    }
                    assert forall|u: usize, nt: NodeType| self.nodes@.contains(u) && #[trigger] self.adj(u).contains(nt)
                        && kept[u - 1] != kept[nt.spec_node() - 1] implies gap <= cost_of(nt) by {
                        let e2 = Edge(u, nt);
                        assert(edges@.contains(e2));
                        let j = choose|j: int| 0 <= j < edges@.len() && edges@[j] == e2;
                        assert(edge_cost(edges@[j]) == cost_of(nt));
                        if j <= snap {
                            assert(kept[edges@[j].0 - 1] == kept[edges@[j].1.spec_node() - 1]);
                        } else {
                            assert(edge_cost(edges@[snap]) <= edge_cost(edges@[j]));
                        }
                    }
                    assert(spaced(*self, r->0, gap));
                }
                r
            },
            None => None,
        }
    }
}

} // verus!
