//! Minimum spanning trees: Kruskal's and Prim's greedy constructions.
use vstd::prelude::*;
use crate::graphs::{Graph, NodeType};
use std::collections::HashSet;
use crate::graphs::bfs::{reach, reachable, is_walk, lemma_reach_start, lemma_closed, lemma_reach_trans};
use crate::graphs::scc::labelled;
use crate::graphs::min_cut::{groups_ok, lemma_merge_groups};
use super::{Edge, costed, edges_from, by_cost, least_cost, cost_of, edge_cost};

verus! {

broadcast use {vstd::std_specs::hash::group_hash_axioms, vstd::seq_lib::group_to_multiset_ensures};

/// Every edge of `t` is an edge of `g`, one way or the other, with its
/// cost.
pub open spec fn edges_within(g: Graph, t: Graph) -> bool {
    forall|u: usize, nt: NodeType| #[trigger] t.adj(u).contains(nt) ==>
        g.adj(u).contains(nt) || (nt is NC && g.adj(nt.spec_node()).contains(NodeType::NC(u, nt->NC_1)))
}

/// Every node of `g` reaches every node of `g`.
pub open spec fn connected(g: Graph) -> bool {
    forall|u: usize, v: usize| g.nodes@.contains(u) && g.nodes@.contains(v) ==> #[trigger] reachable(g, u, v)
}

/// `t` spans `g`: its edges are edges of `g`, its nodes are nodes of `g`,
/// and it joins every node of `g` to every other.
pub open spec fn spanning(g: Graph, t: Graph) -> bool {
    &&& t.wf()
    &&& edges_within(g, t)
    &&& forall|v: usize| #[trigger] t.nodes@.contains(v) ==> g.nodes@.contains(v)
    &&& forall|u: usize, v: usize| g.nodes@.contains(u) && g.nodes@.contains(v) ==> #[trigger] reachable(t, u, v)
}

/// The number of far ends listed for the nodes `1..=k`.
pub open spec fn entries(t: Graph, k: int) -> int
    decreases k,
{
    if k <= 0 { 0 } else { entries(t, k - 1) + t.adj(k as usize).len() }
}

/// `t` lists its edges at nodes `1..=n` only, `2 * (n - 1)` far ends in
/// all: `n - 1` edges each listed both ways, for the `n > 0` nodes of `g`.
pub open spec fn tree_sized(g: Graph, t: Graph) -> bool {
    &&& entries(t, g.nodes@.len() as int) == if g.nodes@.len() == 0 { 0 } else { 2 * (g.nodes@.len() - 1) }
    &&& forall|u: usize, nt: NodeType| #[trigger] t.adj(u).contains(nt) ==> 1 <= u <= g.nodes@.len()
}

/// The edges of `t` join nodes of one group.
pub open spec fn within_groups(t: Graph, n: nat, label: Seq<usize>) -> bool {
    forall|u: usize, nt: NodeType| #[trigger] t.adj(u).contains(nt) ==>
        1 <= u <= n && 1 <= nt.spec_node() <= n && label[u - 1] == label[nt.spec_node() - 1]
}

/// No far ends listed, none counted.
proof fn lemma_entries_zero(t: Graph, k: int)
    requires
        forall|v: usize| #[trigger] t.adj(v).len() == 0,
    ensures
        entries(t, k) == 0,
    decreases k,
{
    if k > 0 {
        lemma_entries_zero(t, k - 1);
        assert(t.adj(k as usize).len() == 0);
    }
}

/// The graph holds each node once and each edge list without repeats, and
/// every edge out of a node ends at a node.
pub open spec fn closed(g: Graph) -> bool {
    &&& g.wf()
    &&& forall|u: usize, k: int| g.nodes@.contains(u) && 0 <= k < g.adj(u).len() ==> g.nodes@.contains((#[trigger] g.adj(u)[k]).spec_node())
}

/// The number of far ends listed for the nodes of `s`.
pub open spec fn entries_over(t: Graph, s: Seq<usize>) -> int
    decreases s.len(),
{
    if s.len() == 0 { 0 } else { entries_over(t, s.drop_last()) + t.adj(s.last()).len() }
}

/// `t` lists its edges at nodes of `g` only, `2 * (n - 1)` far ends in all:
/// `n - 1` edges each listed both ways, for the `n > 0` nodes of `g`.
pub open spec fn tree_sized_over(g: Graph, t: Graph) -> bool {
    &&& entries_over(t, g.nodes@) == if g.nodes@.len() == 0 { 0 } else { 2 * (g.nodes@.len() - 1) }
    &&& forall|u: usize, nt: NodeType| #[trigger] t.adj(u).contains(nt) ==> g.nodes@.contains(u)
}

/// No far ends listed, none counted.
proof fn lemma_entries_over_zero(t: Graph, s: Seq<usize>)
    requires
        forall|v: usize| #[trigger] t.adj(v).len() == 0,
    ensures
        entries_over(t, s) == 0,
    decreases s.len(),
{
    if s.len() > 0 {
        lemma_entries_over_zero(t, s.drop_last());
        assert(t.adj(s.last()).len() == 0);
    }
}

/// One more far end at each of two nodes counts two more among the
/// distinct nodes of `s` that hold them.
proof fn lemma_entries_over_step(t0: Graph, t1: Graph, s: Seq<usize>, a: usize, b: usize)
    requires
        a != b,
        crate::graphs::distinct(s),
        forall|v: usize| v != a && v != b ==> #[trigger] t1.adj(v) == t0.adj(v),
        t1.adj(a).len() == t0.adj(a).len() + 1,
        t1.adj(b).len() == t0.adj(b).len() + 1,
    ensures
        entries_over(t1, s) == entries_over(t0, s) + (if s.contains(a) { 1int } else { 0int }) + (if s.contains(b) { 1int } else { 0int }),
    decreases s.len(),
{
    if s.len() > 0 {
        let q = s.drop_last();
        let x = s.last();
        assert forall|i: int, j: int| 0 <= i < j < q.len() implies #[trigger] q[i] != #[trigger] q[j] by {
            assert(q[i] == s[i] && q[j] == s[j]);
        }
        lemma_entries_over_step(t0, t1, q, a, b);
        if x != a && x != b {
            assert(t1.adj(x) == t0.adj(x));
        }
        assert forall|y: usize| #[trigger] s.contains(y) <==> (q.contains(y) || y == x) by {
            if s.contains(y) {
                let i = choose|i: int| 0 <= i < s.len() && s[i] == y;
                if i < q.len() {
                    assert(q[i] == y);
                }
            }
            if q.contains(y) {
                let i = choose|i: int| 0 <= i < q.len() && q[i] == y;
                assert(s[i] == y);
            }
            if y == x {
                assert(s[s.len() - 1] == y);
            }
        }
        assert(!q.contains(x)) by {
            if q.contains(x) {
                let i = choose|i: int| 0 <= i < q.len() && q[i] == x;
                assert(s[i] == s[s.len() - 1]);
            }
        }
    }
}

/// One more far end at each of two nodes counts two more among the nodes
/// up to `k` that hold them.
proof fn lemma_entries_step(t0: Graph, t1: Graph, k: int, a: usize, b: usize)
    requires
        a != b,
        1 <= a,
        1 <= b,
        k <= usize::MAX,
        forall|v: usize| v != a && v != b ==> #[trigger] t1.adj(v) == t0.adj(v),
        t1.adj(a).len() == t0.adj(a).len() + 1,
        t1.adj(b).len() == t0.adj(b).len() + 1,
    ensures
        entries(t1, k) == entries(t0, k) + (if a <= k { 1int } else { 0int }) + (if b <= k { 1int } else { 0int }),
    decreases k,
{
    if k > 0 {
        lemma_entries_step(t0, t1, k - 1, a, b);
        let v = k as usize;
        if v != a && v != b {
            assert(t1.adj(v) == t0.adj(v));
        }
    }
}

/// Adding the edge between two groups, and merging the groups: the tree's
/// edges stay within groups, and it lists two more far ends.
proof fn lemma_merge_size(n: nat, label0: Seq<usize>, label1: Seq<usize>, ls: usize, ld: usize, src: usize, dst: usize,
    e: Edge, t0: Graph, t1: Graph)
    requires
        within_groups(t0, n, label0),
        n <= usize::MAX,
        1 <= src <= n,
        1 <= dst <= n,
        e.0 == src,
        e.1 is NC,
        e.1.spec_node() == dst,
        ls == label0[src - 1],
        ld == label0[dst - 1],
        ls != ld,
        label1.len() == n,
        forall|q: int| 0 <= q < n ==> #[trigger] label1[q] == if label0[q] == ld { ls } else { label0[q] },
        forall|u: usize| u != e.0 && u != e.1.spec_node() ==> #[trigger] t1.adj(u) == t0.adj(u),
        e.0 != e.1.spec_node() ==> t1.adj(e.0).to_set() == t0.adj(e.0).to_set().insert(e.1),
        e.0 != e.1.spec_node() ==> t1.adj(e.1.spec_node()).to_set()
            == t0.adj(e.1.spec_node()).to_set().insert(NodeType::NC(e.0, e.1->NC_1)),
        e.0 == e.1.spec_node() ==> t1.adj(e.0).to_set()
            == t0.adj(e.0).to_set().insert(e.1).insert(NodeType::NC(e.0, e.1->NC_1)),
        e.0 != e.1.spec_node() && !t0.adj(e.0).contains(e.1)
            ==> t1.adj(e.0) == t0.adj(e.0).push(e.1),
        e.0 != e.1.spec_node() && !t0.adj(e.1.spec_node()).contains(NodeType::NC(e.0, e.1->NC_1))
            ==> t1.adj(e.1.spec_node()) == t0.adj(e.1.spec_node()).push(NodeType::NC(e.0, e.1->NC_1)),
    ensures
        within_groups(t1, n, label1),
        entries(t1, n as int) == entries(t0, n as int) + 2,
{
    let back = NodeType::NC(src, e.1->NC_1);
    assert(src != dst);
    assert(!t0.adj(src).contains(e.1));
    assert(!t0.adj(dst).contains(back)) by {
        if t0.adj(dst).contains(back) {
            assert(back.spec_node() == src);
        }
    }
    lemma_entries_step(t0, t1, n as int, src, dst);
    lemma_pushed_edges(t0, t1, e);
    assert forall|u: usize, nt: NodeType| #[trigger] t1.adj(u).contains(nt) implies
        1 <= u <= n && 1 <= nt.spec_node() <= n && label1[u - 1] == label1[nt.spec_node() - 1] by {
        if t0.adj(u).contains(nt) {
            assert(label0[u - 1] == label0[nt.spec_node() - 1]);
        } else if u == src && nt == e.1 {
            assert(label1[src - 1] == ls);
            assert(label1[dst - 1] == ls);
        } else {
            assert(u == dst && nt == back);
            assert(label1[src - 1] == ls);
            assert(label1[dst - 1] == ls);
        }
    }
}

/// What a spanning tree search returns: a tree that spans the graph, or
/// nothing where the graph is not connected.
pub open spec fn spanning_result(g: Graph, r: Option<Graph>) -> bool {
    match r {
        Some(t) => spanning(g, t),
        None => !connected(g),
    }
}

/// An edge is a walk: its far end is reachable.
pub proof fn lemma_reach_edge(g: Graph, a: usize, b: usize)
    requires
        g.has_edge(a, b),
    ensures
        reachable(g, a, b),
{
    let p = seq![a, b];
    assert forall|i: int| 0 <= i < p.len() - 1 implies g.has_edge(#[trigger] p[i], p[i + 1]) by {}
    assert(is_walk(g, p));
    assert(reach(g, a, 2, b));
}

/// A graph with more edges reaches at least as far.
pub proof fn lemma_reach_grow(g: Graph, h: Graph, a: usize, b: usize)
    requires
        forall|u: usize, v: usize| #[trigger] g.has_edge(u, v) ==> h.has_edge(u, v),
        reachable(g, a, b),
    ensures
        reachable(h, a, b),
{
    let k = choose|k: nat| #[trigger] reach(g, a, k, b);
    let p = choose|p: Seq<usize>| #[trigger] is_walk(g, p) && p[0] == a && p.last() == b && p.len() <= k + 1;
    assert forall|i: int| 0 <= i < p.len() - 1 implies h.has_edge(#[trigger] p[i], p[i + 1]) by {
        assert(g.has_edge(p[i], p[i + 1]));
    }
    assert(is_walk(h, p));
    assert(reach(h, a, k, b));
}

/// Adding an edge both ways keeps every edge, and adds an edge each way.
pub proof fn lemma_pushed_edges(t0: Graph, t1: Graph, e: Edge)
    requires
        e.1 is NC,
        forall|u: usize| u != e.0 && u != e.1.spec_node() ==> #[trigger] t1.adj(u) == t0.adj(u),
        e.0 != e.1.spec_node() ==> t1.adj(e.0).to_set() == t0.adj(e.0).to_set().insert(e.1),
        e.0 != e.1.spec_node() ==> t1.adj(e.1.spec_node()).to_set()
            == t0.adj(e.1.spec_node()).to_set().insert(NodeType::NC(e.0, e.1->NC_1)),
        e.0 == e.1.spec_node() ==> t1.adj(e.0).to_set()
            == t0.adj(e.0).to_set().insert(e.1).insert(NodeType::NC(e.0, e.1->NC_1)),
    ensures
        forall|u: usize, nt: NodeType| #[trigger] t1.adj(u).contains(nt) <==> t0.adj(u).contains(nt)
            || (u == e.0 && nt == e.1) || (u == e.1.spec_node() && nt == NodeType::NC(e.0, e.1->NC_1)),
        forall|u: usize, v: usize| #[trigger] t0.has_edge(u, v) ==> t1.has_edge(u, v),
        t1.has_edge(e.0, e.1.spec_node()),
        t1.has_edge(e.1.spec_node(), e.0),
{
    let d = e.1.spec_node();
    assert forall|u: usize, nt: NodeType| #[trigger] t1.adj(u).contains(nt) <==> t0.adj(u).contains(nt)
        || (u == e.0 && nt == e.1) || (u == d && nt == NodeType::NC(e.0, e.1->NC_1)) by {
        assert(t1.adj(u).to_set().contains(nt) == t1.adj(u).contains(nt));
        assert(t0.adj(u).to_set().contains(nt) == t0.adj(u).contains(nt));
    }
    assert forall|u: usize, v: usize| #[trigger] t0.has_edge(u, v) implies t1.has_edge(u, v) by {
        let m = choose|m: int| 0 <= m < t0.adj(u).len() && (#[trigger] t0.adj(u)[m]).spec_node() == v;
        let nt = t0.adj(u)[m];
        assert(t0.adj(u).contains(nt));
        assert(t1.adj(u).contains(nt));
        let m1 = choose|m1: int| 0 <= m1 < t1.adj(u).len() && t1.adj(u)[m1] == nt;
        assert(t1.adj(u)[m1].spec_node() == v);
    }
    assert(t1.adj(e.0).contains(e.1));
    let m = choose|m: int| 0 <= m < t1.adj(e.0).len() && t1.adj(e.0)[m] == e.1;
    assert(t1.adj(e.0)[m].spec_node() == d);
    let back = NodeType::NC(e.0, e.1->NC_1);
    assert(t1.adj(d).contains(back));
    let m2 = choose|m2: int| 0 <= m2 < t1.adj(d).len() && t1.adj(d)[m2] == back;
    assert(t1.adj(d)[m2].spec_node() == e.0);
}

/// Every edge out of a node of `nodes` is among `edges_from(g, nodes)`,
/// and nothing else is.
pub proof fn lemma_edges_from(g: Graph, nodes: Seq<usize>)
    ensures
        forall|e: Edge| #[trigger] edges_from(g, nodes).contains(e) <==> (nodes.contains(e.0) && g.adj(e.0).contains(e.1)),
    decreases nodes.len(),
{
    if nodes.len() > 0 {
        let pre = nodes.drop_last();
        let u = nodes.last();
        lemma_edges_from(g, pre);
        let tail = g.adj(u).map_values(|nt: NodeType| Edge(u, nt));
        assert forall|e: Edge| #[trigger] edges_from(g, nodes).contains(e) <==> (nodes.contains(e.0) && g.adj(e.0).contains(e.1)) by {
            assert(edges_from(g, nodes) == edges_from(g, pre) + tail);
            if edges_from(g, nodes).contains(e) {
                let j = choose|j: int| 0 <= j < edges_from(g, nodes).len() && edges_from(g, nodes)[j] == e;
                if j < edges_from(g, pre).len() {
                    assert(edges_from(g, pre)[j] == e);
                    assert(edges_from(g, pre).contains(e));
                    let q = choose|q: int| 0 <= q < pre.len() && pre[q] == e.0;
                    assert(nodes[q] == e.0);
                } else {
                    let m = j - edges_from(g, pre).len();
                    assert(tail[m] == e);
                    assert(g.adj(u)[m] == e.1);
                    assert(nodes[nodes.len() - 1] == u);
                }
            }
            if nodes.contains(e.0) && g.adj(e.0).contains(e.1) {
                let q = choose|q: int| 0 <= q < nodes.len() && nodes[q] == e.0;
                if q < pre.len() {
                    assert(pre[q] == e.0);
                    assert(edges_from(g, pre).contains(e));
                    let j = choose|j: int| 0 <= j < edges_from(g, pre).len() && edges_from(g, pre)[j] == e;
                    assert(edges_from(g, nodes)[j] == e);
                } else {
                    let m = choose|m: int| 0 <= m < g.adj(u).len() && g.adj(u)[m] == e.1;
                    assert(tail[m] == e);
                    assert(edges_from(g, nodes)[edges_from(g, pre).len() + m] == e);
                }
            }
        }
    }
}

/// A walk over edges that keep their ends in one group keeps to the group
/// of its first node.
proof fn lemma_walk_in_group(g: Graph, n: nat, label: Seq<usize>, p: Seq<usize>)
    requires
        is_walk(g, p),
        1 <= p[0] <= n,
        label.len() == n,
        forall|u: usize, v: usize| 1 <= u <= n && #[trigger] g.has_edge(u, v) ==> 1 <= v <= n && label[u - 1] == label[v - 1],
    ensures
        1 <= p.last() <= n,
        label[p.last() - 1] == label[p[0] - 1],
    decreases p.len(),
{
    if p.len() > 1 {
        let q = p.drop_last();
        assert forall|i: int| 0 <= i < q.len() - 1 implies g.has_edge(#[trigger] q[i], q[i + 1]) by {
            assert(q[i] == p[i] && q[i + 1] == p[i + 1]);
        }
        lemma_walk_in_group(g, n, label, q);
        assert(g.has_edge(p[p.len() - 2], p[p.len() - 1]));
    }
}

/// `t` has an edge from `u` to `v` that costs at most `c`.
pub open spec fn light_edge(t: Graph, u: usize, v: usize, c: int) -> bool {
    exists|w: usize| #[trigger] t.adj(u).contains(NodeType::NC(v, w)) && w <= c
}

/// `p` follows edges of `t` that each cost at most `c`.
pub open spec fn light_walk(t: Graph, p: Seq<usize>, c: int) -> bool {
    &&& p.len() > 0
    &&& forall|i: int| 0 <= i < p.len() - 1 ==> light_edge(t, #[trigger] p[i], p[i + 1], c)
}

/// `u` reaches `v` in `t` along edges that each cost at most `c`.
pub open spec fn reach_within(t: Graph, u: usize, v: usize, c: int) -> bool {
    exists|p: Seq<usize>| #[trigger] light_walk(t, p, c) && p[0] == u && p.last() == v
}

/// Every edge of `g` has its two ends joined in `t` by a path whose edges
/// each cost no more than it does.
pub open spec fn no_dearer_paths(g: Graph, t: Graph) -> bool {
    forall|u: usize, nt: NodeType| g.nodes@.contains(u) && #[trigger] g.adj(u).contains(nt)
        ==> reach_within(t, u, nt.spec_node(), cost_of(nt))
}

/// A walk along a graph whose edges all cost at most `c` is a walk along
/// edges that cost at most `c`.
proof fn lemma_walk_light(t: Graph, p: Seq<usize>, c: int)
    requires
        is_walk(t, p),
        forall|u: usize, nt: NodeType| #[trigger] t.adj(u).contains(nt) ==> nt is NC && cost_of(nt) <= c,
    ensures
        light_walk(t, p, c),
{
    assert forall|i: int| 0 <= i < p.len() - 1 implies light_edge(t, #[trigger] p[i], p[i + 1], c) by {
        assert(t.has_edge(p[i], p[i + 1]));
        let k = choose|k: int| 0 <= k < t.adj(p[i]).len() && (#[trigger] t.adj(p[i])[k]).spec_node() == p[i + 1];
        let nt = t.adj(p[i])[k];
        assert(t.adj(p[i]).contains(nt));
        assert(nt == NodeType::NC(p[i + 1], nt->NC_1));
    }
}

/// Reaching along a graph whose edges all cost at most `c` is reaching
/// along edges that cost at most `c`.
pub proof fn lemma_reach_light(t: Graph, u: usize, v: usize, c: int)
    requires
        reachable(t, u, v),
        forall|x: usize, nt: NodeType| #[trigger] t.adj(x).contains(nt) ==> nt is NC && cost_of(nt) <= c,
    ensures
        reach_within(t, u, v, c),
{
    let k = choose|k: nat| #[trigger] reach(t, u, k, v);
    let p = choose|p: Seq<usize>| #[trigger] is_walk(t, p) && p[0] == u && p.last() == v && p.len() <= k + 1;
    lemma_walk_light(t, p, c);
}

/// Edges kept stay: a light walk stays one as edges are added.
pub proof fn lemma_light_grow(t0: Graph, t1: Graph, u: usize, v: usize, c: int)
    requires
        reach_within(t0, u, v, c),
        forall|x: usize, nt: NodeType| #[trigger] t0.adj(x).contains(nt) ==> t1.adj(x).contains(nt),
    ensures
        reach_within(t1, u, v, c),
{
    let p = choose|p: Seq<usize>| #[trigger] light_walk(t0, p, c) && p[0] == u && p.last() == v;
    assert forall|i: int| 0 <= i < p.len() - 1 implies light_edge(t1, #[trigger] p[i], p[i + 1], c) by {
        assert(light_edge(t0, p[i], p[i + 1], c));
        let w = choose|w: usize| #[trigger] t0.adj(p[i]).contains(NodeType::NC(p[i + 1], w)) && w <= c;
        assert(t1.adj(p[i]).contains(NodeType::NC(p[i + 1], w)));
    }
    assert(light_walk(t1, p, c));
}

/// Adding edge `e`, the cheapest not yet looked at, both ways: every tree
/// edge still costs no more than the edges left, and every edge looked at,
/// `e` too, has its ends joined by edges no dearer.
pub proof fn lemma_light_step(t0: Graph, t1: Graph, edges: Seq<Edge>, idx: int, e: Edge)
    requires
        0 <= idx < edges.len(),
        edges[idx] == e,
        e.1 is NC,
        e.0 != e.1.spec_node(),
        by_cost(edges),
        forall|u: usize, nt: NodeType| #[trigger] t0.adj(u).contains(nt) ==> nt is NC
            && forall|j: int| idx <= j < edges.len() ==> cost_of(nt) <= edge_cost(#[trigger] edges[j]),
        forall|j: int| 0 <= j < idx ==> reach_within(t0, (#[trigger] edges[j]).0, edges[j].1.spec_node(), edge_cost(edges[j])),
        forall|u: usize, nt: NodeType| #[trigger] t1.adj(u).contains(nt) <==> t0.adj(u).contains(nt)
            || (u == e.0 && nt == e.1) || (u == e.1.spec_node() && nt == NodeType::NC(e.0, e.1->NC_1)),
    ensures
        forall|u: usize, nt: NodeType| #[trigger] t1.adj(u).contains(nt) ==> nt is NC
            && forall|j: int| idx + 1 <= j < edges.len() ==> cost_of(nt) <= edge_cost(#[trigger] edges[j]),
        forall|j: int| 0 <= j < idx + 1 ==> reach_within(t1, (#[trigger] edges[j]).0, edges[j].1.spec_node(), edge_cost(edges[j])),
{
    assert forall|u: usize, nt: NodeType| #[trigger] t1.adj(u).contains(nt) implies nt is NC
        && forall|j: int| idx + 1 <= j < edges.len() ==> cost_of(nt) <= edge_cost(#[trigger] edges[j]) by {
        assert forall|j: int| idx + 1 <= j < edges.len() implies cost_of(nt) <= edge_cost(#[trigger] edges[j]) by {
            assert(edge_cost(edges[idx]) <= edge_cost(edges[j]));
        }
    }
    assert forall|j: int| 0 <= j < idx + 1 implies reach_within(t1, (#[trigger] edges[j]).0, edges[j].1.spec_node(), edge_cost(edges[j])) by {
        if j < idx {
            lemma_light_grow(t0, t1, edges[j].0, edges[j].1.spec_node(), edge_cost(edges[j]));
        } else {
            let p = seq![e.0, e.1.spec_node()];
            assert(t1.adj(e.0).contains(NodeType::NC(e.1.spec_node(), e.1->NC_1)));
            assert(light_edge(t1, p[0], p[1], edge_cost(e)));
            assert(light_walk(t1, p, edge_cost(e)));
        }
    }
}

impl Graph {
    /// Kruskal's construction: the edges, least cost first, each kept where
    /// it joins two groups of nodes not yet joined, until one group is left;
    /// `None` where the edges run out first.  Every edge of the graph has
    /// its ends joined in the tree by edges no dearer than it.
    pub fn mst_kruska(&self) -> (r: Option<Graph>)
        requires
            labelled(*self),
            self.keys_are_nodes(),
            costed(*self),
            self.nodes@.len() < usize::MAX,
        ensures
            spanning_result(*self, r),
            r matches Some(t) ==> tree_sized(*self, t),
            r matches Some(t) ==> no_dearer_paths(*self, t),
    {
        let n = self.nodes.len();
        let ghost nn = n as nat;
        let edges = self.get_edges_by_cost();
        let mut label = self.get_super_nodes();
        let ghost mut leaders: Seq<usize> = Seq::new(nn, |q: int| (q + 1) as usize);
        let mut groups: usize = n;
        let mut tree = Graph::new();
        proof {
            lemma_edges_from(*self, self.nodes@);
            assert forall|e: Edge| #[trigger] edges@.contains(e) <==> (self.nodes@.contains(e.0) && self.adj(e.0).contains(e.1)) by {
                assert(edges@.to_multiset().count(e) == edges_from(*self, self.nodes@).to_multiset().count(e));
                assert(edges@.contains(e) <==> edges@.to_multiset().count(e) > 0);
                assert(edges_from(*self, self.nodes@).contains(e) <==> edges_from(*self, self.nodes@).to_multiset().count(e) > 0);
            }
            assert forall|a: int, b: int| 0 <= a < b < leaders.len() implies #[trigger] leaders[a] != #[trigger] leaders[b] by {}
            assert forall|v: int| 1 <= v <= nn implies leaders.contains(#[trigger] label@[v - 1]) by {
                assert(leaders[v - 1] == v);
            }
            assert forall|v: usize, w: usize| 1 <= v <= nn && 1 <= w <= nn && label@[v - 1] == label@[w - 1]
                implies #[trigger] reachable(tree, v, w) by {
                lemma_reach_start(tree, v);
            }
            assert forall|v: usize| #[trigger] tree.adj(v).len() == 0 by {}
            lemma_entries_zero(tree, nn as int);
        }
        let mut idx: usize = 0;
        while groups > 1
            invariant
                n == self.nodes@.len(),
                nn == n,
                labelled(*self),
                costed(*self),
                forall|e: Edge| #[trigger] edges@.contains(e) <==> (self.nodes@.contains(e.0) && self.adj(e.0).contains(e.1)),
                groups == leaders.len(),
                groups_ok(nn, label@, leaders),
                tree.wf(),
                edges_within(*self, tree),
                forall|v: usize| #[trigger] tree.nodes@.contains(v) ==> self.nodes@.contains(v),
                forall|v: usize, w: usize| 1 <= v <= nn && 1 <= w <= nn && label@[v - 1] == label@[w - 1]
                    ==> #[trigger] reachable(tree, v, w),
                within_groups(tree, nn, label@),
                entries(tree, nn as int) == 2 * (nn - groups),
                idx <= edges@.len(),
                forall|j: int| 0 <= j < idx ==> 1 <= (#[trigger] edges@[j]).0 <= nn && 1 <= edges@[j].1.spec_node() <= nn
                    && label@[edges@[j].0 - 1] == label@[edges@[j].1.spec_node() - 1],
                by_cost(edges@),
                forall|u: usize, nt: NodeType| #[trigger] tree.adj(u).contains(nt) ==> nt is NC
                    && forall|j: int| idx <= j < edges@.len() ==> cost_of(nt) <= edge_cost(#[trigger] edges@[j]),
                forall|j: int| 0 <= j < idx ==> reach_within(tree, (#[trigger] edges@[j]).0, edges@[j].1.spec_node(), edge_cost(edges@[j])),
            decreases edges@.len() - idx,
        {
            if idx == edges.len() {
                proof {
                    lemma_disconnected(*self, nn, label@, leaders, edges@);
                }
                return None;
            }
            let e = edges[idx];
            proof {
                assert(edges@.contains(e));
                assert(self.nodes@.contains(e.0));
                assert(self.adj(e.0).contains(e.1));
                let m = choose|m: int| 0 <= m < self.adj(e.0).len() && self.adj(e.0)[m] == e.1;
                assert(self.adj(e.0)[m] is NC);
            }
            let src = e.0;
            let dst = e.1.node();
            let ls = label[src - 1];
            let ld = label[dst - 1];
            if ls != ld {
                let ghost label0 = label@;
                let ghost leaders0 = leaders;
                let ghost t0 = tree;
                let mut q: usize = 0;
                while q < n
                    invariant
                        q <= n,
                        label@.len() == n,
                        label0.len() == n,
                        forall|j: int| 0 <= j < q ==> #[trigger] label@[j] == if label0[j] == ld { ls } else { label0[j] },
                        forall|j: int| q <= j < n ==> #[trigger] label@[j] == label0[j],
                    decreases n - q,
                {
                    if label[q] == ld {
                        label.set(q, ls);
                    }
                    q = q + 1;
                }
                tree.push_edge(e);
                proof {
                    leaders = leaders0.remove(leaders0.index_of(ld));
                    lemma_merge(*self, nn, label0, label@, leaders0, leaders, ls, ld, src, dst, e, t0, tree);
                    lemma_merge_size(nn, label0, label@, ls, ld, src, dst, e, t0, tree);
                    lemma_pushed_edges(t0, tree, e);
                    lemma_light_step(t0, tree, edges@, idx as int, e);
                    assert forall|j: int| 0 <= j < idx + 1 implies 1 <= (#[trigger] edges@[j]).0 <= nn && 1 <= edges@[j].1.spec_node() <= nn
                        && label@[edges@[j].0 - 1] == label@[edges@[j].1.spec_node() - 1] by {
                        if j < idx {
                            assert(label0[edges@[j].0 - 1] == label0[edges@[j].1.spec_node() - 1]);
                        }
                    }
                }
                groups = groups - 1;
            } else {
                proof {
                    assert(reachable(tree, src, dst));
                    assert forall|x: usize, nt: NodeType| #[trigger] tree.adj(x).contains(nt) implies nt is NC && cost_of(nt) <= edge_cost(e) by {
                        assert(edge_cost(edges@[idx as int]) == edge_cost(e));
                    }
                    lemma_reach_light(tree, src, dst, edge_cost(e));
                    assert forall|j: int| 0 <= j < idx + 1 implies reach_within(tree, (#[trigger] edges@[j]).0, edges@[j].1.spec_node(), edge_cost(edges@[j])) by {}
                }
            }
            idx = idx + 1;
        }
        proof {
            assert forall|u: usize, v: usize| self.nodes@.contains(u) && self.nodes@.contains(v) implies #[trigger] reachable(tree, u, v) by {
                assert(1 <= u <= nn && 1 <= v <= nn);
                assert(leaders.contains(label@[u - 1]) && leaders.contains(label@[v - 1]));
                if groups == 1 {
                    let i = choose|i: int| 0 <= i < leaders.len() && leaders[i] == label@[u - 1];
                    let j = choose|j: int| 0 <= j < leaders.len() && leaders[j] == label@[v - 1];
                    assert(i == 0 && j == 0);
                } else {
                    assert(leaders.len() == 0);
                }
            }
            if groups == 0 && nn > 0 {
                assert(leaders.contains(label@[1 - 1]));
            }
            assert forall|u: usize, nt: NodeType| self.nodes@.contains(u) && #[trigger] self.adj(u).contains(nt)
                implies reach_within(tree, u, nt.spec_node(), cost_of(nt)) by {
                let e2 = Edge(u, nt);
                assert(edges@.contains(e2));
                let j = choose|j: int| 0 <= j < edges@.len() && edges@[j] == e2;
                if j >= idx {
                    let m = choose|m: int| 0 <= m < self.adj(u).len() && self.adj(u)[m] == nt;
                    assert(self.nodes@.contains(nt.spec_node()));
                    assert(reachable(tree, u, nt.spec_node()));
                    assert forall|x: usize, nt2: NodeType| #[trigger] tree.adj(x).contains(nt2) implies nt2 is NC && cost_of(nt2) <= cost_of(nt) by {
                        assert(edge_cost(edges@[j]) == cost_of(nt));
                    }
                    lemma_reach_light(tree, u, nt.spec_node(), cost_of(nt));
                } else {
                    assert(edge_cost(edges@[j]) == cost_of(nt));
                }
            }
        }
        Some(tree)
    }
}

/// Merging group `ld` into group `ls` along edge `e` from `src` (group
/// `ls`) to `dst` (group `ld`): the groups stay well formed, the tree keeps
/// to the graph's edges and nodes, and every node reaches every node of
/// its group.
pub proof fn lemma_merge(g: Graph, n: nat, label0: Seq<usize>, label1: Seq<usize>, leaders0: Seq<usize>, leaders1: Seq<usize>,
    ls: usize, ld: usize, src: usize, dst: usize, e: Edge, t0: Graph, t1: Graph)
    requires
        labelled(g),
        n == g.nodes@.len(),
        groups_ok(n, label0, leaders0),
        1 <= src <= n,
        1 <= dst <= n,
        e.0 == src,
        e.1 is NC,
        e.1.spec_node() == dst,
        g.adj(src).contains(e.1),
        g.nodes@.contains(src),
        ls == label0[src - 1],
        ld == label0[dst - 1],
        ls != ld,
        label1.len() == n,
        forall|q: int| 0 <= q < n ==> #[trigger] label1[q] == if label0[q] == ld { ls } else { label0[q] },
        leaders1 == leaders0.remove(leaders0.index_of(ld)),
        t0.wf(),
        edges_within(g, t0),
        forall|v: usize| #[trigger] t0.nodes@.contains(v) ==> g.nodes@.contains(v),
        forall|v: usize, w: usize| 1 <= v <= n && 1 <= w <= n && label0[v - 1] == label0[w - 1]
            ==> #[trigger] reachable(t0, v, w),
        t1.wf(),
        t1.nodes@.to_set() == t0.nodes@.to_set().insert(e.0).insert(e.1.spec_node()),
        forall|u: usize| u != e.0 && u != e.1.spec_node() ==> #[trigger] t1.adj(u) == t0.adj(u),
        e.0 != e.1.spec_node() ==> t1.adj(e.0).to_set() == t0.adj(e.0).to_set().insert(e.1),
        e.0 != e.1.spec_node() ==> t1.adj(e.1.spec_node()).to_set()
            == t0.adj(e.1.spec_node()).to_set().insert(NodeType::NC(e.0, e.1->NC_1)),
        e.0 == e.1.spec_node() ==> t1.adj(e.0).to_set()
            == t0.adj(e.0).to_set().insert(e.1).insert(NodeType::NC(e.0, e.1->NC_1)),
    ensures
        groups_ok(n, label1, leaders1),
        leaders1.len() == leaders0.len() - 1,
        edges_within(g, t1),
        forall|v: usize| #[trigger] t1.nodes@.contains(v) ==> g.nodes@.contains(v),
        forall|v: usize, w: usize| 1 <= v <= n && 1 <= w <= n && label1[v - 1] == label1[w - 1]
            ==> #[trigger] reachable(t1, v, w),
{
    assert(leaders0.contains(label0[src - 1]));
    assert(leaders0.contains(label0[dst - 1]));
    let j = leaders0.index_of(ld);
    assert(leaders0[j] == ld);
    assert forall|x: usize| #[trigger] leaders1.contains(x) <==> (leaders0.contains(x) && x != ld) by {
        if leaders1.contains(x) {
            let q = choose|q: int| 0 <= q < leaders1.len() && leaders1[q] == x;
            if q < j {
                assert(leaders0[q] == x);
            } else {
                assert(leaders0[q + 1] == x);
                assert(q + 1 != j);
            }
        }
        if leaders0.contains(x) && x != ld {
            let q = choose|q: int| 0 <= q < leaders0.len() && leaders0[q] == x;
            assert(q != j);
            if q < j {
                assert(leaders1[q] == x);
            } else {
                assert(leaders1[q - 1] == x);
            }
        }
    }
    assert forall|a: int, b: int| 0 <= a < b < leaders1.len() implies #[trigger] leaders1[a] != #[trigger] leaders1[b] by {
        let a0 = if a < j { a } else { a + 1 };
        let b0 = if b < j { b } else { b + 1 };
        assert(leaders1[a] == leaders0[a0] && leaders1[b] == leaders0[b0]);
    }
    lemma_merge_groups(n, label0, label1, leaders0, leaders1, ls, ld);
    lemma_pushed_edges(t0, t1, e);
    assert forall|u: usize, nt: NodeType| #[trigger] t1.adj(u).contains(nt) implies
        g.adj(u).contains(nt) || (nt is NC && g.adj(nt.spec_node()).contains(NodeType::NC(u, nt->NC_1))) by {
        if !t0.adj(u).contains(nt) {
            if u == e.0 && nt == e.1 {
            } else {
                assert(u == dst && nt == NodeType::NC(src, e.1->NC_1));
                assert(e.1 == NodeType::NC(dst, e.1->NC_1));
            }
        }
    }
    assert forall|v: usize| #[trigger] t1.nodes@.contains(v) implies g.nodes@.contains(v) by {
        assert(t1.nodes@.to_set().contains(v) == t1.nodes@.contains(v));
        assert(t0.nodes@.to_set().contains(v) == t0.nodes@.contains(v));
        if v == dst {
            let m = choose|m: int| 0 <= m < g.adj(src).len() && g.adj(src)[m] == e.1;
            assert(g.nodes@.contains(g.adj(src)[m].spec_node()));
        }
    }
    assert forall|v: usize, w: usize| 1 <= v <= n && 1 <= w <= n && label1[v - 1] == label1[w - 1]
        implies #[trigger] reachable(t1, v, w) by {
        let lv = label0[v - 1];
        let lw = label0[w - 1];
        if lv == lw {
            lemma_reach_grow(t0, t1, v, w);
        } else if lv == ls || (lv != ld && lw == ld) {
            // `v` is in `src`'s group, `w` in `dst`'s
            assert(lv == ls && lw == ld);
            lemma_reach_grow(t0, t1, v, src);
            lemma_reach_edge(t1, src, dst);
            lemma_reach_grow(t0, t1, dst, w);
            lemma_reach_trans(t1, v, src, dst);
            lemma_reach_trans(t1, v, dst, w);
        } else {
            assert(lv == ld && lw == ls);
            lemma_reach_grow(t0, t1, v, dst);
            lemma_reach_edge(t1, dst, src);
            lemma_reach_grow(t0, t1, src, w);
            lemma_reach_trans(t1, v, dst, src);
            lemma_reach_trans(t1, v, src, w);
        }
    }
}

/// With every edge kept within a group and two groups left, some node does
/// not reach another: the graph is not connected.
pub proof fn lemma_disconnected(g: Graph, n: nat, label: Seq<usize>, leaders: Seq<usize>, edges: Seq<Edge>)
    requires
        labelled(g),
        n == g.nodes@.len(),
        groups_ok(n, label, leaders),
        leaders.len() > 1,
        forall|e: Edge| #[trigger] edges.contains(e) <==> (g.nodes@.contains(e.0) && g.adj(e.0).contains(e.1)),
        forall|j: int| 0 <= j < edges.len() ==> 1 <= (#[trigger] edges[j]).0 <= n && 1 <= edges[j].1.spec_node() <= n
            && label[edges[j].0 - 1] == label[edges[j].1.spec_node() - 1],
    ensures
        !connected(g),
{
    let a = leaders[0];
    let b = leaders[1];
    assert(1 <= a <= n && label[a - 1] == a);
    assert(1 <= b <= n && label[b - 1] == b);
    assert(a != b);
    crate::graphs::min_cut::lemma_all_nodes(g.nodes@, n, a);
    crate::graphs::min_cut::lemma_all_nodes(g.nodes@, n, b);
    assert forall|u: usize, v: usize| 1 <= u <= n && #[trigger] g.has_edge(u, v) implies 1 <= v <= n && label[u - 1] == label[v - 1] by {
        let m = choose|m: int| 0 <= m < g.adj(u).len() && (#[trigger] g.adj(u)[m]).spec_node() == v;
        crate::graphs::min_cut::lemma_all_nodes(g.nodes@, n, u);
        let e = Edge(u, g.adj(u)[m]);
        assert(g.adj(u).contains(e.1));
        assert(edges.contains(e));
        let j = choose|j: int| 0 <= j < edges.len() && edges[j] == e;
        assert(1 <= edges[j].0 <= n);
    }
    if reachable(g, a, b) {
        let k = choose|k: nat| #[trigger] reach(g, a, k, b);
        let p = choose|p: Seq<usize>| #[trigger] is_walk(g, p) && p[0] == a && p.last() == b && p.len() <= k + 1;
        lemma_walk_in_group(g, n, label, p);
    }
    assert(!reachable(g, a, b));
}

/// Distinct items that all occur in `b` are no more than `b`'s.
pub proof fn lemma_sub_len(a: Seq<usize>, b: Seq<usize>)
    requires
        crate::graphs::distinct(a),
        forall|x: usize| #[trigger] a.contains(x) ==> b.contains(x),
    ensures
        a.len() <= b.len(),
    decreases a.len(),
{
    if a.len() > 0 {
        let x = a.last();
        assert(a.contains(x));
        let j = b.index_of(x);
        assert(b[j] == x);
        let a1 = a.drop_last();
        let b1 = b.remove(j);
        assert forall|y: usize| #[trigger] a1.contains(y) implies b1.contains(y) by {
            let i = choose|i: int| 0 <= i < a1.len() && a1[i] == y;
            assert(a[i] == y);
            assert(a.contains(y));
            assert(y != x) by {
                assert(a[i] != a[a.len() - 1]);
            }
            let k = choose|k: int| 0 <= k < b.len() && b[k] == y;
            assert(k != j);
            if k < j {
                assert(b1[k] == y);
            } else {
                assert(b1[k - 1] == y);
            }
        }
        assert forall|p: int, q: int| 0 <= p < q < a1.len() implies #[trigger] a1[p] != #[trigger] a1[q] by {
            assert(a[p] != a[q]);
        }
        lemma_sub_len(a1, b1);
    }
}

/// Every edge of `g` is matched by an edge back with the same cost.
pub open spec fn undirected(g: Graph) -> bool {
    forall|u: usize, v: usize, w: usize| #[trigger] g.adj(u).contains(NodeType::NC(v, w)) ==> g.adj(v).contains(NodeType::NC(u, w))
}

/// Any two of the start and the tree's nodes that `g` joins by edges each
/// costing at most `c` are joined so in the tree too.
pub open spec fn light_kept(g: Graph, start: usize, tree: Graph) -> bool {
    forall|y: usize, z: usize, c: int|
        (tree.nodes@.contains(y) || y == start) && (tree.nodes@.contains(z) || z == start)
        && #[trigger] reach_within(g, y, z, c) ==> reach_within(tree, y, z, c)
}

/// A walk that starts on one side of a split of the nodes and ends on the
/// other crosses it along one of its edges.
proof fn lemma_light_cross(g: Graph, p: Seq<usize>, c: int, side: spec_fn(usize) -> bool)
    requires
        light_walk(g, p, c),
        side(p[0]) != side(p.last()),
    ensures
        exists|i: int| 0 <= i < p.len() - 1 && side(#[trigger] p[i]) != side(p[i + 1]),
    decreases p.len(),
{
    let q = p.drop_last();
    if p.len() >= 2 {
        if side(q.last()) != side(p.last()) {
            assert(side(p[p.len() - 2]) != side(p[p.len() - 1]));
        } else {
            assert forall|i: int| 0 <= i < q.len() - 1 implies light_edge(g, #[trigger] q[i], q[i + 1], c) by {
                assert(q[i] == p[i] && q[i + 1] == p[i + 1]);
            }
            lemma_light_cross(g, q, c, side);
            let i = choose|i: int| 0 <= i < q.len() - 1 && side(#[trigger] q[i]) != side(q[i + 1]);
            assert(q[i] == p[i] && q[i + 1] == p[i + 1]);
        }
    }
}

/// One more cheap edge at the end of a cheap walk.
proof fn lemma_light_extend(t: Graph, y: usize, a: usize, b: usize, c: int)
    requires
        reach_within(t, y, a, c),
        light_edge(t, a, b, c),
    ensures
        reach_within(t, y, b, c),
{
    let p = choose|p: Seq<usize>| #[trigger] light_walk(t, p, c) && p[0] == y && p.last() == a;
    let q = p.push(b);
    assert forall|i: int| 0 <= i < q.len() - 1 implies light_edge(t, #[trigger] q[i], q[i + 1], c) by {
        if i < p.len() - 1 {
            assert(q[i] == p[i] && q[i + 1] == p[i + 1]);
        } else {
            assert(q[i] == a && q[i + 1] == b);
        }
    }
    assert(light_walk(t, q, c));
}

/// One cheap edge in front of a cheap walk.
proof fn lemma_light_prepend(t: Graph, y: usize, a: usize, z: usize, c: int)
    requires
        light_edge(t, y, a, c),
        reach_within(t, a, z, c),
    ensures
        reach_within(t, y, z, c),
{
    let p = choose|p: Seq<usize>| #[trigger] light_walk(t, p, c) && p[0] == a && p.last() == z;
    let q = seq![y] + p;
    assert forall|i: int| 0 <= i < q.len() - 1 implies light_edge(t, #[trigger] q[i], q[i + 1], c) by {
        if i > 0 {
            assert(q[i] == p[i - 1] && q[i + 1] == p[i]);
        } else {
            assert(q[0] == y && q[1] == a);
        }
    }
    assert(light_walk(t, q, c));
}

/// Growing Prim's tree by its cheapest pending edge, from `a` in the tree
/// (or the start) to `b` outside it, keeps the cheap joins of `g` among the
/// tree's nodes.
proof fn lemma_prim_light(g: Graph, start: usize, t0: Graph, t1: Graph, h0: Seq<Edge>, spawned: Seq<usize>, j: int)
    requires
        undirected(g),
        light_kept(g, start, t0),
        0 <= j < h0.len(),
        h0[j].1 is NC,
        forall|q: int| 0 <= q < h0.len() ==> edge_cost(h0[j]) <= edge_cost(#[trigger] h0[q]),
        t0.nodes@.contains(h0[j].0) || h0[j].0 == start,
        !t0.nodes@.contains(h0[j].1.spec_node()) && h0[j].1.spec_node() != start,
        g.adj(h0[j].0).contains(h0[j].1),
        forall|u: usize| #[trigger] t0.nodes@.contains(u) ==> spawned.contains(u),
        spawned.contains(start),
        forall|u: usize, k: int| spawned.contains(u) && 0 <= k < g.adj(u).len() ==>
            t0.nodes@.contains((#[trigger] g.adj(u)[k]).spec_node()) || g.adj(u)[k].spec_node() == u || h0.contains(Edge(u, g.adj(u)[k])),
        forall|v: usize| #[trigger] t1.nodes@.contains(v) <==> (t0.nodes@.contains(v) || v == h0[j].0 || v == h0[j].1.spec_node()),
        forall|u: usize, nt: NodeType| #[trigger] t0.adj(u).contains(nt) ==> t1.adj(u).contains(nt),
        t1.adj(h0[j].0).contains(h0[j].1),
        t1.adj(h0[j].1.spec_node()).contains(NodeType::NC(h0[j].0, h0[j].1->NC_1)),
    ensures
        light_kept(g, start, t1),
{
    let e = h0[j];
    let a = e.0;
    let b = e.1.spec_node();
    let cb = e.1->NC_1;
    assert(e.1 == NodeType::NC(b, cb));
    let inside = |x: usize| t0.nodes@.contains(x) || x == start;
    assert forall|y: usize, z: usize, c: int|
        (t1.nodes@.contains(y) || y == start) && (t1.nodes@.contains(z) || z == start)
        && #[trigger] reach_within(g, y, z, c) implies reach_within(t1, y, z, c) by {
        let p = choose|p: Seq<usize>| #[trigger] light_walk(g, p, c) && p[0] == y && p.last() == z;
        if inside(y) && inside(z) {
            assert(reach_within(t0, y, z, c));
            lemma_light_grow(t0, t1, y, z, c);
        } else if y == b && z == b {
            assert(light_walk(t1, seq![b], c));
        } else {
            // the walk crosses out of the tree: along an edge no cheaper than `e`
            lemma_light_cross(g, p, c, inside);
            let i = choose|i: int| 0 <= i < p.len() - 1 && inside(#[trigger] p[i]) != inside(p[i + 1]);
            assert(light_edge(g, p[i], p[i + 1], c));
            let w = choose|w: usize| #[trigger] g.adj(p[i]).contains(NodeType::NC(p[i + 1], w)) && w <= c;
            let (s, o) = if inside(p[i]) { (p[i], p[i + 1]) } else { (p[i + 1], p[i]) };
            assert(g.adj(s).contains(NodeType::NC(o, w)));
            assert(spawned.contains(s));
            let k = choose|k: int| 0 <= k < g.adj(s).len() && g.adj(s)[k] == NodeType::NC(o, w);
            assert(h0.contains(Edge(s, g.adj(s)[k])));
            let q = choose|q: int| 0 <= q < h0.len() && h0[q] == Edge(s, NodeType::NC(o, w));
            assert(edge_cost(h0[j]) <= edge_cost(h0[q]));
            assert(cb <= c);
            // the tree edge between `a` and `b` is cheap, both ways
            assert(light_edge(t1, a, b, c));
            assert(light_edge(t1, b, a, c));
            assert(g.adj(b).contains(NodeType::NC(a, cb)));
            assert(light_edge(g, b, a, c));
            assert(light_edge(g, a, b, c));
            if inside(y) {
                // z == b: y reaches a in g through b, so in t0, then b
                assert(z == b);
                lemma_light_extend(g, y, b, a, c);
                assert(reach_within(t0, y, a, c));
                lemma_light_grow(t0, t1, y, a, c);
                lemma_light_extend(t1, y, a, b, c);
            } else {
                // y == b: a reaches z in g through b, so in t0; b steps to a
                assert(y == b);
                lemma_light_prepend(g, a, b, z, c);
                assert(reach_within(t0, a, z, c));
                lemma_light_grow(t0, t1, a, z, c);
                lemma_light_prepend(t1, b, a, z, c);
            }
        }
    }
}

/// The state of Prim's construction from `start`: `spawned` holds the nodes
/// whose edges were looked at, the start first; the tree keeps to the
/// graph and joins its nodes to the start both ways; every edge out of a
/// spawned node leads into the tree or is pending; and every pending edge
/// leaves a spawned node.
pub open spec fn prim_core(g: Graph, n: nat, start: usize, tree: Graph, in_tree: Set<usize>, heap: Seq<Edge>,
    spawned: Seq<usize>) -> bool {
    &&& tree.wf()
    &&& edges_within(g, tree)
    &&& forall|v: usize| #[trigger] tree.nodes@.contains(v) ==> g.nodes@.contains(v)
    &&& forall|v: usize| #[trigger] in_tree.contains(v) <==> tree.nodes@.contains(v)
    &&& tree.nodes@.len() > 0 ==> tree.nodes@.contains(start)
    &&& forall|v: usize| #[trigger] tree.nodes@.contains(v) ==> reachable(tree, start, v) && reachable(tree, v, start)
    &&& forall|u: usize| #[trigger] spawned.contains(u) ==> g.nodes@.contains(u) && (u == start || tree.nodes@.contains(u))
    &&& forall|u: usize, k: int| spawned.contains(u) && 0 <= k < g.adj(u).len() ==>
        tree.nodes@.contains((#[trigger] g.adj(u)[k]).spec_node()) || g.adj(u)[k].spec_node() == u || heap.contains(Edge(u, g.adj(u)[k]))
    &&& forall|j: int| 0 <= j < heap.len() ==> spawned.contains((#[trigger] heap[j]).0) && g.adj(heap[j].0).contains(heap[j].1)
        && heap[j].0 != heap[j].1.spec_node()
    &&& crate::graphs::distinct(spawned)
    &&& forall|u: usize, nt: NodeType| #[trigger] tree.adj(u).contains(nt) ==> tree.nodes@.contains(u) && tree.nodes@.contains(nt.spec_node())
    &&& entries_over(tree, g.nodes@) == if tree.nodes@.len() == 0 { 0 } else { 2 * (tree.nodes@.len() - 1) }
    &&& undirected(g) ==> light_kept(g, start, tree)
}

/// Distinct items are as many as their set holds.
proof fn lemma_distinct_len(s: Seq<usize>)
    requires
        crate::graphs::distinct(s),
    ensures
        s.len() == s.to_set().len(),
{
    assert forall|i: int, j: int| 0 <= i < s.len() && 0 <= j < s.len() && i != j implies s[i] != s[j] by {
        if i < j {
            assert(s[i] != s[j]);
        } else {
            assert(s[j] != s[i]);
        }
    }
    s.unique_seq_to_set();
}

/// Between two steps of Prim's construction: the tree's nodes are spawned
/// but for `next`, the node to spawn next, which is new and in the tree
/// (or the start, at first); with no node to spawn, nothing is pending.
pub open spec fn prim_ok(g: Graph, n: nat, start: usize, tree: Graph, in_tree: Set<usize>, heap: Seq<Edge>,
    spawned: Seq<usize>, next: Option<usize>) -> bool {
    &&& prim_core(g, n, start, tree, in_tree, heap, spawned)
    &&& forall|v: usize| #[trigger] tree.nodes@.contains(v) ==> spawned.contains(v) || next == Some(v)
    &&& match next {
        Some(x) => {
            &&& g.nodes@.contains(x)
            &&& !spawned.contains(x)
            &&& (x == start || tree.nodes@.contains(x))
            &&& x != start ==> spawned.contains(start)
        },
        None => heap.len() == 0 && spawned.contains(start),
    }
}

/// A tree holding `n` of the graph's `n` nodes holds them all, and spans
/// the graph.
proof fn lemma_prim_done(g: Graph, n: nat, start: usize, tree: Graph, in_tree: Set<usize>, heap: Seq<Edge>,
    spawned: Seq<usize>)
    requires
        closed(g),
        n == g.nodes@.len(),
        prim_core(g, n, start, tree, in_tree, heap, spawned),
        tree.nodes@.len() == n,
    ensures
        spanning(g, tree),
        forall|v: usize| #[trigger] tree.nodes@.contains(v) <==> g.nodes@.contains(v),
{
    assert forall|v: usize| #[trigger] tree.nodes@.contains(v) <==> g.nodes@.contains(v) by {
        if g.nodes@.contains(v) && !tree.nodes@.contains(v) {
            let more = tree.nodes@.push(v);
            crate::graphs::lemma_push_to_set(tree.nodes@, v);
            assert forall|x: usize| #[trigger] more.contains(x) implies g.nodes@.contains(x) by {
                assert(more.to_set().contains(x) == more.contains(x));
                assert(tree.nodes@.to_set().contains(x) == tree.nodes@.contains(x));
            }
            lemma_sub_len(more, g.nodes@);
        }
    }
    assert forall|u: usize, v: usize| g.nodes@.contains(u) && g.nodes@.contains(v) implies #[trigger] reachable(tree, u, v) by {
        assert(tree.nodes@.contains(u) && tree.nodes@.contains(v));
        lemma_reach_trans(tree, u, start, v);
    }
}

/// With nothing pending and no node to spawn, the spawned nodes hold every
/// node the start reaches; the tree is not done, so a node is left out,
/// unless the graph has a single node.
proof fn lemma_prim_stuck(g: Graph, n: nat, start: usize, tree: Graph, in_tree: Set<usize>, heap: Seq<Edge>,
    spawned: Seq<usize>)
    requires
        closed(g),
        n == g.nodes@.len(),
        g.nodes@.contains(start),
        prim_ok(g, n, start, tree, in_tree, heap, spawned, None),
        tree.nodes@.len() != n,
    ensures
        n == 1 || !connected(g),
{
    let vis = |v: usize| spawned.contains(v);
    assert forall|u: usize, w: usize| vis(u) && #[trigger] g.has_edge(u, w) implies vis(w) by {
        let k = choose|k: int| 0 <= k < g.adj(u).len() && (#[trigger] g.adj(u)[k]).spec_node() == w;
        if !tree.nodes@.contains(w) && w != u {
            assert(heap.contains(Edge(u, g.adj(u)[k])));
        }
    }
    if n != 1 {
        // some node is not spawned
        let w: usize = if tree.nodes@.len() == 0 {
            if g.nodes@[0] != start { g.nodes@[0] } else { g.nodes@[1] }
        } else {
            if forall|v: usize| #[trigger] g.nodes@.contains(v) ==> tree.nodes@.contains(v) {
                lemma_sub_len(g.nodes@, tree.nodes@);
                lemma_sub_len(tree.nodes@, g.nodes@);
            }
            choose|v: usize| #[trigger] g.nodes@.contains(v) && !tree.nodes@.contains(v)
        };
        if tree.nodes@.len() == 0 {
            assert(g.nodes@.len() > 1);
            assert(g.nodes@[0] != g.nodes@[1]);
            assert(g.nodes@.contains(g.nodes@[0]) && g.nodes@.contains(g.nodes@[1]));
        }
        assert(g.nodes@.contains(w));
        assert(!spawned.contains(w));
        if reachable(g, start, w) {
            let k = choose|k: nat| #[trigger] reach(g, start, k, w);
            lemma_closed(g, start, vis, k, w);
        }
        assert(!reachable(g, start, w));
    }
}

/// The pending edge at `j` leaves a spawned node of `1..=n` for another
/// node of `1..=n`, with a cost.
proof fn lemma_heap_edge(g: Graph, n: nat, start: usize, tree: Graph, in_tree: Set<usize>, heap: Seq<Edge>,
    spawned: Seq<usize>, j: int)
    requires
        closed(g),
        costed(g),
        n == g.nodes@.len(),
        prim_core(g, n, start, tree, in_tree, heap, spawned),
        0 <= j < heap.len(),
    ensures
        g.nodes@.contains(heap[j].0),
        g.nodes@.contains(heap[j].1.spec_node()),
        heap[j].1 is NC,
        heap[j].0 != heap[j].1.spec_node(),
        g.adj(heap[j].0).contains(heap[j].1),
{
    let e = heap[j];
    assert(spawned.contains(e.0));
    let k = choose|k: int| 0 <= k < g.adj(e.0).len() && g.adj(e.0)[k] == e.1;
    assert(g.nodes@.contains(g.adj(e.0)[k].spec_node()));
}

/// Spawning `src`, with its edges out of the tree now pending, leaves every
/// node of the tree spawned.
proof fn lemma_prim_spawned(g: Graph, n: nat, start: usize, tree: Graph, in_tree: Set<usize>, h0: Seq<Edge>, h1: Seq<Edge>,
    sp0: Seq<usize>, sp1: Seq<usize>, src: usize)
    requires
        prim_ok(g, n, start, tree, in_tree, h0, sp0, Some(src)),
        sp1 == sp0.push(src),
        forall|x: Edge| h0.contains(x) ==> #[trigger] h1.contains(x),
        forall|j: int| 0 <= j < h1.len() ==> sp1.contains((#[trigger] h1[j]).0) && g.adj(h1[j].0).contains(h1[j].1)
            && h1[j].0 != h1[j].1.spec_node(),
        forall|m: int| 0 <= m < g.adj(src).len() ==>
            tree.nodes@.contains((#[trigger] g.adj(src)[m]).spec_node()) || g.adj(src)[m].spec_node() == src || h1.contains(Edge(src, g.adj(src)[m])),
    ensures
        prim_core(g, n, start, tree, in_tree, h1, sp1),
        forall|v: usize| #[trigger] tree.nodes@.contains(v) ==> sp1.contains(v),
        sp1.contains(start),
{
    crate::graphs::lemma_push_to_set(sp0, src);
    assert forall|x: usize| #[trigger] sp1.contains(x) <==> (sp0.contains(x) || x == src) by {
        assert(sp1.to_set().contains(x) == sp1.contains(x));
        assert(sp0.to_set().contains(x) == sp0.contains(x));
    }
    assert forall|u: usize, k: int| sp1.contains(u) && 0 <= k < g.adj(u).len() implies
        tree.nodes@.contains((#[trigger] g.adj(u)[k]).spec_node()) || g.adj(u)[k].spec_node() == u || h1.contains(Edge(u, g.adj(u)[k])) by {
        if u != src {
            if !tree.nodes@.contains(g.adj(u)[k].spec_node()) {
                assert(h0.contains(Edge(u, g.adj(u)[k])));
            }
        }
    }
}

/// Dropping a pending edge whose two ends are in the tree keeps the state.
proof fn lemma_drop_stale(g: Graph, n: nat, start: usize, tree: Graph, in_tree: Set<usize>, h0: Seq<Edge>, h1: Seq<Edge>,
    spawned: Seq<usize>, j: int)
    requires
        prim_core(g, n, start, tree, in_tree, h0, spawned),
        0 <= j < h0.len(),
        tree.nodes@.contains(h0[j].1.spec_node()),
        h1 == h0.remove(j),
    ensures
        prim_core(g, n, start, tree, in_tree, h1, spawned),
{
    assert forall|i: int| 0 <= i < h1.len() implies spawned.contains((#[trigger] h1[i]).0) && g.adj(h1[i].0).contains(h1[i].1) by {
        if i < j {
            assert(h1[i] == h0[i]);
        } else {
            assert(h1[i] == h0[i + 1]);
        }
    }
    assert forall|u: usize, k: int| spawned.contains(u) && 0 <= k < g.adj(u).len() implies
        tree.nodes@.contains((#[trigger] g.adj(u)[k]).spec_node()) || g.adj(u)[k].spec_node() == u || h1.contains(Edge(u, g.adj(u)[k])) by {
        let x = Edge(u, g.adj(u)[k]);
        if !tree.nodes@.contains(g.adj(u)[k].spec_node()) {
            assert(h0.contains(x));
            let i = choose|i: int| 0 <= i < h0.len() && h0[i] == x;
            assert(i != j);
            if i < j {
                assert(h1[i] == x);
            } else {
                assert(h1[i - 1] == x);
            }
        }
    }
}

/// Adding the pending edge at `j`, out of the tree to a node outside it:
/// the tree keeps to the graph, joins the new node to the start, and the
/// new node is the one to spawn next.
proof fn lemma_prim_grow(g: Graph, n: nat, start: usize, t0: Graph, t1: Graph, it0: Set<usize>, it1: Set<usize>,
    h0: Seq<Edge>, h1: Seq<Edge>, spawned: Seq<usize>, j: int)
    requires
        closed(g),
        costed(g),
        n == g.nodes@.len(),
        n < usize::MAX,
        prim_core(g, n, start, t0, it0, h0, spawned),
        forall|v: usize| #[trigger] t0.nodes@.contains(v) ==> spawned.contains(v),
        spawned.contains(start),
        0 <= j < h0.len(),
        forall|q: int| 0 <= q < h0.len() ==> edge_cost(h0[j]) <= edge_cost(#[trigger] h0[q]),
        !(t0.nodes@.contains(h0[j].0) && t0.nodes@.contains(h0[j].1.spec_node())),
        h1 == h0.remove(j),
        it1 == it0.insert(h0[j].0).insert(h0[j].1.spec_node()),
        t1.wf(),
        t1.nodes@.to_set() == t0.nodes@.to_set().insert(h0[j].0).insert(h0[j].1.spec_node()),
        forall|u: usize| u != h0[j].0 && u != h0[j].1.spec_node() ==> #[trigger] t1.adj(u) == t0.adj(u),
        h0[j].0 != h0[j].1.spec_node() ==> t1.adj(h0[j].0).to_set() == t0.adj(h0[j].0).to_set().insert(h0[j].1),
        h0[j].0 != h0[j].1.spec_node() ==> t1.adj(h0[j].1.spec_node()).to_set()
            == t0.adj(h0[j].1.spec_node()).to_set().insert(NodeType::NC(h0[j].0, h0[j].1->NC_1)),
        h0[j].0 == h0[j].1.spec_node() ==> t1.adj(h0[j].0).to_set()
            == t0.adj(h0[j].0).to_set().insert(h0[j].1).insert(NodeType::NC(h0[j].0, h0[j].1->NC_1)),
        h0[j].0 != h0[j].1.spec_node() && !t0.adj(h0[j].0).contains(h0[j].1)
            ==> t1.adj(h0[j].0) == t0.adj(h0[j].0).push(h0[j].1),
        h0[j].0 != h0[j].1.spec_node() && !t0.adj(h0[j].1.spec_node()).contains(NodeType::NC(h0[j].0, h0[j].1->NC_1))
            ==> t1.adj(h0[j].1.spec_node()) == t0.adj(h0[j].1.spec_node()).push(NodeType::NC(h0[j].0, h0[j].1->NC_1)),
    ensures
        prim_ok(g, n, start, t1, it1, h1, spawned, Some(h0[j].1.spec_node())),
{
    let e = h0[j];
    let a = e.0;
    let b = e.1.spec_node();
    lemma_heap_edge(g, n, start, t0, it0, h0, spawned, j);
    lemma_pushed_edges(t0, t1, e);
    assert forall|v: usize| #[trigger] t1.nodes@.contains(v) <==> (t0.nodes@.contains(v) || v == a || v == b) by {
        assert(t1.nodes@.to_set().contains(v) == t1.nodes@.contains(v));
        assert(t0.nodes@.to_set().contains(v) == t0.nodes@.contains(v));
    }
    // `a` is in the tree, or is the start of an empty tree; `b` is new
    assert(spawned.contains(a));
    assert(a == start || t0.nodes@.contains(a));
    assert(!t0.nodes@.contains(b)) by {
        if t0.nodes@.contains(b) {
            if !t0.nodes@.contains(a) {
                assert(a == start);
                assert(t0.nodes@.len() > 0);
            }
        }
    }
    assert(b != start) by {
        if b == start {
            assert(!t0.nodes@.contains(start));
            assert(t0.nodes@.len() == 0) by {
                if t0.nodes@.len() > 0 {
                    assert(t0.nodes@.contains(start));
                }
            }
            assert(a == start);
        }
    }
    assert(!spawned.contains(b));
    assert forall|i: int| 0 <= i < h1.len() implies spawned.contains((#[trigger] h1[i]).0) && g.adj(h1[i].0).contains(h1[i].1) by {
        if i < j {
            assert(h1[i] == h0[i]);
        } else {
            assert(h1[i] == h0[i + 1]);
        }
    }
    assert forall|u: usize, k: int| spawned.contains(u) && 0 <= k < g.adj(u).len() implies
        t1.nodes@.contains((#[trigger] g.adj(u)[k]).spec_node()) || g.adj(u)[k].spec_node() == u || h1.contains(Edge(u, g.adj(u)[k])) by {
        let x = Edge(u, g.adj(u)[k]);
        if !t1.nodes@.contains(g.adj(u)[k].spec_node()) {
            assert(h0.contains(x));
            let i = choose|i: int| 0 <= i < h0.len() && h0[i] == x;
            assert(i != j);
            if i < j {
                assert(h1[i] == x);
            } else {
                assert(h1[i - 1] == x);
            }
        }
    }
    assert forall|u: usize, nt: NodeType| #[trigger] t1.adj(u).contains(nt) implies
        g.adj(u).contains(nt) || (nt is NC && g.adj(nt.spec_node()).contains(NodeType::NC(u, nt->NC_1))) by {
        if !t0.adj(u).contains(nt) {
            if u == a && nt == e.1 {
            } else {
                assert(u == b && nt == NodeType::NC(a, e.1->NC_1));
                assert(e.1 == NodeType::NC(b, e.1->NC_1));
            }
        }
    }
    assert forall|v: usize| #[trigger] t1.nodes@.contains(v) implies reachable(t1, start, v) && reachable(t1, v, start) by {
        if t0.nodes@.contains(v) {
            lemma_reach_grow(t0, t1, start, v);
            lemma_reach_grow(t0, t1, v, start);
        }
        if v == a || v == b {
            if a == start {
                lemma_reach_start(t1, start);
            } else {
                lemma_reach_grow(t0, t1, start, a);
                lemma_reach_grow(t0, t1, a, start);
            }
            if v == b {
                lemma_reach_edge(t1, a, b);
                lemma_reach_edge(t1, b, a);
                lemma_reach_trans(t1, start, a, b);
                lemma_reach_trans(t1, b, a, start);
            }
        }
    }
    assert forall|v: usize| #[trigger] it1.contains(v) <==> t1.nodes@.contains(v) by {}
    assert(t1.nodes@.contains(start));
    // one more edge, listed at both ends; one more node, or two at first
    assert(a != b);
    assert(!t0.adj(a).contains(e.1));
    assert(!t0.adj(b).contains(NodeType::NC(a, e.1->NC_1)));
    assert(g.nodes@.contains(a) && g.nodes@.contains(b));
    lemma_entries_over_step(t0, t1, g.nodes@, a, b);
    lemma_distinct_len(t0.nodes@);
    lemma_distinct_len(t1.nodes@);
    if t0.nodes@.len() == 0 {
        assert(t0.nodes@.to_set() =~= Set::<usize>::empty());
        assert(t1.nodes@.to_set() =~= Set::<usize>::empty().insert(a).insert(b));
        assert(Set::<usize>::empty().insert(a).len() == 1);
    } else {
        assert(t0.nodes@.contains(a));
        assert(t0.nodes@.to_set().contains(a));
        assert(t1.nodes@.to_set() =~= t0.nodes@.to_set().insert(b));
        assert(!t0.nodes@.to_set().contains(b));
    }
    assert forall|u: usize, nt: NodeType| #[trigger] t1.adj(u).contains(nt) implies
        t1.nodes@.contains(u) && t1.nodes@.contains(nt.spec_node()) by {
        if !t0.adj(u).contains(nt) {
            if u == a && nt == e.1 {
            } else {
                assert(u == b && nt == NodeType::NC(a, e.1->NC_1));
            }
        }
    }
    if undirected(g) {
        lemma_prim_light(g, start, t0, t1, h0, spawned, j);
    }
}

impl Graph {
    /// Finds the least cost pending edge out of the tree, dropping those
    /// that lead into it, and adds it to the tree; returns its far end,
    /// the node to spawn next, or `None` where no edge leaves the tree.
    fn take_crossing(&self, Ghost(start): Ghost<usize>, tree: &mut Graph, in_tree: &mut HashSet<usize>, heap: &mut Vec<Edge>,
        Ghost(spawned): Ghost<Seq<usize>>) -> (next: Option<usize>)
        requires
            closed(*self),
            costed(*self),
            prim_core(*self, self.nodes@.len() as nat, start, *old(tree), old(in_tree)@, old(heap)@, spawned),
            self.nodes@.len() < usize::MAX,
            forall|v: usize| #[trigger] old(tree).nodes@.contains(v) ==> spawned.contains(v),
            spawned.contains(start),
        ensures
            prim_ok(*self, self.nodes@.len() as nat, start, *final(tree), final(in_tree)@, final(heap)@, spawned, next),
    {
        let ghost n = self.nodes@.len() as nat;
        while heap.len() > 0
            invariant
                closed(*self),
                costed(*self),
                n == self.nodes@.len(),
                n < usize::MAX,
                prim_core(*self, n, start, *tree, in_tree@, heap@, spawned),
                forall|v: usize| #[trigger] tree.nodes@.contains(v) ==> spawned.contains(v),
                spawned.contains(start),
            decreases heap@.len(),
        {
            let best = least_cost(heap);
            let e = heap[best];
            proof {
                lemma_heap_edge(*self, n, start, *tree, in_tree@, heap@, spawned, best as int);
            }
            let a = e.0;
            let b = e.1.node();
            if in_tree.contains(&a) && in_tree.contains(&b) {
                let ghost hb = heap@;
                heap.remove(best);
                proof {
                    lemma_drop_stale(*self, n, start, *tree, in_tree@, hb, heap@, spawned, best as int);
                }
            } else {
                let ghost t0 = *tree;
                let ghost it0 = in_tree@;
                let ghost hb = heap@;
                tree.push_edge(e);
                heap.remove(best);
                in_tree.insert(a);
                in_tree.insert(b);
                proof {
                    lemma_prim_grow(*self, n, start, t0, *tree, it0, in_tree@, hb, heap@, spawned, best as int);
                }
                return Some(b);
            }
        }
        None
    }

    /// Prim's construction: from the first node, grows a tree one least
    /// cost edge at a time out of the tree to a node outside it, until the
    /// tree holds every node; `None` where no edge leaves the tree first.
    /// Edges from a node to itself never join the tree.  On a graph whose
    /// edges go both ways, every edge of the graph has its ends joined in
    /// the tree by edges no dearer than it.
    pub fn mst_prim(&self) -> (r: Option<Graph>)
        requires
            closed(*self),
            self.keys_are_nodes(),
            costed(*self),
            self.nodes@.len() > 0,
            self.nodes@.len() < usize::MAX,
            forall|v: usize| #[trigger] self.nodes@.contains(v) ==> self.edges@.contains_key(v),
        ensures
            r matches Some(t) ==> spanning(*self, t) && forall|v: usize| #[trigger] t.nodes@.contains(v) <==> self.nodes@.contains(v),
            r matches Some(t) ==> tree_sized_over(*self, t),
            r matches Some(t) ==> (undirected(*self) ==> no_dearer_paths(*self, t)),
            r is None ==> self.nodes@.len() == 1 || !connected(*self),
    {
        let n = self.nodes.len();
        let ghost nn = n as nat;
        let ghost g = *self;
        let start = self.nodes[0];
        assert(self.nodes@.contains(start));
        let mut tree = Graph::new();
        let mut in_tree: HashSet<usize> = HashSet::new();
        let mut heap: Vec<Edge> = Vec::new();
        let mut next: Option<usize> = Some(start);
        let ghost mut spawned: Seq<usize> = Seq::empty();
        proof {
            lemma_entries_over_zero(tree, g.nodes@);
            assert forall|y: usize, z: usize, c: int|
                (tree.nodes@.contains(y) || y == start) && (tree.nodes@.contains(z) || z == start)
                && #[trigger] reach_within(g, y, z, c) implies reach_within(tree, y, z, c) by {
                assert(light_walk(tree, seq![start], c));
            }
        }
        loop
            invariant
                g == *self,
                n == self.nodes@.len(),
                n < usize::MAX,
                nn == n,
                closed(*self),
                self.keys_are_nodes(),
                costed(*self),
                forall|v: usize| #[trigger] self.nodes@.contains(v) ==> self.edges@.contains_key(v),
                self.nodes@.contains(start),
                prim_ok(g, nn, start, tree, in_tree@, heap@, spawned, next),
            decreases n - spawned.len(),
        {
            proof {
                lemma_sub_len(spawned, self.nodes@);
            }
            if tree.nodes.len() == n {
                proof {
                    lemma_prim_done(g, nn, start, tree, in_tree@, heap@, spawned);
                    assert forall|u: usize, nt: NodeType| #[trigger] tree.adj(u).contains(nt) implies g.nodes@.contains(u) by {
                        assert(tree.nodes@.contains(u));
                    }
                    if undirected(g) {
                        assert forall|u: usize, nt: NodeType| g.nodes@.contains(u) && #[trigger] g.adj(u).contains(nt)
                            implies reach_within(tree, u, nt.spec_node(), cost_of(nt)) by {
                            let k = choose|k: int| 0 <= k < g.adj(u).len() && g.adj(u)[k] == nt;
                            assert(nt is NC);
                            let w = nt.spec_node();
                            assert(g.nodes@.contains(w));
                            assert(nt == NodeType::NC(w, nt->NC_1));
                            assert(light_edge(g, u, w, cost_of(nt)));
                            assert(light_walk(g, seq![u, w], cost_of(nt)));
                            assert(reach_within(g, u, w, cost_of(nt)));
                            assert(tree.nodes@.contains(u) && tree.nodes@.contains(w));
                        }
                    }
                }
                return Some(tree);
            }
            let src = match next {
                Some(x) => x,
                None => {
                    proof {
                        lemma_prim_stuck(g, nn, start, tree, in_tree@, heap@, spawned);
                    }
                    return None;
                },
            };
            // spawn `src`: its edges out of the tree are pending
            let ghost h0 = heap@;
            let ghost sp0 = spawned;
            proof {
                spawned = spawned.push(src);
                crate::graphs::lemma_push_to_set(sp0, src);
                assert(spawned.contains(src)) by {
                    assert(spawned[sp0.len() as int] == src);
                }
                assert forall|x: usize| sp0.contains(x) implies #[trigger] spawned.contains(x) by {
                    let q = choose|q: int| 0 <= q < sp0.len() && sp0[q] == x;
                    assert(spawned[q] == x);
                }
            }
            assert(self.nodes@.contains(src));
            match self.edges.get(&src) {
                Some(list) => {
                    assert(list@ == self.adj(src));
                    let mut k: usize = 0;
                    while k < list.len()
                        invariant
                            g == *self,
                            list@ == g.adj(src),
                            k <= list@.len(),
                            closed(g),
                            g.nodes@.contains(src),
                            nn == g.nodes@.len(),
                            forall|v: usize| #[trigger] in_tree@.contains(v) <==> tree.nodes@.contains(v),
                            forall|x: Edge| h0.contains(x) ==> #[trigger] heap@.contains(x),
                            forall|j: int| 0 <= j < heap@.len() ==> spawned.contains((#[trigger] heap@[j]).0) && g.adj(heap@[j].0).contains(heap@[j].1)
                                && heap@[j].0 != heap@[j].1.spec_node(),
                            spawned.contains(src),
                            forall|m: int| 0 <= m < k ==>
                                tree.nodes@.contains((#[trigger] g.adj(src)[m]).spec_node()) || g.adj(src)[m].spec_node() == src || heap@.contains(Edge(src, g.adj(src)[m])),
                        decreases list@.len() - k,
                    {
                        let nt = list[k];
                        let d = nt.node();
                        proof {
                            assert(g.adj(src)[k as int] == nt);
                            assert(g.nodes@.contains(d));
                        }
                        if !in_tree.contains(&d) && d != src {
                            let ghost hb = heap@;
                            heap.push(Edge(src, nt));
                            proof {
                                assert(heap@[hb.len() as int] == Edge(src, nt));
                                assert forall|x: Edge| h0.contains(x) implies #[trigger] heap@.contains(x) by {
                                    assert(hb.contains(x));
                                    let j = choose|j: int| 0 <= j < hb.len() && hb[j] == x;
                                    assert(heap@[j] == x);
                                }
                                assert forall|m: int| 0 <= m < k implies
                                    tree.nodes@.contains((#[trigger] g.adj(src)[m]).spec_node()) || g.adj(src)[m].spec_node() == src || heap@.contains(Edge(src, g.adj(src)[m])) by {
                                    if hb.contains(Edge(src, g.adj(src)[m])) {
                                        let j = choose|j: int| 0 <= j < hb.len() && hb[j] == Edge(src, g.adj(src)[m]);
                                        assert(heap@[j] == hb[j]);
                                    }
                                }
                                assert forall|j: int| 0 <= j < heap@.len() implies (spawned.contains((#[trigger] heap@[j]).0)
                                    && g.adj(heap@[j].0).contains(heap@[j].1)) by {
                                    if j < hb.len() {
                                        assert(heap@[j] == hb[j]);
                                    } else {
                                        assert(g.adj(src).contains(nt));
                                    }
                                }
                            }
                        }
                        k = k + 1;
                    }
                },
                None => {},
            }
            proof {
                lemma_prim_spawned(g, nn, start, tree, in_tree@, h0, heap@, sp0, spawned, src);
            }
            next = self.take_crossing(Ghost(start), &mut tree, &mut in_tree, &mut heap, Ghost(spawned));
            proof {
                lemma_sub_len(spawned, self.nodes@);
            }
        }
    }
}
/// The spanning tree constructions.
pub enum MstAlgo {
    Prim,
    Kruskal,
}

/// Builds a minimum spanning tree with a construction of the caller's
/// choice.
pub trait MinimumSpanningTree: Sized {
    /// The constructions can run on the graph.
    spec fn can_span(&self) -> bool;

    /// `r` is what construction `algo` returns on the graph.
    spec fn spans(&self, algo: MstAlgo, r: Option<Graph>) -> bool;

    /// Runs construction `algo`.
    fn min_spanning_tree(&self, algo: MstAlgo) -> (r: Option<Graph>)
        requires
            self.can_span(),
        ensures
            self.spans(algo, r),
    ;
}

impl MinimumSpanningTree for Graph {
    open spec fn can_span(&self) -> bool {
        &&& labelled(*self)
        &&& self.keys_are_nodes()
        &&& costed(*self)
        &&& self.nodes@.len() > 0
        &&& self.nodes@.len() < usize::MAX
        &&& forall|v: usize| #[trigger] self.nodes@.contains(v) ==> self.edges@.contains_key(v)
    }

    open spec fn spans(&self, algo: MstAlgo, r: Option<Graph>) -> bool {
        match algo {
            MstAlgo::Kruskal => spanning_result(*self, r) && (r matches Some(t) ==> tree_sized(*self, t) && no_dearer_paths(*self, t)),
            MstAlgo::Prim => {
                &&& r matches Some(t) ==> spanning(*self, t) && forall|v: usize| #[trigger] t.nodes@.contains(v) <==> self.nodes@.contains(v)
                &&& r matches Some(t) ==> tree_sized_over(*self, t)
                &&& r matches Some(t) ==> (undirected(*self) ==> no_dearer_paths(*self, t))
                &&& r is None ==> self.nodes@.len() == 1 || !connected(*self)
            },
        }
    }

    fn min_spanning_tree(&self, algo: MstAlgo) -> (r: Option<Graph>) {
        match algo {
            MstAlgo::Prim => self.mst_prim(),
            MstAlgo::Kruskal => self.mst_kruska(),
        }
    }
}

} // verus!
