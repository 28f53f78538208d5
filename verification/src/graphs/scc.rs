//! Depth first search over a graph: the transposed graph, a topological
//! order, and the strongly connected components.
use vstd::prelude::*;
use super::{Graph, NodeType, distinct};
use super::bfs::{reach, reachable, is_walk, lemma_reach_start, lemma_reach_monotonic, lemma_reach_trans};

verus! {

broadcast use vstd::std_specs::hash::group_hash_axioms;

/// Some edge among the first `k` out of `u` leads to `v`.
pub open spec fn edge_within(g: Graph, u: usize, v: usize, k: int) -> bool {
    exists|m: int| 0 <= m < k && m < g.adj(u).len() && (#[trigger] g.adj(u)[m]).spec_node() == v
}

/// `n` is the far end of an edge out of one of the nodes `nodes`.
pub open spec fn edge_target(g: Graph, nodes: Seq<usize>, n: usize) -> bool {
    exists|u: usize| nodes.contains(u) && #[trigger] g.has_edge(u, n)
}

/// Following the edges of `g` backwards from `v`: from `v` to each `u`
/// among `nodes` with an edge to `v`.
pub open spec fn reversed(g: Graph, nodes: Seq<usize>, t: Graph) -> bool {
    forall|v: usize, nt: NodeType| #[trigger] t.adj(v).contains(nt) <==>
        exists|u: usize| nt == NodeType::N(u) && nodes.contains(u) && #[trigger] g.has_edge(u, v)
}

/// A walk of the transposed graph, read backwards, is a walk of the graph.
pub proof fn lemma_reversed_walk(g: Graph, nodes: Seq<usize>, t: Graph, p: Seq<usize>)
    requires
        reversed(g, nodes, t),
        is_walk(t, p),
    ensures
        is_walk(g, p.reverse()),
{
    let q = p.reverse();
    assert forall|i: int| 0 <= i < q.len() - 1 implies g.has_edge(#[trigger] q[i], q[i + 1]) by {
        let j = p.len() - 2 - i;
        assert(q[i] == p[j + 1] && q[i + 1] == p[j]);
        assert(t.has_edge(p[j], p[j + 1]));
        let m = choose|m: int| 0 <= m < t.adj(p[j]).len() && (#[trigger] t.adj(p[j])[m]).spec_node() == p[j + 1];
        assert(t.adj(p[j]).contains(t.adj(p[j])[m]));
    }
}

/// Reaching `v` from `s` in the transposed graph is reaching `s` from `v`
/// in the graph.
pub proof fn lemma_reversed_reach(g: Graph, nodes: Seq<usize>, t: Graph, s: usize, v: usize)
    requires
        reversed(g, nodes, t),
        reachable(t, s, v),
    ensures
        reachable(g, v, s),
{
    let k = choose|k: nat| #[trigger] reach(t, s, k, v);
    let p = choose|p: Seq<usize>| #[trigger] is_walk(t, p) && p[0] == s && p.last() == v && p.len() <= k + 1;
    lemma_reversed_walk(g, nodes, t, p);
    let q = p.reverse();
    assert(q[0] == v && q.last() == s);
    assert(reach(g, v, k, s));
}

/// The nodes `nodes` lie in `1..=n`, and every edge out of one of them ends
/// at one of them.
pub open spec fn closed_in(g: Graph, nodes: Seq<usize>, n: nat) -> bool {
    &&& forall|v: usize| #[trigger] nodes.contains(v) ==> 1 <= v <= n
    &&& forall|u: usize, k: int| nodes.contains(u) && 0 <= k < g.adj(u).len() ==> nodes.contains((#[trigger] g.adj(u)[k]).spec_node())
}

/// The graph holds no node or edge twice, its nodes are numbered within
/// `1..=n` for `n` of them, and every edge out of a node ends at a node.
pub open spec fn labelled(g: Graph) -> bool {
    &&& g.wf()
    &&& closed_in(g, g.nodes@, g.nodes@.len() as nat)
}

/// `a` comes before `b` in `s`.
pub open spec fn before(s: Seq<usize>, a: usize, b: usize) -> bool {
    exists|i: int, j: int| #![trigger s[i], s[j]] 0 <= i < j < s.len() && s[i] == a && s[j] == b
}

/// The number of nodes the search has not reached.
spec fn zeros(s: Seq<u8>) -> nat
    decreases s.len(),
{
    if s.len() == 0 { 0 } else { zeros(s.drop_last()) + if s.last() == 0 { 1nat } else { 0nat } }
}

/// Reaching more nodes leaves no more unreached, and fewer where one more
/// is reached.
proof fn lemma_zeros_fewer(s: Seq<u8>, t: Seq<u8>, i: int)
    requires
        s.len() == t.len(),
        forall|j: int| 0 <= j < s.len() && s[j] != 0 ==> t[j] != 0,
    ensures
        zeros(t) <= zeros(s),
        0 <= i < s.len() && s[i] == 0 && t[i] != 0 ==> zeros(t) < zeros(s),
    decreases s.len(),
{
    if s.len() > 0 {
        let s1 = s.drop_last();
        let t1 = t.drop_last();
        assert forall|j: int| 0 <= j < s1.len() && s1[j] != 0 implies t1[j] != 0 by {
            assert(s[j] != 0);
        }
        lemma_zeros_fewer(s1, t1, i);
    }
}

/// A walk's nodes each reach its last node.
proof fn lemma_walk_reaches(g: Graph, p: Seq<usize>, j: int)
    requires
        p.len() > 0,
        forall|i: int| 0 <= i < p.len() - 1 ==> g.has_edge(#[trigger] p[i], p[i + 1]),
        0 <= j < p.len(),
    ensures
        reachable(g, p[j], p.last()),
{
    let q = p.subrange(j, p.len() as int);
    assert forall|i: int| 0 <= i < q.len() - 1 implies g.has_edge(#[trigger] q[i], q[i + 1]) by {
        assert(q[i] == p[j + i] && q[i + 1] == p[j + i + 1]);
    }
    assert(is_walk(g, q));
    assert(reach(g, p[j], q.len() as nat, p.last()));
}

/// An edge in front of a walk: `u` reaches whatever its neighbour `v`
/// reaches.
proof fn lemma_reach_prepend(g: Graph, u: usize, v: usize, x: usize)
    requires
        g.has_edge(u, v),
        reachable(g, v, x),
    ensures
        reachable(g, u, x),
{
    let k = choose|k: nat| #[trigger] reach(g, v, k, x);
    let p = choose|p: Seq<usize>| #[trigger] is_walk(g, p) && p[0] == v && p.last() == x && p.len() <= k + 1;
    let q = seq![u] + p;
    assert forall|i: int| 0 <= i < q.len() - 1 implies g.has_edge(#[trigger] q[i], q[i + 1]) by {
        if i == 0 {
            assert(q[1] == p[0]);
        } else {
            assert(q[i] == p[i - 1] && q[i + 1] == p[i]);
        }
    }
    assert(is_walk(g, q));
    assert(q.last() == x);
    assert(reach(g, u, k + 1, x));
}

/// A node reaches itself.
proof fn lemma_reach_self(g: Graph, u: usize)
    ensures
        reachable(g, u, u),
{
    lemma_reach_start(g, u);
}

/// Appending to a sequence keeps what came before what.
proof fn lemma_before_extend(p: Seq<usize>, q: Seq<usize>, a: usize, b: usize)
    requires
        before(p, a, b),
        p.len() <= q.len(),
        forall|i: int| 0 <= i < p.len() ==> q[i] == p[i],
    ensures
        before(q, a, b),
{
    let (i, j) = choose|i: int, j: int| #![trigger p[i], p[j]] 0 <= i < j < p.len() && p[i] == a && p[j] == b;
    assert(q[i] == a && q[j] == b);
}

/// No finished node has an edge to an unreached node.
#[verifier::opaque]
spec fn closed_black(g: Graph, n: nat, state: Seq<u8>) -> bool {
    forall|x: int, k: int| 1 <= x <= n && #[trigger] state[x - 1] == 2 && 0 <= k < g.adj(x as usize).len() ==>
        1 <= (#[trigger] g.adj(x as usize)[k]).spec_node() <= n && state[g.adj(x as usize)[k].spec_node() - 1] != 0
}

/// A finished node `c` that reaches a node `d` not reaching it back shares
/// its component with a node that finished after `d`, or that is still on
/// the stack.
#[verifier::opaque]
spec fn kos(g: Graph, path: Seq<usize>, stack: Seq<usize>) -> bool {
    forall|c: usize, d: usize| #![trigger path.contains(c), reachable(g, c, d)]
        path.contains(c) && reachable(g, c, d) && !reachable(g, d, c) ==>
        exists|z: usize| #![trigger reachable(g, z, c)]
            reachable(g, c, z) && reachable(g, z, c) && (before(path, d, z) || stack.contains(z))
}

/// Nothing finished and nothing on the stack.
proof fn lemma_kos_fresh(g: Graph, n: nat, state: Seq<u8>)
    requires
        state.len() == n,
        forall|q: int| 0 <= q < n ==> state[q] == 0,
    ensures
        closed_black(g, n, state),
        kos(g, Seq::empty(), Seq::empty()),
{
    reveal(closed_black);
    reveal(kos);
}

/// Putting unreached `u` on the stack keeps both facts.
proof fn lemma_enter_kos(g: Graph, n: nat, s0: Seq<u8>, path: Seq<usize>, stack: Seq<usize>, u: usize)
    requires
        closed_black(g, n, s0),
        kos(g, path, stack),
        1 <= u <= n,
        s0.len() == n,
        s0[u - 1] == 0,
    ensures
        closed_black(g, n, s0.update(u - 1, 1)),
        kos(g, path, stack.push(u)),
{
    reveal(closed_black);
    reveal(kos);
    let s1 = s0.update(u - 1, 1);
    assert forall|x: int, k: int| 1 <= x <= n && #[trigger] s1[x - 1] == 2 && 0 <= k < g.adj(x as usize).len() implies
        1 <= (#[trigger] g.adj(x as usize)[k]).spec_node() <= n && s1[g.adj(x as usize)[k].spec_node() - 1] != 0 by {
        assert(x != u);
        assert(s0[x - 1] == 2);
        let y = g.adj(x as usize)[k].spec_node();
        assert(s0[y - 1] != 0);
    }
    assert forall|c: usize, d: usize| #![trigger path.contains(c), reachable(g, c, d)]
        path.contains(c) && reachable(g, c, d) && !reachable(g, d, c) implies
        exists|z: usize| #![trigger reachable(g, z, c)]
            reachable(g, c, z) && reachable(g, z, c) && (before(path, d, z) || stack.push(u).contains(z)) by {
        let z = choose|z: usize| #![trigger reachable(g, z, c)]
            reachable(g, c, z) && reachable(g, z, c) && (before(path, d, z) || stack.contains(z));
        if stack.contains(z) {
            let j = choose|j: int| 0 <= j < stack.len() && stack[j] == z;
            assert(stack.push(u)[j] == z);
        }
    }
}

/// The far end of an edge out of `u`, the top of the stack, or out of a
/// finished node is finished, `u`, or on the stack below `u`.
proof fn lemma_next_reached(g: Graph, nodes: Seq<usize>, n: nat, state: Seq<u8>, path: Seq<usize>, stack: Seq<usize>, u: usize, a: usize, b: usize)
    requires
        dfs_ok(g, nodes, n, state, path, stack.push(u)),
        closed_black(g, n, state),
        nodes.contains(u),
        forall|m: int| 0 <= m < g.adj(u).len() ==> state[(#[trigger] g.adj(u)[m]).spec_node() - 1] != 0,
        a == u || path.contains(a),
        g.has_edge(a, b),
    ensures
        path.contains(b) || b == u || stack.contains(b),
{
    reveal(dfs_ok);
    reveal(closed_black);
    let m = choose|m: int| 0 <= m < g.adj(a).len() && (#[trigger] g.adj(a)[m]).spec_node() == b;
    if a != u {
        let j = choose|j: int| 0 <= j < path.len() && path[j] == a;
        assert(state[path[j] - 1] == 2);
        assert(state[(a as int) - 1] == 2);
        assert(g.adj(a as int as usize)[m] == g.adj(a)[m]);
    }
    assert(nodes.contains(a)) by {
        if a != u {
            let j = choose|j: int| 0 <= j < path.len() && path[j] == a;
            assert(state[path[j] - 1] == 2);
        }
    }
    assert(nodes.contains(b));
    assert(1 <= b <= n);
    assert(state[b - 1] != 0);
    if state[b - 1] == 1 {
        let j = choose|j: int| 0 <= j < stack.push(u).len() && stack.push(u)[j] == b;
        if j < stack.len() {
            assert(stack[j] == b);
        }
    }
}

/// A walk out of `u`, the top of the stack, whose edges out of `u` and out
/// of finished nodes all lead to reached nodes: it stays among `u` and the
/// finished nodes, or meets a node on the stack below `u`.
proof fn lemma_gray_exit(g: Graph, nodes: Seq<usize>, n: nat, state: Seq<u8>, path: Seq<usize>, stack: Seq<usize>, u: usize, p: Seq<usize>)
    requires
        dfs_ok(g, nodes, n, state, path, stack.push(u)),
        closed_black(g, n, state),
        nodes.contains(u),
        forall|m: int| 0 <= m < g.adj(u).len() ==> state[(#[trigger] g.adj(u)[m]).spec_node() - 1] != 0,
        is_walk(g, p),
        p[0] == u,
    ensures
        (forall|i: int| 0 <= i < p.len() ==> #[trigger] p[i] == u || path.contains(p[i]))
        || exists|i: int| 0 < i < p.len() && #[trigger] stack.contains(p[i]) && reachable(g, u, p[i]),
    decreases p.len(),
{
    if p.len() > 1 {
        let q = p.drop_last();
        assert forall|i: int| 0 <= i < q.len() - 1 implies g.has_edge(#[trigger] q[i], q[i + 1]) by {
            assert(q[i] == p[i] && q[i + 1] == p[i + 1]);
        }
        lemma_gray_exit(g, nodes, n, state, path, stack, u, q);
        if forall|i: int| 0 <= i < q.len() ==> #[trigger] q[i] == u || path.contains(q[i]) {
            let a = q.last();
            let b = p.last();
            assert(a == p[p.len() - 2]);
            assert(g.has_edge(a, b));
            assert(a == u || path.contains(a));
            lemma_next_reached(g, nodes, n, state, path, stack, u, a, b);
            if stack.contains(b) && b != u {
                assert(stack.contains(p[p.len() - 1]));
                assert(reach(g, u, (p.len() - 1) as nat, b));
                assert(reachable(g, u, p[p.len() - 1]));
            } else {
                assert forall|i: int| 0 <= i < p.len() implies #[trigger] p[i] == u || path.contains(p[i]) by {
                    if i < q.len() {
                        assert(p[i] == q[i]);
                    }
                }
            }
        } else {
            let i = choose|i: int| 0 < i < q.len() && #[trigger] stack.contains(q[i]) && reachable(g, u, q[i]);
            assert(p[i] == q[i]);
        }
    }
}

/// When `u`, of the component of `c`, finishes, a node `d` that `c`
/// reaches and that does not reach `c` either finished before `u` or is
/// reached from a node of the component still on the stack.
proof fn lemma_from_top(g: Graph, nodes: Seq<usize>, n: nat, sp: Seq<u8>, pre: Seq<usize>, stack: Seq<usize>, u: usize, c: usize, d: usize)
    requires
        dfs_ok(g, nodes, n, sp, pre, stack.push(u)),
        closed_black(g, n, sp),
        nodes.contains(u),
        forall|m: int| 0 <= m < g.adj(u).len() ==> sp[(#[trigger] g.adj(u)[m]).spec_node() - 1] != 0,
        reachable(g, c, u),
        reachable(g, u, c),
        reachable(g, c, d),
        !reachable(g, d, c),
    ensures
        exists|z: usize| #![trigger reachable(g, z, c)]
            reachable(g, c, z) && reachable(g, z, c) && (before(pre.push(u), d, z) || stack.contains(z)),
{
    lemma_reach_trans(g, u, c, d);
    let k = choose|k: nat| #[trigger] reach(g, u, k, d);
    let p = choose|p: Seq<usize>| #[trigger] is_walk(g, p) && p[0] == u && p.last() == d && p.len() <= k + 1;
    lemma_gray_exit(g, nodes, n, sp, pre, stack, u, p);
    let path = pre.push(u);
    if forall|i: int| 0 <= i < p.len() ==> #[trigger] p[i] == u || pre.contains(p[i]) {
        assert(p[p.len() - 1] == u || pre.contains(p[p.len() - 1]));
        if d == u {
            assert(false);
        }
        let j = choose|j: int| 0 <= j < pre.len() && pre[j] == d;
        assert(path[j] == d && path[pre.len() as int] == u);
        assert(before(path, d, u));
        assert(reachable(g, u, c));
    } else {
        let i = choose|i: int| 0 < i < p.len() && #[trigger] stack.contains(p[i]) && reachable(g, u, p[i]);
        let q = p[i];
        reveal(dfs_ok);
        let st1 = stack.push(u);
        let j = choose|j: int| 0 <= j < stack.len() && stack[j] == q;
        assert(st1[j] == q);
        lemma_walk_reaches(g, st1, j);
        assert(st1.last() == u);
        lemma_reach_trans(g, q, u, c);
        lemma_reach_trans(g, c, u, q);
        assert(reachable(g, q, c));
    }
}

/// Finishing `u`, whose edges all lead to reached nodes, keeps both facts.
proof fn lemma_finish_kos(g: Graph, nodes: Seq<usize>, n: nat, sp: Seq<u8>, pre: Seq<usize>, stack: Seq<usize>, u: usize)
    requires
        dfs_ok(g, nodes, n, sp, pre, stack.push(u)),
        closed_black(g, n, sp),
        kos(g, pre, stack.push(u)),
        nodes.contains(u),
        1 <= u <= n,
        sp.len() == n,
        !stack.contains(u),
        forall|m: int| 0 <= m < g.adj(u).len() ==> sp[(#[trigger] g.adj(u)[m]).spec_node() - 1] != 0,
    ensures
        closed_black(g, n, sp.update(u - 1, 2)),
        kos(g, pre.push(u), stack),
{
    let s2 = sp.update(u - 1, 2);
    let path = pre.push(u);
    assert(closed_black(g, n, s2)) by {
        reveal(closed_black);
        assert forall|x: int, k: int| 1 <= x <= n && #[trigger] s2[x - 1] == 2 && 0 <= k < g.adj(x as usize).len() implies
            1 <= (#[trigger] g.adj(x as usize)[k]).spec_node() <= n && s2[g.adj(x as usize)[k].spec_node() - 1] != 0 by {
            let y = g.adj(x as usize)[k].spec_node();
            if x == u {
                assert(g.adj(u)[k] == g.adj(x as usize)[k]);
                assert(sp[y - 1] != 0);
                reveal(dfs_ok);
                assert(nodes.contains(y));
            } else {
                assert(sp[x - 1] == 2);
                assert(sp[y - 1] != 0);
            }
        }
    }
    reveal(kos);
    assert forall|c: usize, d: usize| #![trigger path.contains(c), reachable(g, c, d)]
        path.contains(c) && reachable(g, c, d) && !reachable(g, d, c) implies
        exists|z: usize| #![trigger reachable(g, z, c)]
            reachable(g, c, z) && reachable(g, z, c) && (before(path, d, z) || stack.contains(z)) by {
        if c == u {
            lemma_reach_self(g, u);
            lemma_from_top(g, nodes, n, sp, pre, stack, u, c, d);
        } else {
            assert(pre.contains(c)) by {
                let j = choose|j: int| 0 <= j < path.len() && path[j] == c;
                assert(j < pre.len());
                assert(pre[j] == c);
            }
            let z = choose|z: usize| #![trigger reachable(g, z, c)]
                reachable(g, c, z) && reachable(g, z, c) && (before(pre, d, z) || stack.push(u).contains(z));
            if before(pre, d, z) {
                lemma_before_extend(pre, path, d, z);
            } else if stack.contains(z) {
            } else {
                assert(z == u) by {
                    let j = choose|j: int| 0 <= j < stack.push(u).len() && stack.push(u)[j] == z;
                    if j < stack.len() {
                        assert(stack[j] == z);
                    }
                }
                lemma_from_top(g, nodes, n, sp, pre, stack, u, c, d);
            }
        }
    }
}

/// With nothing on the stack, whatever a finished node reaches is finished.
proof fn lemma_black_walk(g: Graph, nodes: Seq<usize>, n: nat, state: Seq<u8>, path: Seq<usize>, p: Seq<usize>)
    requires
        dfs_ok(g, nodes, n, state, path, Seq::empty()),
        closed_black(g, n, state),
        is_walk(g, p),
        1 <= p[0] <= n,
        state[p[0] - 1] == 2,
    ensures
        1 <= p.last() <= n,
        state[p.last() - 1] == 2,
    decreases p.len(),
{
    if p.len() > 1 {
        let q = p.drop_last();
        assert forall|i: int| 0 <= i < q.len() - 1 implies g.has_edge(#[trigger] q[i], q[i + 1]) by {
            assert(q[i] == p[i] && q[i + 1] == p[i + 1]);
        }
        lemma_black_walk(g, nodes, n, state, path, q);
        reveal(dfs_ok);
        reveal(closed_black);
        let a = q.last();
        let b = p.last();
        assert(a == p[p.len() - 2]);
        assert(g.has_edge(a, b));
        let m = choose|m: int| 0 <= m < g.adj(a).len() && (#[trigger] g.adj(a)[m]).spec_node() == b;
        assert(state[(a as int) - 1] == 2);
        assert(g.adj(a as int as usize)[m] == g.adj(a)[m]);
        assert(nodes.contains(a));
        assert(nodes.contains(b));
        assert(state[b - 1] != 0);
        if state[b - 1] == 1 {
            assert(Seq::<usize>::empty().contains(b));
        }
    }
}

/// With nothing on the stack, whatever a finished node reaches is finished.
proof fn lemma_black_reach(g: Graph, nodes: Seq<usize>, n: nat, state: Seq<u8>, path: Seq<usize>, x: usize, y: usize)
    requires
        dfs_ok(g, nodes, n, state, path, Seq::empty()),
        closed_black(g, n, state),
        1 <= x <= n,
        state[x - 1] == 2,
        reachable(g, x, y),
    ensures
        1 <= y <= n,
        state[y - 1] == 2,
{
    let k = choose|k: nat| #[trigger] reach(g, x, k, y);
    let p = choose|p: Seq<usize>| #[trigger] is_walk(g, p) && p[0] == x && p.last() == y && p.len() <= k + 1;
    lemma_black_walk(g, nodes, n, state, path, p);
}

/// The facts a depth first search over `nodes` keeps: each node's state is
/// unreached (0), on the search stack (1) or finished (2); the finished
/// nodes are those of `path`, in the order they finished, each once; the
/// stack's nodes follow edges; and each edge out of a finished node ends
/// at a node that finished earlier, or at one that reaches it.
#[verifier::opaque]
spec fn dfs_ok(g: Graph, nodes: Seq<usize>, n: nat, state: Seq<u8>, path: Seq<usize>, stack: Seq<usize>) -> bool {
    &&& closed_in(g, nodes, n)
    &&& n < usize::MAX
    &&& state.len() == n
    &&& forall|v: int| 1 <= v <= n ==> #[trigger] state[v - 1] <= 2
    &&& forall|v: int| 1 <= v <= n && #[trigger] state[v - 1] != 0 ==> nodes.contains(v as usize)
    &&& distinct(path)
    &&& forall|i: int| 0 <= i < path.len() ==> 1 <= #[trigger] path[i] <= n && state[path[i] - 1] == 2
    &&& forall|v: int| 1 <= v <= n && #[trigger] state[v - 1] == 2 ==> path.contains(v as usize)
    &&& forall|i: int| 0 <= i < stack.len() ==> 1 <= #[trigger] stack[i] <= n && state[stack[i] - 1] == 1
    &&& forall|v: int| 1 <= v <= n && #[trigger] state[v - 1] == 1 ==> stack.contains(v as usize)
    &&& forall|i: int| 0 <= i < stack.len() - 1 ==> g.has_edge(#[trigger] stack[i], stack[i + 1])
    &&& forall|i: int, k: int| 0 <= i < path.len() && 0 <= k < g.adj(path[i]).len() ==>
        before(path, (#[trigger] g.adj(#[trigger] path[i])[k]).spec_node(), path[i])
        || reachable(g, g.adj(path[i])[k].spec_node(), path[i])
}

/// Putting unreached `u` on the stack keeps the search's facts.
proof fn lemma_enter(g: Graph, nodes: Seq<usize>, n: nat, s0: Seq<u8>, path: Seq<usize>, stack: Seq<usize>, u: usize)
    requires
        dfs_ok(g, nodes, n, s0, path, stack),
        nodes.contains(u),
        s0[u - 1] == 0,
        stack.len() > 0 ==> g.has_edge(stack.last(), u),
    ensures
        dfs_ok(g, nodes, n, s0.update(u - 1, 1), path, stack.push(u)),
        !stack.contains(u),
        !path.contains(u),
        1 <= u <= n,
{
    reveal(dfs_ok);
    let s1 = s0.update(u - 1, 1);
    let st1 = stack.push(u);
    assert(st1[stack.len() as int] == u);
    assert forall|v: int| 1 <= v <= n && #[trigger] s1[v - 1] == 1 implies st1.contains(v as usize) by {
        if v != u {
            assert(s0[v - 1] == 1);
            let j = choose|j: int| 0 <= j < stack.len() && stack[j] == v as usize;
            assert(st1[j] == v as usize);
        }
    }
    assert forall|i: int| 0 <= i < st1.len() implies 1 <= #[trigger] st1[i] <= n && s1[st1[i] - 1] == 1 by {
        if i < stack.len() {
            assert(st1[i] == stack[i]);
            assert(stack[i] != u);
        }
    }
    assert forall|i: int| 0 <= i < st1.len() - 1 implies g.has_edge(#[trigger] st1[i], st1[i + 1]) by {
        if i < stack.len() - 1 {
            assert(st1[i] == stack[i] && st1[i + 1] == stack[i + 1]);
        } else {
            assert(st1[i] == stack.last());
        }
    }
    assert forall|v: int| 1 <= v <= n && #[trigger] s1[v - 1] != 0 implies nodes.contains(v as usize) by {
        if v != u {
            assert(s0[v - 1] != 0);
        }
    }
    assert forall|i: int| 0 <= i < path.len() implies 1 <= #[trigger] path[i] <= n && s1[path[i] - 1] == 2 by {
        assert(path[i] != u);
    }
    assert forall|v: int| 1 <= v <= n implies #[trigger] s1[v - 1] <= 2 by {
        if v != u {
            assert(s0[v - 1] <= 2);
        }
    }
    assert forall|v: int| 1 <= v <= n && #[trigger] s1[v - 1] == 2 implies path.contains(v as usize) by {
        assert(v != u);
    }
    if stack.contains(u) {
        let j = choose|j: int| 0 <= j < stack.len() && stack[j] == u;
    }
    if path.contains(u) {
        let j = choose|j: int| 0 <= j < path.len() && path[j] == u;
    }
}

/// A node on the stack reaches the top of the stack; a finished node is
/// on the path; the far end of an edge out of a node is a node.
proof fn lemma_state(g: Graph, nodes: Seq<usize>, n: nat, state: Seq<u8>, path: Seq<usize>, stack: Seq<usize>, u: usize, k: int)
    requires
        dfs_ok(g, nodes, n, state, path, stack),
        stack.len() > 0,
        nodes.contains(u),
        0 <= k < g.adj(u).len(),
    ensures
        nodes.contains(g.adj(u)[k].spec_node()),
        1 <= g.adj(u)[k].spec_node() <= n,
        state[g.adj(u)[k].spec_node() - 1] <= 2,
        state[g.adj(u)[k].spec_node() - 1] == 1 ==> reachable(g, g.adj(u)[k].spec_node(), stack.last()),
        state[g.adj(u)[k].spec_node() - 1] == 2 ==> path.contains(g.adj(u)[k].spec_node()),
        state.len() == n,
{
    reveal(dfs_ok);
    let v = g.adj(u)[k].spec_node();
    assert(nodes.contains(v));
    if state[v - 1] == 1 {
        let j = choose|j: int| 0 <= j < stack.len() && stack[j] == v;
        lemma_walk_reaches(g, stack, j);
    }
}

/// Finishing `u`, the top of the stack, once every edge out of it ends at
/// a finished node or at one that reaches it, keeps the search's facts.
proof fn lemma_finish(g: Graph, nodes: Seq<usize>, n: nat, sp: Seq<u8>, pre: Seq<usize>, stack: Seq<usize>, u: usize)
    requires
        dfs_ok(g, nodes, n, sp, pre, stack.push(u)),
        !stack.contains(u),
        !pre.contains(u),
        1 <= u <= n,
        forall|m: int| 0 <= m < g.adj(u).len() ==> pre.contains((#[trigger] g.adj(u)[m]).spec_node())
            || reachable(g, g.adj(u)[m].spec_node(), u),
    ensures
        dfs_ok(g, nodes, n, sp.update(u - 1, 2), pre.push(u), stack),
{
    reveal(dfs_ok);
    let st1 = stack.push(u);
    let s2 = sp.update(u - 1, 2);
    let path = pre.push(u);
    assert(st1[stack.len() as int] == u);
    super::lemma_push_to_set(pre, u);
    assert(path[pre.len() as int] == u);
    assert(sp[u - 1] == 1);
    assert forall|v: int| 1 <= v <= n implies #[trigger] s2[v - 1] <= 2 by {
        if v != u {
            assert(sp[v - 1] <= 2);
        }
    }
    assert forall|v: int| 1 <= v <= n && #[trigger] s2[v - 1] != 0 implies nodes.contains(v as usize) by {
        assert(sp[v - 1] != 0);
    }
    assert forall|i: int| 0 <= i < path.len() implies 1 <= #[trigger] path[i] <= n && s2[path[i] - 1] == 2 by {
        if i < pre.len() {
            assert(path[i] == pre[i]);
            assert(pre[i] != u);
        }
    }
    assert forall|v: int| 1 <= v <= n && #[trigger] s2[v - 1] == 2 implies path.contains(v as usize) by {
        if v != u {
            assert(sp[v - 1] == 2);
            let j = choose|j: int| 0 <= j < pre.len() && pre[j] == v as usize;
            assert(path[j] == v as usize);
        }
    }
    assert forall|i: int| 0 <= i < stack.len() implies 1 <= #[trigger] stack[i] <= n && s2[stack[i] - 1] == 1 by {
        assert(st1[i] == stack[i]);
        assert(stack[i] != u);
    }
    assert forall|v: int| 1 <= v <= n && #[trigger] s2[v - 1] == 1 implies stack.contains(v as usize) by {
        assert(v != u);
        assert(sp[v - 1] == 1);
        let j = choose|j: int| 0 <= j < st1.len() && st1[j] == v as usize;
        assert(j != stack.len());
        assert(stack[j] == v as usize);
    }
    assert forall|i: int| 0 <= i < stack.len() - 1 implies g.has_edge(#[trigger] stack[i], stack[i + 1]) by {
        assert(st1[i] == stack[i] && st1[i + 1] == stack[i + 1]);
    }
    assert forall|i: int, k: int| 0 <= i < path.len() && 0 <= k < g.adj(path[i]).len() implies
        before(path, (#[trigger] g.adj(#[trigger] path[i])[k]).spec_node(), path[i])
        || reachable(g, g.adj(path[i])[k].spec_node(), path[i]) by {
        let y = g.adj(path[i])[k].spec_node();
        if i < pre.len() {
            assert(path[i] == pre[i]);
            if before(pre, y, pre[i]) {
                lemma_before_extend(pre, path, y, pre[i]);
            }
        } else {
            assert(path[i] == u);
            if pre.contains(y) {
                let j = choose|j: int| 0 <= j < pre.len() && pre[j] == y;
                assert(path[j] == y);
                assert(before(path, y, u));
            }
        }
    }
}

/// A search with nothing reached yet.
proof fn lemma_dfs_fresh(g: Graph, nodes: Seq<usize>, n: nat, state: Seq<u8>)
    requires
        closed_in(g, nodes, n),
        n < usize::MAX,
        state.len() == n,
        forall|q: int| 0 <= q < n ==> state[q] == 0,
    ensures
        dfs_ok(g, nodes, n, state, Seq::empty(), Seq::empty()),
{
    reveal(dfs_ok);
}

/// Once every node of `nodes` is finished, the path holds each of them
/// once and nothing else, and each edge out of a node ends at a node that
/// finished earlier or at one that reaches it.
proof fn lemma_dfs_done(g: Graph, nodes: Seq<usize>, n: nat, state: Seq<u8>, path: Seq<usize>)
    requires
        dfs_ok(g, nodes, n, state, path, Seq::empty()),
        forall|v: usize| #[trigger] nodes.contains(v) ==> state[v - 1] == 2,
    ensures
        distinct(path),
        forall|v: usize| #[trigger] path.contains(v) <==> nodes.contains(v),
        forall|x: usize, k: int| nodes.contains(x) && 0 <= k < g.adj(x).len() ==>
            before(path, (#[trigger] g.adj(x)[k]).spec_node(), x) || reachable(g, g.adj(x)[k].spec_node(), x),
{
    reveal(dfs_ok);
    assert forall|v: usize| #[trigger] path.contains(v) <==> nodes.contains(v) by {
        if path.contains(v) {
            let j = choose|j: int| 0 <= j < path.len() && path[j] == v;
            assert(state[path[j] - 1] != 0);
            assert(nodes.contains(((v as int - 1) + 1) as usize));
        }
        if nodes.contains(v) {
            assert(1 <= v <= n);
            assert(state[(v as int) - 1] == 2);
        }
    }
    assert forall|x: usize, k: int| nodes.contains(x) && 0 <= k < g.adj(x).len() implies
        before(path, (#[trigger] g.adj(x)[k]).spec_node(), x) || reachable(g, g.adj(x)[k].spec_node(), x) by {
        assert(path.contains(x));
        let i = choose|i: int| 0 <= i < path.len() && path[i] == x;
        assert(g.adj(path[i])[k] == g.adj(x)[k]);
    }
}

/// Reading a sequence backwards turns what came before into what comes
/// after, and keeps its items and their distinctness.
proof fn lemma_reverse(s: Seq<usize>)
    ensures
        forall|a: usize, b: usize| before(s, a, b) ==> #[trigger] before(s.reverse(), b, a),
        forall|v: usize| #[trigger] s.reverse().contains(v) <==> s.contains(v),
        distinct(s) ==> distinct(s.reverse()),
{
    let r = s.reverse();
    assert forall|a: usize, b: usize| before(s, a, b) implies #[trigger] before(r, b, a) by {
        let (i, j) = choose|i: int, j: int| #![trigger s[i], s[j]] 0 <= i < j < s.len() && s[i] == a && s[j] == b;
        let i2 = s.len() - 1 - j;
        let j2 = s.len() - 1 - i;
        assert(r[i2] == b && r[j2] == a);
    }
    assert forall|v: usize| #[trigger] r.contains(v) <==> s.contains(v) by {
        if r.contains(v) {
            let j = choose|j: int| 0 <= j < r.len() && r[j] == v;
            assert(s[s.len() - 1 - j] == v);
        }
        if s.contains(v) {
            let j = choose|j: int| 0 <= j < s.len() && s[j] == v;
            assert(r[s.len() - 1 - j] == v);
        }
    }
    if distinct(s) {
        assert forall|a: int, b: int| 0 <= a < b < r.len() implies #[trigger] r[a] != #[trigger] r[b] by {
            assert(r[a] == s[s.len() - 1 - a] && r[b] == s[s.len() - 1 - b]);
        }
    }
}

/// The transposed graph of a labelled graph keeps within its nodes.
proof fn lemma_transposed_closed(g: Graph, t: Graph)
    requires
        labelled(g),
        reversed(g, g.nodes@, t),
    ensures
        closed_in(t, g.nodes@, g.nodes@.len() as nat),
{
    assert forall|u: usize, k: int| g.nodes@.contains(u) && 0 <= k < t.adj(u).len() implies
        g.nodes@.contains((#[trigger] t.adj(u)[k]).spec_node()) by {
        assert(t.adj(u).contains(t.adj(u)[k]));
    }
}

/// A walk out of a node of `nodes`, where every edge out of one of them
/// ends at one of them, stays among them.
proof fn lemma_walk_in(g: Graph, nodes: Seq<usize>, n: nat, p: Seq<usize>)
    requires
        closed_in(g, nodes, n),
        is_walk(g, p),
        nodes.contains(p[0]),
    ensures
        forall|i: int| 0 <= i < p.len() ==> nodes.contains(#[trigger] p[i]),
    decreases p.len(),
{
    if p.len() > 1 {
        let q = p.drop_last();
        assert forall|i: int| 0 <= i < q.len() - 1 implies g.has_edge(#[trigger] q[i], q[i + 1]) by {
            assert(q[i] == p[i] && q[i + 1] == p[i + 1]);
        }
        lemma_walk_in(g, nodes, n, q);
        let a = p[p.len() - 2];
        assert(a == q[q.len() - 1]);
        assert(g.has_edge(a, p.last()));
        let m = choose|m: int| 0 <= m < g.adj(a).len() && (#[trigger] g.adj(a)[m]).spec_node() == p.last();
        assert forall|i: int| 0 <= i < p.len() implies nodes.contains(#[trigger] p[i]) by {
            if i < q.len() {
                assert(p[i] == q[i]);
            }
        }
    }
}

/// A node of `nodes` reaching `v` in the graph is reached from `v` in the
/// transposed graph.
pub proof fn lemma_reach_transposed(g: Graph, nodes: Seq<usize>, n: nat, t: Graph, s: usize, v: usize)
    requires
        reversed(g, nodes, t),
        closed_in(g, nodes, n),
        nodes.contains(s),
        reachable(g, s, v),
    ensures
        reachable(t, v, s),
{
    let k = choose|k: nat| #[trigger] reach(g, s, k, v);
    let p = choose|p: Seq<usize>| #[trigger] is_walk(g, p) && p[0] == s && p.last() == v && p.len() <= k + 1;
    lemma_walk_in(g, nodes, n, p);
    let q = p.reverse();
    assert forall|i: int| 0 <= i < q.len() - 1 implies t.has_edge(#[trigger] q[i], q[i + 1]) by {
        let j = p.len() - 2 - i;
        assert(q[i] == p[j + 1] && q[i + 1] == p[j]);
        assert(g.has_edge(p[j], p[j + 1]));
        assert(nodes.contains(p[j]));
        let nt = NodeType::N(p[j]);
        assert(t.adj(p[j + 1]).contains(nt));
        let m = choose|m: int| 0 <= m < t.adj(p[j + 1]).len() && #[trigger] t.adj(p[j + 1])[m] == nt;
        assert(t.adj(p[j + 1])[m].spec_node() == p[j]);
    }
    assert(is_walk(t, q));
    assert(q[0] == v && q.last() == s);
    assert(reach(t, v, k, s));
}

/// The nodes of a search's path are finished.
proof fn lemma_path_black(g: Graph, nodes: Seq<usize>, n: nat, state: Seq<u8>, path: Seq<usize>, stack: Seq<usize>)
    requires
        dfs_ok(g, nodes, n, state, path, stack),
    ensures
        forall|i: int| 0 <= i < path.len() ==> 1 <= #[trigger] path[i] <= n && state[path[i] - 1] == 2,
        forall|i: int| 0 <= i < path.len() ==> nodes.contains(#[trigger] path[i]),
{
    reveal(dfs_ok);
    assert forall|i: int| 0 <= i < path.len() implies nodes.contains(#[trigger] path[i]) by {
        assert(state[path[i] - 1] != 0);
        assert(nodes.contains(((path[i] as int - 1) + 1) as usize));
    }
}

/// The nodes a search from an empty stack adds to the path were unreached
/// before it.
proof fn lemma_new_white(g: Graph, nodes: Seq<usize>, n: nat, sb: Seq<u8>, pb: Seq<usize>, sa: Seq<u8>, pa: Seq<usize>)
    requires
        dfs_ok(g, nodes, n, sb, pb, Seq::empty()),
        dfs_ok(g, nodes, n, sa, pa, Seq::empty()),
        pb.len() <= pa.len(),
        forall|i: int| 0 <= i < pb.len() ==> #[trigger] pa[i] == pb[i],
    ensures
        forall|i: int| pb.len() <= i < pa.len() ==> 1 <= #[trigger] pa[i] <= n && sb[pa[i] - 1] == 0,
{
    reveal(dfs_ok);
    assert forall|i: int| pb.len() <= i < pa.len() implies 1 <= #[trigger] pa[i] <= n && sb[pa[i] - 1] == 0 by {
        let w = pa[i];
        assert(1 <= w <= n);
        assert(sb[w - 1] <= 2);
        if sb[w - 1] == 2 {
            assert(pb.contains(((w as int - 1) + 1) as usize));
            let j = choose|j: int| 0 <= j < pb.len() && pb[j] == w;
            assert(pa[j] == w);
        }
        if sb[w - 1] == 1 {
            assert(Seq::<usize>::empty().contains(((w as int - 1) + 1) as usize));
        }
    }
}

/// A node of a component is a node of the components together.
proof fn lemma_flat_contains(r: Seq<Vec<usize>>, c: int, j: int)
    requires
        0 <= c < r.len(),
        0 <= j < r[c]@.len(),
    ensures
        flat(r).contains(r[c]@[j]),
    decreases r.len(),
{
    let last = r.len() - 1;
    let r0 = r.drop_last();
    assert(r0.push(r[last]) =~= r);
    lemma_flat_push(r0, r[last]);
    if c == last {
        assert((flat(r0) + r[last]@)[flat(r0).len() + j] == r[c]@[j]);
    } else {
        lemma_flat_contains(r0, c, j);
        let k = choose|k: int| 0 <= k < flat(r0).len() && flat(r0)[k] == r[c]@[j];
        assert((flat(r0) + r[last]@)[k] == r[c]@[j]);
    }
}

/// The nodes of the components, one component after another.
pub open spec fn flat(r: Seq<Vec<usize>>) -> Seq<usize> {
    r.map_values(|c: Vec<usize>| c@).flatten()
}

/// One more component adds its nodes at the end.
proof fn lemma_flat_push(r: Seq<Vec<usize>>, c: Vec<usize>)
    ensures
        flat(r.push(c)) == flat(r) + c@,
{
    let m = r.map_values(|c: Vec<usize>| c@);
    let m1 = r.push(c).map_values(|c: Vec<usize>| c@);
    assert(m1 =~= m.push(c@));
    m1.lemma_flatten_and_flatten_alt_are_equivalent();
    m.lemma_flatten_and_flatten_alt_are_equivalent();
    assert(m1.drop_last() =~= m);
}

impl Graph {
    /// Searches depth first from unreached node `u`, over the edges of
    /// `nodes`, finishing every node it reaches: each joins `path` once all
    /// the nodes its edges lead to are finished or on the stack.
    fn dfs(&self, Ghost(nodes): Ghost<Seq<usize>>, u: usize, state: &mut Vec<u8>, path: &mut Vec<usize>,
        Ghost(stack): Ghost<Seq<usize>>)
        requires
            dfs_ok(*self, nodes, old(state)@.len() as nat, old(state)@, old(path)@, stack),
            closed_black(*self, old(state)@.len() as nat, old(state)@),
            kos(*self, old(path)@, stack),
            nodes.contains(u),
            old(state)@[u - 1] == 0,
            stack.len() > 0 ==> self.has_edge(stack.last(), u),
        ensures
            dfs_ok(*self, nodes, old(state)@.len() as nat, final(state)@, final(path)@, stack),
            closed_black(*self, old(state)@.len() as nat, final(state)@),
            kos(*self, final(path)@, stack),
            final(state)@[u - 1] == 2,
            final(state)@.len() == old(state)@.len(),
            forall|v: int| 0 <= v < old(state)@.len() && old(state)@[v] != 0 ==> #[trigger] final(state)@[v] == old(state)@[v],
            old(path)@.len() < final(path)@.len(),
            final(path)@.last() == u,
            forall|i: int| 0 <= i < old(path)@.len() ==> #[trigger] final(path)@[i] == old(path)@[i],
            forall|i: int| old(path)@.len() <= i < final(path)@.len() ==> reachable(*self, u, #[trigger] final(path)@[i]),
        decreases zeros(old(state)@),
    {
        let ghost n = state@.len() as nat;
        let ghost s0 = state@;
        let ghost p0 = path@;
        let ghost st1 = stack.push(u);
        proof {
            lemma_enter(*self, nodes, n, s0, p0, stack, u);
            lemma_enter_kos(*self, n, s0, p0, stack, u);
        }
        state.set(u - 1, 1);
        proof {
            lemma_zeros_fewer(s0, state@, u - 1);
        }
        let ghost adj = self.adj(u);
        match self.edges.get(&u) {
            Some(list) => {
                assert(list@ == adj);
                let mut k: usize = 0;
                while k < list.len()
                    invariant
                        list@ == adj,
                        adj == self.adj(u),
                        k <= list@.len(),
                        nodes.contains(u),
                        1 <= u <= n,
                        st1 == stack.push(u),
                        st1.last() == u,
                        dfs_ok(*self, nodes, n, state@, path@, st1),
                        closed_black(*self, n, state@),
                        kos(*self, path@, st1),
                        forall|m: int| 0 <= m < k ==> state@[(#[trigger] adj[m]).spec_node() - 1] != 0,
                        state@.len() == n,
                        state@[u - 1] == 1,
                        s0.len() == n,
                        s0 == old(state)@,
                        zeros(state@) < zeros(s0),
                        forall|v: int| 0 <= v < n && s0[v] != 0 ==> #[trigger] state@[v] == s0[v],
                        p0.len() <= path@.len(),
                        forall|i: int| 0 <= i < p0.len() ==> #[trigger] path@[i] == p0[i],
                        forall|i: int| p0.len() <= i < path@.len() ==> reachable(*self, u, #[trigger] path@[i]),
                        forall|m: int| 0 <= m < k ==> path@.contains((#[trigger] adj[m]).spec_node())
                            || reachable(*self, adj[m].spec_node(), u),
                    decreases list@.len() - k,
                {
                    let v = list[k].node();
                    proof {
                        lemma_state(*self, nodes, n, state@, path@, st1, u, k as int);
                        assert(self.has_edge(u, v)) by {
                            assert(self.adj(u)[k as int].spec_node() == v);
                        }
                    }
                    if state[v - 1] == 0 {
                        let ghost sb = state@;
                        let ghost pb = path@;
                        self.dfs(Ghost(nodes), v, state, path, Ghost(st1));
                        proof {
                            lemma_zeros_fewer(sb, state@, -1);
                            assert forall|i: int| p0.len() <= i < path@.len() implies reachable(*self, u, #[trigger] path@[i]) by {
                                if i >= pb.len() {
                                    lemma_reach_prepend(*self, u, v, path@[i]);
                                } else {
                                    assert(path@[i] == pb[i]);
                                }
                            }
                            assert forall|i: int| 0 <= i < p0.len() implies #[trigger] path@[i] == p0[i] by {
                                assert(path@[i] == pb[i]);
                            }
                            assert forall|v2: int| 0 <= v2 < n && s0[v2] != 0 implies #[trigger] state@[v2] == s0[v2] by {
                                assert(sb[v2] == s0[v2]);
                            }
                            assert forall|m: int| 0 <= m < k implies state@[(#[trigger] adj[m]).spec_node() - 1] != 0 by {
                                lemma_state(*self, nodes, n, sb, pb, st1, u, m);
                                assert(sb[adj[m].spec_node() - 1] != 0);
                            }
                            assert forall|m: int| 0 <= m < k implies path@.contains((#[trigger] adj[m]).spec_node())
                                || reachable(*self, adj[m].spec_node(), u) by {
                                let y = adj[m].spec_node();
                                if pb.contains(y) {
                                    let j = choose|j: int| 0 <= j < pb.len() && pb[j] == y;
                                    assert(path@[j] == y);
                                }
                            }
                            assert(state@[u - 1] == 1);
                        }
                    }
                    proof {
                        lemma_state(*self, nodes, n, state@, path@, st1, u, k as int);
                        assert(state@[v - 1] != 0);
                    }
                    k = k + 1;
                }
            },
            None => {
                assert(adj.len() == 0);
            },
        }
        let ghost pre = path@;
        let ghost sp = state@;
        proof {
            assert(!pre.contains(u)) by {
                reveal(dfs_ok);
                if pre.contains(u) {
                    let j = choose|j: int| 0 <= j < pre.len() && pre[j] == u;
                }
            }
            lemma_finish(*self, nodes, n, sp, pre, stack, u);
            lemma_finish_kos(*self, nodes, n, sp, pre, stack, u);
            lemma_reach_self(*self, u);
        }
        state.set(u - 1, 2);
        path.push(u);
        proof {
            assert forall|v: int| 0 <= v < n && s0[v] != 0 implies #[trigger] state@[v] == s0[v] by {
                assert(v != u - 1);
            }
            assert forall|i: int| p0.len() <= i < path@.len() implies reachable(*self, u, #[trigger] path@[i]) by {
                if i < pre.len() {
                    assert(path@[i] == pre[i]);
                }
            }
        }
    }

    /// Searches depth first from each of `starts` in turn that is still
    /// unreached.
    fn dfs_each(&self, Ghost(nodes): Ghost<Seq<usize>>, starts: &Vec<usize>, state: &mut Vec<u8>, path: &mut Vec<usize>)
        requires
            dfs_ok(*self, nodes, old(state)@.len() as nat, old(state)@, old(path)@, Seq::empty()),
            closed_black(*self, old(state)@.len() as nat, old(state)@),
            kos(*self, old(path)@, Seq::empty()),
            closed_in(*self, nodes, old(state)@.len() as nat),
            old(state)@.len() < usize::MAX,
            forall|i: int| 0 <= i < starts@.len() ==> nodes.contains(#[trigger] starts@[i]),
        ensures
            dfs_ok(*self, nodes, old(state)@.len() as nat, final(state)@, final(path)@, Seq::empty()),
            closed_black(*self, old(state)@.len() as nat, final(state)@),
            kos(*self, final(path)@, Seq::empty()),
            forall|i: int| 0 <= i < starts@.len() ==> final(state)@[#[trigger] starts@[i] - 1] == 2,
            forall|v: int| 0 <= v < old(state)@.len() && old(state)@[v] != 0 ==> #[trigger] final(state)@[v] == old(state)@[v],
    {
        let ghost n = state@.len() as nat;
        let ghost s0 = state@;
        let mut i: usize = 0;
        while i < starts.len()
            invariant
                i <= starts@.len(),
                s0.len() == n,
                forall|q: int| 0 <= q < starts@.len() ==> nodes.contains(#[trigger] starts@[q]),
                dfs_ok(*self, nodes, n, state@, path@, Seq::empty()),
                closed_black(*self, n, state@),
                kos(*self, path@, Seq::empty()),
                closed_in(*self, nodes, n),
                state@.len() == n,
                forall|q: int| 0 <= q < i ==> state@[#[trigger] starts@[q] - 1] == 2,
                forall|v: int| 0 <= v < n && s0[v] != 0 ==> #[trigger] state@[v] == s0[v],
            decreases starts@.len() - i,
        {
            let u = starts[i];
            proof {
                assert(nodes.contains(starts@[i as int]));
            }
            if state[u - 1] == 0 {
                let ghost sb = state@;
                self.dfs(Ghost(nodes), u, state, path, Ghost(Seq::empty()));
                proof {
                    assert forall|q: int| 0 <= q < i implies state@[#[trigger] starts@[q] - 1] == 2 by {
                        assert(sb[starts@[q] - 1] == 2);
                    }
                    assert forall|v: int| 0 <= v < n && s0[v] != 0 implies #[trigger] state@[v] == s0[v] by {
                        assert(sb[v] == s0[v]);
                    }
                }
            } else {
                proof {
                    assert(state@[u - 1] == 2) by {
                        reveal(dfs_ok);
                        assert(state@[u - 1] <= 2);
                        if state@[u - 1] == 1 {
                            assert(Seq::<usize>::empty().contains(u));
                        }
                    }
                }
            }
            i = i + 1;
        }
    }

    /// The nodes, each once, ordered so that every edge goes forwards,
    /// unless it closes a cycle: for an edge from `x` to `y`, `x` comes
    /// before `y`, or `y` reaches `x`.
    pub fn topological_sort(&self) -> (r: Vec<usize>)
        requires
            labelled(*self),
            self.nodes@.len() < usize::MAX,
        ensures
            distinct(r@),
            forall|v: usize| #[trigger] r@.contains(v) <==> self.nodes@.contains(v),
            forall|x: usize, k: int| self.nodes@.contains(x) && 0 <= k < self.adj(x).len() ==>
                before(r@, x, (#[trigger] self.adj(x)[k]).spec_node()) || reachable(*self, self.adj(x)[k].spec_node(), x),
            forall|c: usize, d: usize| #![trigger self.nodes@.contains(c), reachable(*self, c, d)]
                self.nodes@.contains(c) && reachable(*self, c, d) && !reachable(*self, d, c) ==>
                exists|z: usize| #![trigger reachable(*self, z, c)]
                    reachable(*self, c, z) && reachable(*self, z, c) && before(r@, z, d),
    {
        let n = self.nodes.len();
        let mut state: Vec<u8> = Vec::new();
        let mut i: usize = 0;
        while i < n
            invariant
                i <= n,
                state@.len() == i,
                forall|q: int| 0 <= q < i ==> state@[q] == 0,
            decreases n - i,
        {
            state.push(0);
            i = i + 1;
        }
        let mut path: Vec<usize> = Vec::new();
        proof {
            lemma_dfs_fresh(*self, self.nodes@, n as nat, state@);
            lemma_kos_fresh(*self, n as nat, state@);
            assert forall|q: int| 0 <= q < self.nodes@.len() implies self.nodes@.contains(#[trigger] self.nodes@[q]) by {
                assert(self.nodes@.contains(self.nodes@[q]));
            }
        }
        self.dfs_each(Ghost(self.nodes@), &self.nodes, &mut state, &mut path);
        proof {
            assert forall|v: usize| #[trigger] self.nodes@.contains(v) implies state@[v - 1] == 2 by {
                let q = choose|q: int| 0 <= q < self.nodes@.len() && self.nodes@[q] == v;
                assert(state@[self.nodes@[q] - 1] == 2);
            }
            lemma_dfs_done(*self, self.nodes@, n as nat, state@, path@);
            lemma_reverse(path@);
        }
        let ghost fin = path@;
        let m = path.len();
        let mut r: Vec<usize> = Vec::new();
        let mut k: usize = 0;
        while k < m
            invariant
                m == path@.len(),
                k <= m,
                r@.len() == k,
                forall|q: int| 0 <= q < k ==> #[trigger] r@[q] == path@[m - 1 - q],
            decreases m - k,
        {
            r.push(path[m - 1 - k]);
            k = k + 1;
        }
        assert(r@ =~= path@.reverse());
        proof {
            reveal(kos);
            assert forall|c: usize, d: usize| #![trigger self.nodes@.contains(c), reachable(*self, c, d)]
                self.nodes@.contains(c) && reachable(*self, c, d) && !reachable(*self, d, c) implies
                exists|z: usize| #![trigger reachable(*self, z, c)]
                    reachable(*self, c, z) && reachable(*self, z, c) && before(r@, z, d) by {
                assert(fin.contains(c));
                let z = choose|z: usize| #![trigger reachable(*self, z, c)]
                    reachable(*self, c, z) && reachable(*self, z, c) && (before(fin, d, z) || Seq::<usize>::empty().contains(z));
                assert(before(fin, d, z));
                assert(before(fin.reverse(), z, d));
            }
        }
        r
    }

    /// The strongly connected components, found by searching the
    /// transposed graph from each node in topological order: every node
    /// lies in one component, once; the nodes of a component reach each
    /// other, each through the component's last node, where its search
    /// started; and nodes of different components do not.
    pub fn strongly_connected(&self) -> (r: Vec<Vec<usize>>)
        requires
            labelled(*self),
            self.nodes@.len() < usize::MAX,
        ensures
            distinct(flat(r@)),
            forall|v: usize| #[trigger] flat(r@).contains(v) <==> self.nodes@.contains(v),
            forall|c: int| 0 <= c < r@.len() ==> (#[trigger] r@[c])@.len() > 0,
            forall|c: int, j: int| 0 <= c < r@.len() && 0 <= j < r@[c]@.len() ==>
                reachable(*self, #[trigger] r@[c]@[j], r@[c]@.last()),
            forall|c: int, j: int| 0 <= c < r@.len() && 0 <= j < r@[c]@.len() ==>
                reachable(*self, r@[c]@.last(), #[trigger] r@[c]@[j]),
            forall|c1: int, j1: int, c2: int, j2: int|
                #![trigger r@[c1]@[j1], r@[c2]@[j2]]
                0 <= c1 < r@.len() && 0 <= j1 < r@[c1]@.len() && 0 <= c2 < r@.len() && 0 <= j2 < r@[c2]@.len() && c1 != c2
                ==> !(reachable(*self, r@[c1]@[j1], r@[c2]@[j2]) && reachable(*self, r@[c2]@[j2], r@[c1]@[j1])),
    {
        let n = self.nodes.len();
        let order = self.topological_sort();
        let t = self.transpose();
        proof {
            lemma_transposed_closed(*self, t);
        }
        let mut state: Vec<u8> = Vec::new();
        let mut i: usize = 0;
        while i < n
            invariant
                i <= n,
                state@.len() == i,
                forall|q: int| 0 <= q < i ==> state@[q] == 0,
            decreases n - i,
        {
            state.push(0);
            i = i + 1;
        }
        let ghost nodes = self.nodes@;
        proof {
            lemma_dfs_fresh(t, nodes, n as nat, state@);
            lemma_kos_fresh(t, n as nat, state@);
        }
        let mut all: Vec<usize> = Vec::new();
        let mut comps: Vec<Vec<usize>> = Vec::new();
        let mut i: usize = 0;
        while i < order.len()
            invariant
                i <= order@.len(),
                n == nodes.len(),
                nodes == self.nodes@,
                labelled(*self),
                reversed(*self, nodes, t),
                closed_in(t, nodes, n as nat),
                distinct(order@),
                forall|v: usize| #[trigger] order@.contains(v) <==> nodes.contains(v),
                forall|c: usize, d: usize| #![trigger self.nodes@.contains(c), reachable(*self, c, d)]
                    self.nodes@.contains(c) && reachable(*self, c, d) && !reachable(*self, d, c) ==>
                    exists|z: usize| #![trigger reachable(*self, z, c)]
                        reachable(*self, c, z) && reachable(*self, z, c) && before(order@, z, d),
                dfs_ok(t, nodes, n as nat, state@, all@, Seq::empty()),
                closed_black(t, n as nat, state@),
                kos(t, all@, Seq::empty()),
                state@.len() == n,
                forall|q: int| 0 <= q < i ==> state@[#[trigger] order@[q] - 1] == 2,
                flat(comps@) == all@,
                forall|c: int| 0 <= c < comps@.len() ==> (#[trigger] comps@[c])@.len() > 0,
                forall|c: int, j: int| 0 <= c < comps@.len() && 0 <= j < comps@[c]@.len() ==>
                    reachable(t, comps@[c]@.last(), #[trigger] comps@[c]@[j]),
                forall|c: int, j: int| 0 <= c < comps@.len() && 0 <= j < comps@[c]@.len() ==>
                    reachable(*self, comps@[c]@.last(), #[trigger] comps@[c]@[j]),
                forall|c1: int, j1: int, c2: int, j2: int|
                    #![trigger comps@[c1]@[j1], comps@[c2]@[j2]]
                    0 <= c1 < c2 < comps@.len() && 0 <= j1 < comps@[c1]@.len() && 0 <= j2 < comps@[c2]@.len()
                    ==> !reachable(t, comps@[c1]@[j1], comps@[c2]@[j2]),
            decreases order@.len() - i,
        {
            let u = order[i];
            proof {
                assert(order@.contains(u));
                assert(nodes.contains(u));
            }
            if state[u - 1] == 0 {
                let start = all.len();
                let ghost sb = state@;
                let ghost ab = all@;
                t.dfs(Ghost(nodes), u, &mut state, &mut all, Ghost(Seq::empty()));
                let end = all.len();
                let mut comp: Vec<usize> = Vec::new();
                let mut j: usize = start;
                while j < end
                    invariant
                        start <= j <= end,
                        end == all@.len(),
                        comp@ == all@.subrange(start as int, j as int),
                    decreases end - j,
                {
                    comp.push(all[j]);
                    j = j + 1;
                    assert(comp@ =~= all@.subrange(start as int, j as int));
                }
                let ghost c0 = comps@;
                proof {
                    lemma_flat_push(c0, comp);
                    assert(all@ =~= all@.subrange(0, start as int) + comp@);
                    assert(all@.subrange(0, start as int) =~= flat(c0));
                    assert forall|q: int| 0 <= q < i implies state@[#[trigger] order@[q] - 1] == 2 by {
                        assert(order@.contains(order@[q]));
                        assert(nodes.contains(order@[q]));
                        assert(sb[order@[q] - 1] == 2);
                    }
                    assert(comp@.last() == u);
                    lemma_new_white(t, nodes, n as nat, sb, ab, state@, all@);
                    lemma_path_black(t, nodes, n as nat, sb, ab, Seq::empty());
                    lemma_path_black(t, nodes, n as nat, state@, all@, Seq::empty());
                    // the search's start reaches every node it found
                    assert forall|j2: int| 0 <= j2 < comp@.len() implies reachable(*self, u, #[trigger] comp@[j2]) by {
                        let w = comp@[j2];
                        assert(w == all@[start + j2]);
                        assert(reachable(t, u, w));
                        lemma_reversed_reach(*self, nodes, t, u, w);
                        assert(nodes.contains(w));
                        assert(sb[w - 1] == 0);
                        if !reachable(*self, u, w) {
                            assert(self.nodes@.contains(w));
                            let z = choose|z: usize| #![trigger reachable(*self, z, w)]
                                reachable(*self, w, z) && reachable(*self, z, w) && before(order@, z, u);
                            let (qa, qb) = choose|qa: int, qb: int| #![trigger order@[qa], order@[qb]]
                                0 <= qa < qb < order@.len() && order@[qa] == z && order@[qb] == u;
                            if qb != i {
                                assert(order@[qb] == order@[i as int]);
                            }
                            assert(sb[order@[qa] - 1] == 2);
                            lemma_reach_transposed(*self, nodes, n as nat, t, w, z);
                            assert(order@.contains(z));
                            lemma_black_reach(t, nodes, n as nat, sb, ab, z, w);
                        }
                    }
                    // nothing found earlier reaches what this search found
                    assert forall|c: int, j1: int, j2: int| 0 <= c < c0.len() && 0 <= j1 < c0[c]@.len() && 0 <= j2 < comp@.len()
                        implies !reachable(t, #[trigger] c0[c]@[j1], #[trigger] comp@[j2]) by {
                        let a = c0[c]@[j1];
                        let b = comp@[j2];
                        lemma_flat_contains(c0, c, j1);
                        let k = choose|k: int| 0 <= k < ab.len() && ab[k] == a;
                        assert(b == all@[start + j2]);
                        if reachable(t, a, b) {
                            lemma_black_reach(t, nodes, n as nat, sb, ab, a, b);
                        }
                    }
                }
                comps.push(comp);
                proof {
                    assert forall|c: int, j2: int| 0 <= c < comps@.len() && 0 <= j2 < comps@[c]@.len() implies
                        reachable(t, comps@[c]@.last(), #[trigger] comps@[c]@[j2]) by {
                        if c < c0.len() {
                            assert(comps@[c] == c0[c]);
                        } else {
                            assert(comps@[c]@[j2] == all@[start + j2]);
                        }
                    }
                    assert forall|c: int, j2: int| 0 <= c < comps@.len() && 0 <= j2 < comps@[c]@.len() implies
                        reachable(*self, comps@[c]@.last(), #[trigger] comps@[c]@[j2]) by {
                        if c < c0.len() {
                            assert(comps@[c] == c0[c]);
                        }
                    }
                    assert forall|c1: int, j1: int, c2: int, j2: int|
                        #![trigger comps@[c1]@[j1], comps@[c2]@[j2]]
                        0 <= c1 < c2 < comps@.len() && 0 <= j1 < comps@[c1]@.len() && 0 <= j2 < comps@[c2]@.len()
                        implies !reachable(t, comps@[c1]@[j1], comps@[c2]@[j2]) by {
                        assert(comps@[c1] == c0[c1]);
                        if c2 < c0.len() {
                            assert(comps@[c2] == c0[c2]);
                            assert(c0[c1]@[j1] == comps@[c1]@[j1]);
                        } else {
                            assert(c0[c1]@[j1] == comps@[c1]@[j1]);
                        }
                    }
                    assert forall|c: int| 0 <= c < comps@.len() implies (#[trigger] comps@[c])@.len() > 0 by {
                        if c < c0.len() {
                            assert(comps@[c] == c0[c]);
                        }
                    }
                }
            } else {
                proof {
                    assert(state@[u - 1] == 2) by {
                        reveal(dfs_ok);
                        assert(state@[u - 1] <= 2);
                        if state@[u - 1] == 1 {
                            assert(Seq::<usize>::empty().contains(u));
                        }
                    }
                }
            }
            i = i + 1;
        }
        proof {
            assert forall|v: usize| #[trigger] nodes.contains(v) implies state@[v - 1] == 2 by {
                assert(order@.contains(v));
                let q = choose|q: int| 0 <= q < order@.len() && order@[q] == v;
                assert(state@[order@[q] - 1] == 2);
            }
            lemma_dfs_done(t, nodes, n as nat, state@, all@);
            assert forall|c: int, j: int| 0 <= c < comps@.len() && 0 <= j < comps@[c]@.len() implies
                reachable(*self, #[trigger] comps@[c]@[j], comps@[c]@.last()) by {
                lemma_reversed_reach(*self, nodes, t, comps@[c]@.last(), comps@[c]@[j]);
            }
            assert forall|c1: int, j1: int, c2: int, j2: int|
                #![trigger comps@[c1]@[j1], comps@[c2]@[j2]]
                0 <= c1 < comps@.len() && 0 <= j1 < comps@[c1]@.len() && 0 <= c2 < comps@.len() && 0 <= j2 < comps@[c2]@.len() && c1 != c2
                implies !(reachable(*self, comps@[c1]@[j1], comps@[c2]@[j2]) && reachable(*self, comps@[c2]@[j2], comps@[c1]@[j1])) by {
                let a = comps@[c1]@[j1];
                let b = comps@[c2]@[j2];
                lemma_flat_contains(comps@, c1, j1);
                lemma_flat_contains(comps@, c2, j2);
                if c1 < c2 {
                    if reachable(*self, b, a) {
                        lemma_reach_transposed(*self, nodes, n as nat, t, b, a);
                    }
                } else {
                    if reachable(*self, a, b) {
                        lemma_reach_transposed(*self, nodes, n as nat, t, a, b);
                    }
                }
            }
        }
        comps
    }
}

impl Graph {
    /// The graph with every edge turned around and its cost dropped: an
    /// edge from `v` to `u` for each edge from a node `u` to `v`; its
    /// nodes are the nodes and the far ends of their edges.
    pub fn transpose(&self) -> (t: Graph)
        requires
            self.wf(),
        ensures
            t.wf(),
            forall|n: usize| #[trigger] t.nodes@.contains(n) <==> (self.nodes@.contains(n) || edge_target(*self, self.nodes@, n)),
            reversed(*self, self.nodes@, t),
    {
        let mut t = Graph::new();
        let mut i: usize = 0;
        while i < self.nodes.len()
            invariant
                self.wf(),
                i <= self.nodes@.len(),
                t.wf(),
                forall|n: usize| #[trigger] t.nodes@.contains(n) <==>
                    (self.nodes@.take(i as int).contains(n) || edge_target(*self, self.nodes@.take(i as int), n)),
                reversed(*self, self.nodes@.take(i as int), t),
            decreases self.nodes@.len() - i,
        {
            let u = self.nodes[i];
            let ghost pre = self.nodes@.take(i as int);
            let ghost cur = self.nodes@.take(i as int + 1);
            assert(cur =~= pre.push(u));
            proof {
                assert forall|x: usize| #[trigger] cur.contains(x) <==> (pre.contains(x) || x == u) by {
                    if cur.contains(x) {
                        let j = choose|j: int| 0 <= j < cur.len() && cur[j] == x;
                        if j < pre.len() {
                            assert(pre[j] == x);
                        }
                    }
                    if pre.contains(x) {
                        let j = choose|j: int| 0 <= j < pre.len() && pre[j] == x;
                        assert(cur[j] == x);
                    }
                    if x == u {
                        assert(cur[i as int] == x);
                    }
                }
            }
            let ghost t0 = t;
            t.add_node(u);
            proof {
                assert forall|n: usize| #[trigger] t.nodes@.contains(n) <==>
                    (pre.contains(n) || n == u || edge_target(*self, pre, n) || edge_within(*self, u, n, 0)) by {
                    assert(t.nodes@.to_set().contains(n) == t.nodes@.contains(n));
                    assert(t0.nodes@.to_set().contains(n) == t0.nodes@.contains(n));
                }
                assert forall|v: usize, nt: NodeType| #[trigger] t.adj(v).contains(nt) <==>
                    ((exists|w: usize| nt == NodeType::N(w) && pre.contains(w) && #[trigger] self.has_edge(w, v))
                    || (nt == NodeType::N(u) && edge_within(*self, u, v, 0))) by {
                    assert(t.adj(v) == t0.adj(v));
                }
            }
            match self.edges.get(&u) {
                Some(list) => {
                    assert(list@ == self.adj(u));
                    let mut k: usize = 0;
                    while k < list.len()
                        invariant
                            self.wf(),
                            t.wf(),
                            list@ == self.adj(u),
                            k <= list@.len(),
                            forall|x: usize| #[trigger] cur.contains(x) <==> (pre.contains(x) || x == u),
                            forall|n: usize| #[trigger] t.nodes@.contains(n) <==>
                                (pre.contains(n) || n == u || edge_target(*self, pre, n) || edge_within(*self, u, n, k as int)),
                            forall|v: usize, nt: NodeType| #[trigger] t.adj(v).contains(nt) <==>
                                ((exists|w: usize| nt == NodeType::N(w) && pre.contains(w) && #[trigger] self.has_edge(w, v))
                                || (nt == NodeType::N(u) && edge_within(*self, u, v, k as int))),
                        decreases list@.len() - k,
                    {
                        let v = list[k].node();
                        let ghost ta = t;
                        t.add_node(v);
                        let ghost tb = t;
                        t.add_edge(v, NodeType::N(u));
                        proof {
                            assert(self.adj(u)[k as int].spec_node() == v);
                            assert forall|n: usize| #[trigger] t.nodes@.contains(n) <==>
                                (pre.contains(n) || n == u || edge_target(*self, pre, n) || edge_within(*self, u, n, k + 1)) by {
                                assert(t.nodes@.to_set().contains(n) == t.nodes@.contains(n));
                                assert(ta.nodes@.to_set().contains(n) == ta.nodes@.contains(n));
                                if edge_within(*self, u, n, k + 1) && n != v {
                                    let m = choose|m: int| 0 <= m < k + 1 && m < self.adj(u).len() && (#[trigger] self.adj(u)[m]).spec_node() == n;
                                    assert(m < k);
                                    assert(edge_within(*self, u, n, k as int));
                                }
                                if edge_within(*self, u, n, k as int) {
                                    let m = choose|m: int| 0 <= m < k && m < self.adj(u).len() && (#[trigger] self.adj(u)[m]).spec_node() == n;
                                    assert(edge_within(*self, u, n, k + 1));
                                }
                                if n == v {
                                    assert(edge_within(*self, u, n, k + 1));
                                }
                            }
                            assert forall|w: usize, nt: NodeType| #[trigger] t.adj(w).contains(nt) <==>
                                ((exists|x: usize| nt == NodeType::N(x) && pre.contains(x) && #[trigger] self.has_edge(x, w))
                                || (nt == NodeType::N(u) && edge_within(*self, u, w, k + 1))) by {
                                assert(tb.adj(w) == ta.adj(w));
                                if w == v {
                                    assert(t.adj(w).to_set().contains(nt) == t.adj(w).contains(nt));
                                    assert(tb.adj(w).to_set().contains(nt) == tb.adj(w).contains(nt));
                                } else {
                                    assert(t.adj(w) == tb.adj(w));
                                }
                                if edge_within(*self, u, w, k + 1) && w != v {
                                    let m = choose|m: int| 0 <= m < k + 1 && m < self.adj(u).len() && (#[trigger] self.adj(u)[m]).spec_node() == w;
                                    assert(m < k);
                                    assert(edge_within(*self, u, w, k as int));
                                }
                                if edge_within(*self, u, w, k as int) {
                                    let m = choose|m: int| 0 <= m < k && m < self.adj(u).len() && (#[trigger] self.adj(u)[m]).spec_node() == w;
                                    assert(edge_within(*self, u, w, k + 1));
                                }
                                if w == v {
                                    assert(edge_within(*self, u, w, k + 1));
                                }
                            }
                        }
                        k = k + 1;
                    }
                },
                None => {
                    assert(self.adj(u).len() == 0);
                },
            }
            proof {
                assert forall|n: usize| #[trigger] t.nodes@.contains(n) <==>
                    (cur.contains(n) || edge_target(*self, cur, n)) by {
                    if edge_within(*self, u, n, self.adj(u).len() as int) {
                        let m = choose|m: int| 0 <= m < self.adj(u).len() && m < self.adj(u).len() && (#[trigger] self.adj(u)[m]).spec_node() == n;
                        assert(self.has_edge(u, n));
                        assert(edge_target(*self, cur, n));
                    }
                    if edge_target(*self, pre, n) {
                        let w = choose|w: usize| pre.contains(w) && #[trigger] self.has_edge(w, n);
                        assert(edge_target(*self, cur, n));
                    }
                    if edge_target(*self, cur, n) {
                        let w = choose|w: usize| cur.contains(w) && #[trigger] self.has_edge(w, n);
                        if w == u {
                            let m = choose|m: int| 0 <= m < self.adj(u).len() && (#[trigger] self.adj(u)[m]).spec_node() == n;
                            assert(edge_within(*self, u, n, self.adj(u).len() as int));
                        } else {
                            assert(edge_target(*self, pre, n));
                        }
                    }
                }
                assert forall|v: usize, nt: NodeType| #[trigger] t.adj(v).contains(nt) <==>
                    exists|w: usize| nt == NodeType::N(w) && cur.contains(w) && #[trigger] self.has_edge(w, v) by {
                    if edge_within(*self, u, v, self.adj(u).len() as int) {
                        let m = choose|m: int| 0 <= m < self.adj(u).len() && m < self.adj(u).len() && (#[trigger] self.adj(u)[m]).spec_node() == v;
                        assert(self.has_edge(u, v));
                    }
                    if exists|w: usize| nt == NodeType::N(w) && cur.contains(w) && #[trigger] self.has_edge(w, v) {
                        let w = choose|w: usize| nt == NodeType::N(w) && cur.contains(w) && #[trigger] self.has_edge(w, v);
                        if w == u {
                            let m = choose|m: int| 0 <= m < self.adj(u).len() && (#[trigger] self.adj(u)[m]).spec_node() == v;
                            assert(edge_within(*self, u, v, self.adj(u).len() as int));
                        }
                    }
                }
            }
            i = i + 1;
        }
        assert(self.nodes@.take(self.nodes@.len() as int) =~= self.nodes@);
        t
    }
}

} // verus!
