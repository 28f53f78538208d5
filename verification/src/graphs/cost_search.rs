//! The least cost search behind `PathSearch::path_shortest`: tentative
//! costs, settled nodes and pending (node, cost) entries, taken least cost
//! first.
use vstd::prelude::*;
use super::{Graph, NodeType};
use super::bfs::{reach, reachable, lemma_reach_start, lemma_reach_step, lemma_closed, lemma_distinct_range_len};
use super::path_search::{cost_searchable, cost_result, is_cost_walk, least_cost_to};
use crate::dp::path::total;

verus! {

broadcast use vstd::std_specs::hash::group_hash_axioms;

/// The state of a search over nodes `1..=n`: the cost found so far for
/// each node (`usize::MAX` for none yet), the node it was reached from,
/// which nodes are settled, and the pending entries. In ghost state, the
/// settled nodes in the order they were settled, and each one's position.
struct CostSearch {
    dist: Vec<usize>,
    parent: Vec<usize>,
    done: Vec<bool>,
    heap: Vec<(usize, usize)>,
    order: Ghost<Seq<nat>>,
    settled: Ghost<Seq<usize>>,
}

/// Every table covers nodes `1..=n`.
spec fn sized(s: CostSearch, n: nat) -> bool {
    &&& s.dist@.len() == n
    &&& s.parent@.len() == n
    &&& s.done@.len() == n
    &&& s.order@.len() == n
}

/// The settled nodes are distinct nodes of `1..=n`, exactly those marked
/// done, each with a cost and a position before the end.
#[verifier::opaque]
spec fn tables(n: nat, dist: Seq<usize>, done: Seq<bool>, order: Seq<nat>, settled: Seq<usize>) -> bool {
    &&& forall|a: int, b: int| 0 <= a < b < settled.len() ==> #[trigger] settled[a] != #[trigger] settled[b]
    &&& forall|j: int| 0 <= j < settled.len() ==> 1 <= #[trigger] settled[j] <= n
    &&& forall|v: int| 1 <= v <= n ==> (#[trigger] done[v - 1] <==> settled.contains(v as usize))
    &&& forall|v: int| 1 <= v <= n && #[trigger] done[v - 1] ==> order[v - 1] < settled.len() && dist[v - 1] < usize::MAX
}

/// The start costs nothing, and every node with a cost is reachable.
#[verifier::opaque]
spec fn found(g: Graph, start: usize, n: nat, dist: Seq<usize>) -> bool {
    &&& 1 <= start <= n
    &&& dist[start - 1] == 0
    &&& forall|v: int| 1 <= v <= n && #[trigger] dist[v - 1] < usize::MAX ==> reachable(g, start, v as usize)
}

/// Every node with a cost, but the start, was reached from a settled node
/// along an edge that carries the difference of their costs; a settled
/// node was settled after the node it was reached from.
#[verifier::opaque]
spec fn linked(g: Graph, start: usize, n: nat, dist: Seq<usize>, parent: Seq<usize>, done: Seq<bool>, order: Seq<nat>) -> bool {
    forall|v: int| 1 <= v <= n && v != start && #[trigger] dist[v - 1] < usize::MAX ==> {
        let p = parent[v - 1];
        &&& 1 <= p <= n
        &&& done[p - 1]
        &&& dist[p - 1] <= dist[v - 1]
        &&& g.adj(p).contains(NodeType::NC(v as usize, (dist[v - 1] - dist[p - 1]) as usize))
        &&& done[v - 1] ==> order[p - 1] < order[v - 1]
    }
}

/// Every cost found is that of a walk from the start: for a settled node,
/// one of no more edges than the position at which it was settled; for
/// another, one edge more than that of the node it was reached from.
#[verifier::opaque]
spec fn fits(g: Graph, start: usize, n: nat, dist: Seq<usize>, parent: Seq<usize>, done: Seq<bool>, order: Seq<nat>) -> bool {
    &&& forall|v: int| 1 <= v <= n && #[trigger] done[v - 1] ==> walked(g, start, v as usize, dist[v - 1] as int, order[v - 1])
    &&& forall|v: int| 1 <= v <= n && v != start && !(#[trigger] done[v - 1]) && dist[v - 1] < usize::MAX ==>
        walked(g, start, v as usize, dist[v - 1] as int, order[parent[v - 1] - 1] + 1)
}

/// Some walk along costed edges from `start` to `v`, of at most `k` edges,
/// costs `c`.
spec fn walked(g: Graph, start: usize, v: usize, c: int, k: nat) -> bool {
    exists|p: Seq<usize>, cs: Seq<usize>| #[trigger] is_cost_walk(g, p, cs) && p[0] == start && p.last() == v
        && total(cs) == c && cs.len() <= k
}

/// The facts that every step of the search keeps.
spec fn search_ok(g: Graph, start: usize, n: nat, s: CostSearch) -> bool {
    &&& sized(s, n)
    &&& tables(n, s.dist@, s.done@, s.order@, s.settled@)
    &&& found(g, start, n, s.dist@)
    &&& linked(g, start, n, s.dist@, s.parent@, s.done@, s.order@)
    &&& fits(g, start, n, s.dist@, s.parent@, s.done@, s.order@)
    &&& optimal(g, start, n, s.dist@, s.done@)
}

/// The pending entries name nodes with a cost no more than the entry's,
/// and every unsettled node with a cost, but `x`, is pending at that cost.
#[verifier::opaque]
spec fn queued_but(n: nat, dist: Seq<usize>, done: Seq<bool>, heap: Seq<(usize, usize)>, x: usize) -> bool {
    &&& forall|j: int| 0 <= j < heap.len() ==> 1 <= (#[trigger] heap[j]).0 <= n && dist[heap[j].0 - 1] < usize::MAX
        && dist[heap[j].0 - 1] <= heap[j].1
    &&& forall|v: int| 1 <= v <= n && v != x && !(#[trigger] done[v - 1]) && dist[v - 1] < usize::MAX ==>
        exists|j: int| 0 <= j < heap.len() && (#[trigger] heap[j]).0 == v && heap[j].1 == dist[v - 1]
}

/// The cost an edge carries; none for an edge without one.
spec fn edge_cost(e: NodeType) -> int {
    match e {
        NodeType::NC(_, c) => c as int,
        NodeType::N(_) => 0,
    }
}

/// Every edge out of a settled node, but `x`, ends at a settled node or at
/// one with a cost no more than the cost through that edge.
#[verifier::opaque]
spec fn closed_but(g: Graph, n: nat, dist: Seq<usize>, done: Seq<bool>, x: usize) -> bool {
    forall|u: int, k: int| 1 <= u <= n && u != x && #[trigger] done[u - 1] && 0 <= k < g.adj(u as usize).len() ==> {
        let v = (#[trigger] g.adj(u as usize)[k]).spec_node();
        1 <= v <= n && (done[v - 1] || (dist[v - 1] < usize::MAX
            && dist[v - 1] <= dist[u - 1] + edge_cost(g.adj(u as usize)[k])))
    }
}

/// No walk from the start to a settled node costs less than its cost.
#[verifier::opaque]
spec fn optimal(g: Graph, start: usize, n: nat, dist: Seq<usize>, done: Seq<bool>) -> bool {
    forall|v: int| 1 <= v <= n && #[trigger] done[v - 1] ==> least_cost_to(g, start, v as usize, dist[v - 1] as int)
}

/// Distinct nodes among `1..=n` that leave one out are fewer than `n`.
proof fn lemma_fewer_than_all(q: Seq<usize>, n: nat, d: usize)
    requires
        forall|a: int, b: int| 0 <= a < b < q.len() ==> #[trigger] q[a] != #[trigger] q[b],
        forall|j: int| 0 <= j < q.len() ==> 1 <= #[trigger] q[j] <= n,
        1 <= d <= n,
        !q.contains(d),
    ensures
        q.len() < n,
{
    let q1 = q.push(d);
    assert forall|a: int, b: int| 0 <= a < b < q1.len() implies #[trigger] q1[a] != #[trigger] q1[b] by {
        if b == q.len() {
            assert(q1[a] == q[a]);
            assert(q.contains(q[a]));
        } else {
            assert(q1[a] == q[a] && q1[b] == q[b]);
        }
    }
    assert forall|j: int| 0 <= j < q1.len() implies 1 <= #[trigger] q1[j] <= n by {
        if j < q.len() {
            assert(q1[j] == q[j]);
        }
    }
    lemma_distinct_range_len(q1, n);
}

/// Taking out the pending entry at `best`, a least cost one, which names
/// `src`, leaves every other unsettled node with a cost pending; and no
/// unsettled node costs less than `src`.
proof fn lemma_pop(n: nat, dist: Seq<usize>, done: Seq<bool>, h0: Seq<(usize, usize)>, best: int, src: usize)
    requires
        queued_but(n, dist, done, h0, 0),
        0 <= best < h0.len(),
        h0[best].0 == src,
        forall|j: int| 0 <= j < h0.len() ==> h0[best].1 <= (#[trigger] h0[j]).1,
    ensures
        1 <= src <= n,
        dist[src - 1] < usize::MAX,
        queued_but(n, dist, done, h0.remove(best), src),
        done[src - 1] ==> queued_but(n, dist, done, h0.remove(best), 0),
        forall|y: int| 1 <= y <= n && !(#[trigger] done[y - 1]) && dist[y - 1] < usize::MAX ==> dist[src - 1] <= dist[y - 1],
{
    reveal(queued_but);
    let h1 = h0.remove(best);
    assert(1 <= h0[best].0 <= n);
    assert forall|j: int| 0 <= j < h1.len() implies 1 <= (#[trigger] h1[j]).0 <= n && dist[h1[j].0 - 1] < usize::MAX
        && dist[h1[j].0 - 1] <= h1[j].1 by {
        if j < best {
            assert(h1[j] == h0[j]);
        } else {
            assert(h1[j] == h0[j + 1]);
        }
    }
    assert forall|v: int| 1 <= v <= n && v != src && !(#[trigger] done[v - 1]) && dist[v - 1] < usize::MAX implies
        exists|j: int| 0 <= j < h1.len() && (#[trigger] h1[j]).0 == v && h1[j].1 == dist[v - 1] by {
        let j = choose|j: int| 0 <= j < h0.len() && (#[trigger] h0[j]).0 == v && h0[j].1 == dist[v - 1];
        if j < best {
            assert(h1[j] == h0[j]);
        } else {
            assert(h1[j - 1] == h0[j]);
        }
    }
    assert forall|y: int| 1 <= y <= n && !(#[trigger] done[y - 1]) && dist[y - 1] < usize::MAX implies dist[src - 1] <= dist[y - 1] by {
        let j = choose|j: int| 0 <= j < h0.len() && (#[trigger] h0[j]).0 == y && h0[j].1 == dist[y - 1];
        assert(h0[best].1 <= h0[j].1);
    }
}

/// The total of costs is that of all but the last, plus the last.
proof fn lemma_total_last(cs: Seq<usize>)
    requires
        cs.len() > 0,
    ensures
        total(cs) == total(cs.drop_last()) + cs.last(),
    decreases cs.len(),
{
    if cs.len() == 1 {
        assert(cs.drop_first().len() == 0);
        assert(cs.drop_last().len() == 0);
        assert(total(cs) == cs[0] + total(cs.drop_first()));
        assert(cs.last() == cs[0]);
    } else {
        lemma_total_last(cs.drop_first());
        assert(cs.drop_first().drop_last() =~= cs.drop_last().drop_first());
        assert(cs.drop_last()[0] == cs[0]);
        assert(cs.drop_first().last() == cs.last());
        assert(total(cs.drop_last()) == cs[0] + total(cs.drop_last().drop_first()));
        assert(total(cs) == cs[0] + total(cs.drop_first()));
    }
}

/// With no unsettled node costing less than `src`, no walk from the start
/// to an unsettled node costs less than `src`: it leaves the settled nodes
/// along an edge whose far end costs no more than the walk so far.
proof fn lemma_least_walk(g: Graph, start: usize, n: nat, dist: Seq<usize>, done: Seq<bool>, src: usize,
    q: Seq<usize>, cs: Seq<usize>)
    requires
        optimal(g, start, n, dist, done),
        closed_but(g, n, dist, done, 0),
        found(g, start, n, dist),
        forall|y: int| 1 <= y <= n && !(#[trigger] done[y - 1]) && dist[y - 1] < usize::MAX ==> dist[src - 1] <= dist[y - 1],
        is_cost_walk(g, q, cs),
        q[0] == start,
        !(1 <= q.last() <= n && done[q.last() - 1]),
    ensures
        dist[src - 1] <= total(cs),
    decreases q.len(),
{
    if q.len() == 1 {
        reveal(found);
        assert(q.last() == start);
        assert(!done[start - 1]);
        assert(dist[start - 1] < usize::MAX);
        assert(cs.len() == 0);
    } else {
        let x = q[q.len() - 2];
        let w = q.last();
        let q1 = q.drop_last();
        let cs1 = cs.drop_last();
        let c = cs.last();
        assert(is_cost_walk(g, q1, cs1)) by {
            assert forall|i: int| 0 <= i < cs1.len() implies g.adj(#[trigger] q1[i]).contains(NodeType::NC(q1[i + 1], cs1[i])) by {
                assert(q1[i] == q[i] && q1[i + 1] == q[i + 1] && cs1[i] == cs[i]);
            }
        }
        lemma_total_last(cs);
        assert(g.adj(q[cs.len() - 1]).contains(NodeType::NC(q[cs.len() - 1 + 1], cs[cs.len() - 1])));
        assert(g.adj(x).contains(NodeType::NC(w, c)));
        if 1 <= x <= n && done[x - 1] {
            reveal(optimal);
            reveal(closed_but);
            assert(least_cost_to(g, start, x, dist[x - 1] as int));
            assert(q1.last() == x);
            assert(dist[x - 1] <= total(cs1));
            let k = choose|k: int| 0 <= k < g.adj(x).len() && g.adj(x)[k] == NodeType::NC(w, c);
            assert(g.adj((x as int) as usize)[k].spec_node() == w);
            assert(1 <= w <= n);
            assert(!done[w - 1]);
            assert(dist[w - 1] <= dist[x - 1] + c);
            assert(dist[src - 1] <= dist[w - 1]);
        } else {
            assert(q1[0] == start);
            lemma_least_walk(g, start, n, dist, done, src, q1, cs1);
        }
    }
}

/// With no unsettled node costing less than unsettled `src`, no walk from
/// the start to `src` costs less than `src`.
proof fn lemma_least(g: Graph, start: usize, n: nat, dist: Seq<usize>, done: Seq<bool>, src: usize)
    requires
        optimal(g, start, n, dist, done),
        closed_but(g, n, dist, done, 0),
        found(g, start, n, dist),
        forall|y: int| 1 <= y <= n && !(#[trigger] done[y - 1]) && dist[y - 1] < usize::MAX ==> dist[src - 1] <= dist[y - 1],
        1 <= src <= n,
        !done[src - 1],
    ensures
        least_cost_to(g, start, src, dist[src - 1] as int),
{
    assert forall|q: Seq<usize>, cs: Seq<usize>| #[trigger] is_cost_walk(g, q, cs) && q[0] == start && q.last() == src
        implies dist[src - 1] <= total(cs) by {
        lemma_least_walk(g, start, n, dist, done, src, q, cs);
    }
}

/// Settling a node that no walk undercuts keeps every settled node's cost
/// the least.
proof fn lemma_settle_optimal(g: Graph, start: usize, n: nat, dist: Seq<usize>, done: Seq<bool>, src: usize)
    requires
        optimal(g, start, n, dist, done),
        least_cost_to(g, start, src, dist[src - 1] as int),
        done.len() == n,
        1 <= src <= n,
    ensures
        optimal(g, start, n, dist, done.update(src - 1, true)),
{
    reveal(optimal);
    let done1 = done.update(src - 1, true);
    assert forall|v: int| 1 <= v <= n && #[trigger] done1[v - 1] implies least_cost_to(g, start, v as usize, dist[v - 1] as int) by {
        if v != src {
            assert(done[v - 1]);
        }
    }
}

/// The start is settled; every settled node's edges end at settled nodes
/// or pending ones; so with nothing pending, the nodes reachable from the
/// start are settled.
proof fn lemma_exhausted(g: Graph, start: usize, goal: usize, n: nat, s: CostSearch)
    requires
        cost_searchable(g, start, n),
        search_ok(g, start, n, s),
        queued_but(n, s.dist@, s.done@, s.heap@, 0),
        closed_but(g, n, s.dist@, s.done@, 0),
        s.heap@.len() == 0,
        !(1 <= goal <= n && s.done@[goal - 1]),
    ensures
        !reachable(g, start, goal),
{
    reveal(queued_but);
    reveal(closed_but);
    reveal(found);
    reveal(tables);
    let dist = s.dist@;
    let done = s.done@;
    let vis = |v: usize| 1 <= v <= n && done[v - 1];
    assert(done[start - 1]) by {
        if !done[start - 1] {
            assert(dist[start - 1] < usize::MAX);
        }
    }
    assert forall|u: usize, w: usize| vis(u) && #[trigger] g.has_edge(u, w) implies vis(w) by {
        let m = choose|m: int| 0 <= m < g.adj(u).len() && (#[trigger] g.adj(u)[m]).spec_node() == w;
        assert(done[(u as int) - 1]);
        assert(reachable(g, start, u));
        assert(1 <= g.adj(u as usize)[m].spec_node() <= n);
        if !done[w - 1] {
            assert(dist[w - 1] < usize::MAX);
        }
    }
    if reachable(g, start, goal) {
        let kk = choose|kk: nat| #[trigger] reach(g, start, kk, goal);
        lemma_closed(g, start, vis, kk, goal);
    }
}

/// Settling `src` at the next position keeps the table of settled nodes.
proof fn lemma_settle_tables(n: nat, dist: Seq<usize>, done: Seq<bool>, order: Seq<nat>, q0: Seq<usize>, src: usize)
    requires
        tables(n, dist, done, order, q0),
        n <= usize::MAX,
        done.len() == n,
        order.len() == n,
        1 <= src <= n,
        !done[src - 1],
        dist[src - 1] < usize::MAX,
    ensures
        tables(n, dist, done.update(src - 1, true), order.update(src - 1, q0.len()), q0.push(src)),
        q0.len() < n,
{
    reveal(tables);
    let q1 = q0.push(src);
    let done1 = done.update(src - 1, true);
    let order1 = order.update(src - 1, q0.len());
    let cnt = q0.len();
    assert(!q0.contains(src));
    lemma_fewer_than_all(q0, n, src);
    assert(q1[cnt as int] == src);
    assert forall|a: int, b: int| 0 <= a < b < q1.len() implies #[trigger] q1[a] != #[trigger] q1[b] by {
        if b == cnt {
            assert(q1[a] == q0[a]);
            assert(q0.contains(q0[a]));
        } else {
            assert(q1[a] == q0[a] && q1[b] == q0[b]);
        }
    }
    assert forall|j: int| 0 <= j < q1.len() implies 1 <= #[trigger] q1[j] <= n by {
        if j < cnt {
            assert(q1[j] == q0[j]);
        }
    }
    assert forall|v: int| 1 <= v <= n implies (#[trigger] done1[v - 1] <==> q1.contains(v as usize)) by {
        if v != src {
            assert(done1[v - 1] == done[v - 1]);
            if q0.contains(v as usize) {
                let j = choose|j: int| 0 <= j < q0.len() && q0[j] == v as usize;
                assert(q1[j] == v as usize);
            }
            if q1.contains(v as usize) {
                let j = choose|j: int| 0 <= j < q1.len() && q1[j] == v as usize;
                assert(j != cnt);
                assert(q0[j] == v as usize);
            }
        }
    }
    assert forall|v: int| 1 <= v <= n && #[trigger] done1[v - 1] implies
        order1[v - 1] < q1.len() && dist[v - 1] < usize::MAX by {
        if v != src {
            assert(done[v - 1]);
        }
    }
}

/// Settling `src` at the next position keeps the links to the nodes each
/// node was reached from, and the bounds on the costs.
proof fn lemma_settle_links(g: Graph, start: usize, n: nat, dist: Seq<usize>, parent: Seq<usize>, done: Seq<bool>,
    order: Seq<nat>, cnt: nat, src: usize)
    requires
        linked(g, start, n, dist, parent, done, order),
        fits(g, start, n, dist, parent, done, order),
        forall|v: int| 1 <= v <= n && #[trigger] done[v - 1] ==> order[v - 1] < cnt,
        done.len() == n,
        order.len() == n,
        1 <= src <= n,
        !done[src - 1],
        dist[src - 1] < usize::MAX,
        src == start ==> dist[src - 1] == 0,
    ensures
        linked(g, start, n, dist, parent, done.update(src - 1, true), order.update(src - 1, cnt)),
        fits(g, start, n, dist, parent, done.update(src - 1, true), order.update(src - 1, cnt)),
{
    reveal(linked);
    reveal(fits);
    let done1 = done.update(src - 1, true);
    let order1 = order.update(src - 1, cnt);
    assert forall|v: int| 1 <= v <= n && v != start && #[trigger] dist[v - 1] < usize::MAX implies {
        let p = parent[v - 1];
        &&& 1 <= p <= n
        &&& done1[p - 1]
        &&& dist[p - 1] <= dist[v - 1]
        &&& g.adj(p).contains(NodeType::NC(v as usize, (dist[v - 1] - dist[p - 1]) as usize))
        &&& done1[v - 1] ==> order1[p - 1] < order1[v - 1]
    } by {
        let p = parent[v - 1];
        assert(done[p - 1]);
        assert(p != src);
        assert(order1[p - 1] == order[p - 1]);
        if v != src && done1[v - 1] {
            assert(done[v - 1]);
        }
    }
    assert forall|v: int| 1 <= v <= n && #[trigger] done1[v - 1] implies
        walked(g, start, v as usize, dist[v - 1] as int, order1[v - 1]) by {
        if v == src {
            if src != start {
                let p = parent[src - 1];
                assert(done[p - 1]);
                let op = order[p - 1];
                assert(op < cnt);
                lemma_walked_more(g, start, src, dist[src - 1] as int, op + 1, cnt);
            } else {
                let w = seq![start];
                let cs = Seq::<usize>::empty();
                assert(is_cost_walk(g, w, cs));
                assert(total(cs) == 0);
                assert(walked(g, start, src, dist[src - 1] as int, order1[src - 1]));
            }
        } else {
            assert(done[v - 1]);
        }
    }
    assert forall|v: int| 1 <= v <= n && v != start && !(#[trigger] done1[v - 1]) && dist[v - 1] < usize::MAX implies
        walked(g, start, v as usize, dist[v - 1] as int, order1[parent[v - 1] - 1] + 1) by {
        assert(!done[v - 1]);
        let p = parent[v - 1];
        assert(done[p - 1]);
        assert(p != src);
    }
}

/// A walk of at most `k` edges has at most `k2` edges, for `k <= k2`.
proof fn lemma_walked_more(g: Graph, start: usize, v: usize, c: int, k: nat, k2: nat)
    requires
        walked(g, start, v, c, k),
        k <= k2,
    ensures
        walked(g, start, v, c, k2),
{
    let (p, cs) = choose|p: Seq<usize>, cs: Seq<usize>| #[trigger] is_cost_walk(g, p, cs) && p[0] == start && p.last() == v
        && total(cs) == c && cs.len() <= k;
    assert(is_cost_walk(g, p, cs) && p[0] == start && p.last() == v && total(cs) == c && cs.len() <= k2);
}

/// Settling `src` leaves every other unsettled node with a cost pending,
/// and every other settled node's edges followed.
proof fn lemma_settle_frontier(g: Graph, n: nat, dist: Seq<usize>, done: Seq<bool>, heap: Seq<(usize, usize)>, src: usize)
    requires
        queued_but(n, dist, done, heap, src),
        closed_but(g, n, dist, done, 0),
        done.len() == n,
        1 <= src <= n,
    ensures
        queued_but(n, dist, done.update(src - 1, true), heap, 0),
        closed_but(g, n, dist, done.update(src - 1, true), src),
{
    reveal(queued_but);
    reveal(closed_but);
    let done1 = done.update(src - 1, true);
    assert forall|v: int| 1 <= v <= n && v != 0 && !(#[trigger] done1[v - 1]) && dist[v - 1] < usize::MAX implies
        exists|j: int| 0 <= j < heap.len() && (#[trigger] heap[j]).0 == v && heap[j].1 == dist[v - 1] by {
        assert(v != src);
        assert(!done[v - 1]);
    }
    assert forall|u: int, k: int| 1 <= u <= n && u != src && #[trigger] done1[u - 1] && 0 <= k < g.adj(u as usize).len() implies {
        let v = (#[trigger] g.adj(u as usize)[k]).spec_node();
        1 <= v <= n && (done1[v - 1] || (dist[v - 1] < usize::MAX
            && dist[v - 1] <= dist[u - 1] + edge_cost(g.adj(u as usize)[k])))
    } by {
        assert(done[u - 1]);
        let v = g.adj(u as usize)[k].spec_node();
        if done[v - 1] {
            assert(done1[v - 1]);
        }
    }
}

/// An edge out of a settled node that is reachable from the start: it
/// carries a cost, and it ends in `1..=n`.
proof fn lemma_edge(g: Graph, start: usize, n: nat, s: CostSearch, src: usize, k: int)
    requires
        cost_searchable(g, start, n),
        search_ok(g, start, n, s),
        1 <= src <= n,
        s.done@[src - 1],
        0 <= k < g.adj(src).len(),
    ensures
        reachable(g, start, src),
        g.adj(src)[k] is NC,
        1 <= g.adj(src)[k].spec_node() <= n,
{
    reveal(tables);
    reveal(found);
    assert(s.dist@[src - 1] < usize::MAX);
    assert(reachable(g, start, ((src - 1) + 1) as usize));
}

/// Going on from settled `src` to unsettled `d` along an edge that costs
/// `c` is a walk of at most one edge more than `src`'s position, so it
/// costs less than `usize::MAX`.
proof fn lemma_fits_edge(g: Graph, start: usize, n: nat, s: CostSearch, src: usize, d: usize, c: usize)
    requires
        cost_searchable(g, start, n),
        sized(s, n),
        tables(n, s.dist@, s.done@, s.order@, s.settled@),
        fits(g, start, n, s.dist@, s.parent@, s.done@, s.order@),
        1 <= src <= n,
        s.done@[src - 1],
        1 <= d <= n,
        !s.done@[d - 1],
        g.adj(src).contains(NodeType::NC(d, c)),
    ensures
        s.dist@[src - 1] + c < usize::MAX,
        walked(g, start, d, s.dist@[src - 1] + c, s.order@[src - 1] + 1),
{
    reveal(tables);
    reveal(fits);
    let ds = s.dist@[src - 1];
    let o = s.order@[src - 1];
    assert(!s.settled@.contains(d));
    lemma_fewer_than_all(s.settled@, n, d);
    assert(walked(g, start, src, ds as int, o));
    let (p, cs) = choose|p: Seq<usize>, cs: Seq<usize>| #[trigger] is_cost_walk(g, p, cs) && p[0] == start && p.last() == src
        && total(cs) == ds && cs.len() <= o;
    let p2 = p.push(d);
    let cs2 = cs.push(c);
    assert forall|i: int| 0 <= i < cs2.len() implies g.adj(#[trigger] p2[i]).contains(NodeType::NC(p2[i + 1], cs2[i])) by {
        if i < cs.len() {
            assert(p2[i] == p[i] && p2[i + 1] == p[i + 1] && cs2[i] == cs[i]);
        } else {
            assert(p2[i] == src && p2[i + 1] == d && cs2[i] == c);
        }
    }
    assert(is_cost_walk(g, p2, cs2));
    lemma_total_last(cs2);
    assert(cs2.drop_last() =~= cs);
    assert(total(cs2) == ds + c);
    assert(p2[0] == start);
    assert(total(cs2) < usize::MAX);
    assert(walked(g, start, d, ds + c, o + 1));
}

/// Giving unsettled `d` the cost `ec` through settled `src` keeps the
/// table of settled nodes, and every node with a cost reachable.
proof fn lemma_improve_found(g: Graph, start: usize, n: nat, dist: Seq<usize>, done: Seq<bool>, order: Seq<nat>,
    settled: Seq<usize>, src: usize, d: usize, c: usize, ec: usize)
    requires
        tables(n, dist, done, order, settled),
        found(g, start, n, dist),
        dist.len() == n,
        1 <= src <= n,
        done[src - 1],
        1 <= d <= n,
        !done[d - 1],
        g.adj(src).contains(NodeType::NC(d, c)),
        ec <= dist[d - 1],
        ec < usize::MAX,
    ensures
        tables(n, dist.update(d - 1, ec), done, order, settled),
        found(g, start, n, dist.update(d - 1, ec)),
        optimal(g, start, n, dist, done) ==> optimal(g, start, n, dist.update(d - 1, ec), done),
{
    reveal(tables);
    reveal(found);
    reveal(optimal);
    let dist1 = dist.update(d - 1, ec);
    assert(dist[src - 1] < usize::MAX);
    assert(reachable(g, start, ((src - 1) + 1) as usize));
    assert(g.has_edge(src, d)) by {
        let m = choose|m: int| 0 <= m < g.adj(src).len() && g.adj(src)[m] == NodeType::NC(d, c);
        assert(g.adj(src)[m].spec_node() == d);
    }
    let kk = choose|kk: nat| #[trigger] reach(g, start, kk, src);
    lemma_reach_step(g, start, kk, src, d);
    assert(reach(g, start, kk + 1, d));
    assert forall|v: int| 1 <= v <= n && #[trigger] dist1[v - 1] < usize::MAX implies reachable(g, start, v as usize) by {
        if v != d {
            assert(dist[v - 1] < usize::MAX);
        }
    }
    assert forall|v: int| 1 <= v <= n && #[trigger] done[v - 1] implies
        order[v - 1] < settled.len() && dist1[v - 1] < usize::MAX by {
        assert(v != d);
    }
    if optimal(g, start, n, dist, done) {
        assert forall|v: int| 1 <= v <= n && #[trigger] done[v - 1] implies
            least_cost_to(g, start, v as usize, dist1[v - 1] as int) by {
            assert(v != d);
            assert(dist1[v - 1] == dist[v - 1]);
        }
    }
}

/// Giving unsettled `d` the cost `ec` through settled `src`, along an
/// edge that costs `c`, keeps the links and the bounds on the costs.
proof fn lemma_improve_links(g: Graph, start: usize, n: nat, dist: Seq<usize>, parent: Seq<usize>, done: Seq<bool>,
    order: Seq<nat>, src: usize, d: usize, c: usize, ec: usize)
    requires
        linked(g, start, n, dist, parent, done, order),
        fits(g, start, n, dist, parent, done, order),
        dist.len() == n,
        parent.len() == n,
        1 <= src <= n,
        done[src - 1],
        1 <= d <= n,
        !done[d - 1],
        d == start ==> ec == 0,
        g.adj(src).contains(NodeType::NC(d, c)),
        ec == dist[src - 1] + c,
        walked(g, start, d, ec as int, order[src - 1] + 1),
        ec < usize::MAX,
    ensures
        linked(g, start, n, dist.update(d - 1, ec), parent.update(d - 1, src), done, order),
        fits(g, start, n, dist.update(d - 1, ec), parent.update(d - 1, src), done, order),
{
    reveal(linked);
    reveal(fits);
    let dist1 = dist.update(d - 1, ec);
    let parent1 = parent.update(d - 1, src);
    assert(src != d);
    assert forall|v: int| 1 <= v <= n && v != start && #[trigger] dist1[v - 1] < usize::MAX implies {
        let p = parent1[v - 1];
        &&& 1 <= p <= n
        &&& done[p - 1]
        &&& dist1[p - 1] <= dist1[v - 1]
        &&& g.adj(p).contains(NodeType::NC(v as usize, (dist1[v - 1] - dist1[p - 1]) as usize))
        &&& done[v - 1] ==> order[p - 1] < order[v - 1]
    } by {
        if v == d {
            assert(parent1[v - 1] == src);
            assert(dist1[src - 1] == dist[src - 1]);
            assert((dist1[v - 1] - dist1[src - 1]) as usize == c);
        } else {
            assert(dist1[v - 1] == dist[v - 1]);
            assert(parent1[v - 1] == parent[v - 1]);
            let p = parent[v - 1];
            assert(done[p - 1]);
            assert(p != d);
            assert(dist1[p - 1] == dist[p - 1]);
        }
    }
    assert forall|v: int| 1 <= v <= n && #[trigger] done[v - 1] implies
        walked(g, start, v as usize, dist1[v - 1] as int, order[v - 1]) by {
        assert(v != d);
        assert(dist1[v - 1] == dist[v - 1]);
    }
    assert forall|v: int| 1 <= v <= n && v != start && !(#[trigger] done[v - 1]) && dist1[v - 1] < usize::MAX implies
        walked(g, start, v as usize, dist1[v - 1] as int, order[parent1[v - 1] - 1] + 1) by {
        if v != d {
            assert(dist1[v - 1] == dist[v - 1]);
            assert(parent1[v - 1] == parent[v - 1]);
        } else {
            assert(parent1[v - 1] == src);
        }
    }
}

/// Giving unsettled node `d` the lower cost `ec` and a pending entry at
/// that cost keeps every unsettled node with a cost pending, and every
/// settled node's edges, but `src`'s, followed.
proof fn lemma_improve_frontier(g: Graph, n: nat, dist: Seq<usize>, done: Seq<bool>, h0: Seq<(usize, usize)>,
    src: usize, d: usize, ec: usize)
    requires
        queued_but(n, dist, done, h0, 0),
        closed_but(g, n, dist, done, src),
        dist.len() == n,
        done.len() == n,
        1 <= d <= n,
        !done[d - 1],
        ec <= dist[d - 1],
        ec < usize::MAX,
    ensures
        queued_but(n, dist.update(d - 1, ec), done, h0.push((d, ec)), 0),
        closed_but(g, n, dist.update(d - 1, ec), done, src),
        forall|v: int| 1 <= v <= n ==> #[trigger] dist.update(d - 1, ec)[v - 1] <= dist[v - 1],
{
    reveal(queued_but);
    reveal(closed_but);
    let dist1 = dist.update(d - 1, ec);
    let h1 = h0.push((d, ec));
    assert forall|v: int| 1 <= v <= n implies #[trigger] dist1[v - 1] <= dist[v - 1] by {
        if v != d {
            assert(dist1[v - 1] == dist[v - 1]);
        }
    }
    assert forall|j: int| 0 <= j < h1.len() implies 1 <= (#[trigger] h1[j]).0 <= n && dist1[h1[j].0 - 1] < usize::MAX
        && dist1[h1[j].0 - 1] <= h1[j].1 by {
        if j < h0.len() {
            assert(h1[j] == h0[j]);
            assert(dist1[h0[j].0 - 1] <= dist[h0[j].0 - 1]);
        }
    }
    assert forall|v: int| 1 <= v <= n && v != 0 && !(#[trigger] done[v - 1]) && dist1[v - 1] < usize::MAX implies
        exists|j: int| 0 <= j < h1.len() && (#[trigger] h1[j]).0 == v && h1[j].1 == dist1[v - 1] by {
        if v == d {
            assert(h1[h0.len() as int].0 == d);
        } else {
            assert(dist1[v - 1] == dist[v - 1]);
            let j = choose|j: int| 0 <= j < h0.len() && (#[trigger] h0[j]).0 == v && h0[j].1 == dist[v - 1];
            assert(h1[j] == h0[j]);
        }
    }
    assert forall|u: int, k: int| 1 <= u <= n && u != src && #[trigger] done[u - 1] && 0 <= k < g.adj(u as usize).len() implies {
        let v = (#[trigger] g.adj(u as usize)[k]).spec_node();
        1 <= v <= n && (done[v - 1] || (dist1[v - 1] < usize::MAX
            && dist1[v - 1] <= dist1[u - 1] + edge_cost(g.adj(u as usize)[k])))
    } by {
        let v = g.adj(u as usize)[k].spec_node();
        assert(u != d);
        assert(dist1[u - 1] == dist[u - 1]);
        if !done[v - 1] {
            assert(dist1[v - 1] <= dist[v - 1]);
        }
    }
}

/// With every edge out of `src` followed, no settled node is left out.
proof fn lemma_relaxed(g: Graph, n: nat, dist: Seq<usize>, done: Seq<bool>, src: usize)
    requires
        closed_but(g, n, dist, done, src),
        forall|m: int| 0 <= m < g.adj(src).len() ==> {
            let v = (#[trigger] g.adj(src)[m]).spec_node();
            1 <= v <= n && (done[v - 1] || (dist[v - 1] < usize::MAX
                && dist[v - 1] <= dist[src - 1] + edge_cost(g.adj(src)[m])))
        },
    ensures
        closed_but(g, n, dist, done, 0),
{
    reveal(closed_but);
    assert forall|u: int, k: int| 1 <= u <= n && u != 0 && #[trigger] done[u - 1] && 0 <= k < g.adj(u as usize).len() implies {
        let v = (#[trigger] g.adj(u as usize)[k]).spec_node();
        1 <= v <= n && (done[v - 1] || (dist[v - 1] < usize::MAX
            && dist[v - 1] <= dist[u - 1] + edge_cost(g.adj(u as usize)[k])))
    } by {
        if u == src {
            assert(g.adj(src)[k] == g.adj(u as usize)[k]);
        }
    }
}

/// The node of the pending entry at `j`.
spec fn src_of(heap: Seq<(usize, usize)>, j: int) -> usize {
    heap[j].0
}

/// The position of a pending entry of least cost.
fn least_entry(heap: &Vec<(usize, usize)>) -> (best: usize)
    requires
        heap@.len() > 0,
    ensures
        best < heap@.len(),
        forall|j: int| 0 <= j < heap@.len() ==> heap@[best as int].1 <= (#[trigger] heap@[j]).1,
{
    let mut best: usize = 0;
    let mut k: usize = 1;
    while k < heap.len()
        invariant
            1 <= k <= heap@.len(),
            best < heap@.len(),
            forall|j: int| 0 <= j < k ==> heap@[best as int].1 <= (#[trigger] heap@[j]).1,
        decreases heap@.len() - k,
    {
        if heap[k].1 < heap[best].1 {
            best = k;
        }
        k = k + 1;
    }
    best
}

impl CostSearch {
    /// A search from `start` over the nodes of `g`: only the start has a
    /// cost, 0, and it is the one pending entry.
    fn new(g: &Graph, start: usize) -> (s: CostSearch)
        requires
            1 <= start <= g.nodes@.len(),
        ensures
            search_ok(*g, start, g.nodes@.len() as nat, s),
            queued_but(g.nodes@.len() as nat, s.dist@, s.done@, s.heap@, 0),
            closed_but(*g, g.nodes@.len() as nat, s.dist@, s.done@, 0),
            s.settled@.len() == 0,
            forall|q: int| 0 <= q < g.nodes@.len() ==> !s.done@[q],
    {
        let n = g.nodes.len();
        let mut dist: Vec<usize> = Vec::new();
        let mut parent: Vec<usize> = Vec::new();
        let mut done: Vec<bool> = Vec::new();
        let mut i: usize = 0;
        while i < n
            invariant
                i <= n,
                dist@.len() == i,
                parent@.len() == i,
                done@.len() == i,
                forall|q: int| 0 <= q < i ==> dist@[q] == usize::MAX && !done@[q],
            decreases n - i,
        {
            dist.push(usize::MAX);
            parent.push(0);
            done.push(false);
            i = i + 1;
        }
        dist.set(start - 1, 0);
        let mut heap: Vec<(usize, usize)> = Vec::new();
        heap.push((start, 0));
        let s = CostSearch {
            dist,
            parent,
            done,
            heap,
            order: Ghost(Seq::new(n as nat, |q: int| 0nat)),
            settled: Ghost(Seq::empty()),
        };
        proof {
            reveal(tables);
            reveal(found);
            reveal(linked);
            reveal(fits);
            reveal(optimal);
            reveal(queued_but);
            reveal(closed_but);
            lemma_reach_start(*g, start);
            assert forall|v: int| 1 <= v <= n && #[trigger] s.dist@[v - 1] < usize::MAX implies reachable(*g, start, v as usize) by {
                if v != start {
                    assert(s.dist@[v - 1] == usize::MAX);
                }
            }
            assert forall|v: int| 1 <= v <= n && v != 0 && !(#[trigger] s.done@[v - 1]) && s.dist@[v - 1] < usize::MAX implies
                exists|j: int| 0 <= j < s.heap@.len() && (#[trigger] s.heap@[j]).0 == v by {
                if v != start {
                    assert(s.dist@[v - 1] == usize::MAX);
                }
                assert(s.heap@[0].0 == start);
            }
        }
        s
    }

    /// Settles `src`, at the next position.
    fn settle(&mut self, g: &Graph, start: usize, src: usize)
        requires
            search_ok(*g, start, g.nodes@.len() as nat, *old(self)),
            queued_but(g.nodes@.len() as nat, old(self).dist@, old(self).done@, old(self).heap@, src),
            closed_but(*g, g.nodes@.len() as nat, old(self).dist@, old(self).done@, 0),
            1 <= src <= g.nodes@.len(),
            !old(self).done@[src - 1],
            old(self).dist@[src - 1] < usize::MAX,
            least_cost_to(*g, start, src, old(self).dist@[src - 1] as int),
        ensures
            search_ok(*g, start, g.nodes@.len() as nat, *final(self)),
            queued_but(g.nodes@.len() as nat, final(self).dist@, final(self).done@, final(self).heap@, 0),
            closed_but(*g, g.nodes@.len() as nat, final(self).dist@, final(self).done@, src),
            final(self).done@ == old(self).done@.update(src - 1, true),
            final(self).settled@.len() == old(self).settled@.len() + 1,
            final(self).settled@.len() <= g.nodes@.len(),
    {
        let nx = g.nodes.len();
        let ghost n = nx as nat;
        let ghost cnt = self.settled@.len();
        proof {
            lemma_settle_tables(n, self.dist@, self.done@, self.order@, self.settled@, src);
            assert(forall|v: int| 1 <= v <= n && #[trigger] self.done@[v - 1] ==> self.order@[v - 1] < cnt) by {
                reveal(tables);
            }
            assert(src == start ==> self.dist@[src - 1] == 0) by {
                reveal(found);
            }
            lemma_settle_links(*g, start, n, self.dist@, self.parent@, self.done@, self.order@, cnt, src);
            lemma_settle_frontier(*g, n, self.dist@, self.done@, self.heap@, src);
            lemma_settle_optimal(*g, start, n, self.dist@, self.done@, src);
        }
        self.done.set(src - 1, true);
        self.order = Ghost(self.order@.update(src - 1, cnt));
        self.settled = Ghost(self.settled@.push(src));
    }

    /// Follows every edge out of settled `src`, giving each unsettled node
    /// at its end the cost through `src` where that is no more than its
    /// cost so far, and a pending entry at that cost.
    fn relax(&mut self, g: &Graph, start: usize, src: usize)
        requires
            cost_searchable(*g, start, g.nodes@.len() as nat),
            search_ok(*g, start, g.nodes@.len() as nat, *old(self)),
            queued_but(g.nodes@.len() as nat, old(self).dist@, old(self).done@, old(self).heap@, 0),
            closed_but(*g, g.nodes@.len() as nat, old(self).dist@, old(self).done@, src),
            1 <= src <= g.nodes@.len(),
            old(self).done@[src - 1],
        ensures
            search_ok(*g, start, g.nodes@.len() as nat, *final(self)),
            queued_but(g.nodes@.len() as nat, final(self).dist@, final(self).done@, final(self).heap@, 0),
            closed_but(*g, g.nodes@.len() as nat, final(self).dist@, final(self).done@, 0),
            final(self).done@ == old(self).done@,
            final(self).settled@ == old(self).settled@,
    {
        let n = g.nodes.len();
        let ghost nn = n as nat;
        let ghost done0 = self.done@;
        let ghost settled0 = self.settled@;
        match g.edges.get(&src) {
            Some(edges) => {
                assert(edges@ == g.adj(src));
                let mut k: usize = 0;
                while k < edges.len()
                    invariant
                        n == g.nodes@.len(),
                        nn == n,
                        edges@ == g.adj(src),
                        cost_searchable(*g, start, nn),
                        1 <= src <= n,
                        search_ok(*g, start, nn, *self),
                        queued_but(nn, self.dist@, self.done@, self.heap@, 0),
                        closed_but(*g, nn, self.dist@, self.done@, src),
                        self.done@ == done0,
                        self.settled@ == settled0,
                        done0[src - 1],
                        k <= edges@.len(),
                        forall|m: int| 0 <= m < k ==> {
                            let v = (#[trigger] edges@[m]).spec_node();
                            1 <= v <= n && (self.done@[v - 1] || (self.dist@[v - 1] < usize::MAX
                                && self.dist@[v - 1] <= self.dist@[src - 1] + edge_cost(edges@[m])))
                        },
                    decreases edges@.len() - k,
                {
                    proof {
                        lemma_edge(*g, start, nn, *self, src, k as int);
                    }
                    let ghost dist_it = self.dist@;
                    let (d, c) = match edges[k] {
                        NodeType::NC(d, c) => (d, c),
                        NodeType::N(d) => (d, 0),
                    };
                    assert(edges@[k as int] == NodeType::NC(d, c));
                    if !self.done[d - 1] {
                        proof {
                            lemma_fits_edge(*g, start, nn, *self, src, d, c);
                        }
                        let ec = self.dist[src - 1] + c;
                        if ec <= self.dist[d - 1] {
                            proof {
                                assert(g.adj(src).contains(NodeType::NC(d, c)));
                                assert(d == start ==> ec == 0) by {
                                    reveal(found);
                                }
                                lemma_improve_found(*g, start, nn, self.dist@, self.done@, self.order@, self.settled@, src, d, c, ec);
                                lemma_improve_links(*g, start, nn, self.dist@, self.parent@, self.done@, self.order@, src, d, c, ec);
                                lemma_improve_frontier(*g, nn, self.dist@, self.done@, self.heap@, src, d, ec);
                            }
                            self.dist.set(d - 1, ec);
                            self.parent.set(d - 1, src);
                            self.heap.push((d, ec));
                        }
                    }
                    proof {
                        assert(self.dist@[src - 1] == dist_it[src - 1]);
                        assert forall|m: int| 0 <= m < k + 1 implies {
                            let v = (#[trigger] edges@[m]).spec_node();
                            1 <= v <= n && (self.done@[v - 1] || (self.dist@[v - 1] < usize::MAX
                                && self.dist@[v - 1] <= self.dist@[src - 1] + edge_cost(edges@[m])))
                        } by {
                            let v = edges@[m].spec_node();
                            if m < k {
                                if !self.done@[v - 1] {
                                    assert(self.dist@[v - 1] <= dist_it[v - 1]);
                                }
                            }
                        }
                    }
                    k = k + 1;
                }
                proof {
                    assert forall|m: int| 0 <= m < g.adj(src).len() implies {
                        let v = (#[trigger] g.adj(src)[m]).spec_node();
                        1 <= v <= n && (self.done@[v - 1] || (self.dist@[v - 1] < usize::MAX
                            && self.dist@[v - 1] <= self.dist@[src - 1] + edge_cost(g.adj(src)[m])))
                    } by {
                        assert(edges@[m] == g.adj(src)[m]);
                    }
                    lemma_relaxed(*g, nn, self.dist@, self.done@, src);
                }
            },
            None => {
                proof {
                    lemma_relaxed(*g, nn, self.dist@, self.done@, src);
                }
            },
        }
    }

    /// The path to `goal`, read back through the nodes each was reached
    /// from, with its cost.
    fn path_to(&self, g: &Graph, start: usize, goal: usize) -> (r: Option<(Vec<usize>, usize)>)
        requires
            search_ok(*g, start, g.nodes@.len() as nat, *self),
            1 <= goal <= g.nodes@.len(),
            self.dist@[goal - 1] < usize::MAX,
            !self.done@[goal - 1],
            least_cost_to(*g, start, goal, self.dist@[goal - 1] as int),
        ensures
            cost_result(*g, start, goal, match r {
                Some((p, c)) => Some((p@, c)),
                None => None,
            }),
            r is Some,
    {
        let n = g.nodes.len();
        proof {
            reveal(tables);
            reveal(found);
            reveal(linked);
        }
        assert(forall|v: int| 1 <= v <= n && #[trigger] self.done@[v - 1] ==> self.dist@[v - 1] < usize::MAX);
        let mut path: Vec<usize> = Vec::new();
        path.push(goal);
        let ghost mut cs: Seq<usize> = Seq::empty();
        let mut cur = goal;
        assert(is_cost_walk(*g, path@, cs));
        while cur != start
            invariant
                n == g.nodes@.len(),
                1 <= cur <= n,
                1 <= start <= n,
                sized(*self, n as nat),
                self.dist@[start - 1] == 0,
                self.dist@[cur - 1] < usize::MAX,
                cur == goal || self.done@[cur - 1],
                !self.done@[goal - 1],
                forall|v: int| 1 <= v <= n && v != start && #[trigger] self.dist@[v - 1] < usize::MAX ==> {
                    let p = self.parent@[v - 1];
                    &&& 1 <= p <= n
                    &&& self.done@[p - 1]
                    &&& self.dist@[p - 1] <= self.dist@[v - 1]
                    &&& g.adj(p).contains(NodeType::NC(v as usize, (self.dist@[v - 1] - self.dist@[p - 1]) as usize))
                    &&& self.done@[v - 1] ==> self.order@[p - 1] < self.order@[v - 1]
                },
                forall|v: int| 1 <= v <= n && #[trigger] self.done@[v - 1] ==> self.dist@[v - 1] < usize::MAX,
                path@.len() > 0,
                path@[0] == cur,
                path@.last() == goal,
                is_cost_walk(*g, path@, cs),
                self.dist@[goal - 1] == self.dist@[cur - 1] + total(cs),
                goal == start ==> cur == start && path@.len() == 1,
            decreases if self.done@[cur - 1] { self.order@[cur - 1] + 1 } else { self.order@[self.parent@[cur - 1] - 1] + 2 },
        {
            let p = self.parent[cur - 1];
            let c = self.dist[cur - 1] - self.dist[p - 1];
            let ghost pth0 = path@;
            let ghost cs0 = cs;
            path.insert(0, p);
            proof {
                cs = seq![c] + cs0;
                assert(cs.drop_first() =~= cs0);
                assert forall|i: int| 0 <= i < cs.len() implies g.adj(#[trigger] path@[i]).contains(NodeType::NC(path@[i + 1], cs[i])) by {
                    if i > 0 {
                        assert(path@[i] == pth0[i - 1] && path@[i + 1] == pth0[i] && cs[i] == cs0[i - 1]);
                    } else {
                        assert(path@[0] == p && path@[1] == cur);
                    }
                }
                assert(path@.last() == goal);
            }
            cur = p;
        }
        let cost = self.dist[goal - 1];
        proof {
            if goal == start {
                assert(path@ =~= seq![start]);
            }
        }
        Some((path, cost))
    }
}

/// A path of least total cost from `start` to `goal` found by settling
/// nodes least cost first, with its cost; `None` where `goal` cannot be
/// reached.
pub(crate) fn least_cost_path(g: &Graph, start: usize, goal: usize) -> (r: Option<(Vec<usize>, usize)>)
    requires
        cost_searchable(*g, start, g.nodes@.len() as nat),
    ensures
        cost_result(*g, start, goal, match r {
            Some((p, c)) => Some((p@, c)),
            None => None,
        }),
{
    let n = g.nodes.len();
    let mut s = CostSearch::new(g, start);
    while s.heap.len() > 0
        invariant
            n == g.nodes@.len(),
            cost_searchable(*g, start, n as nat),
            search_ok(*g, start, n as nat, s),
            queued_but(n as nat, s.dist@, s.done@, s.heap@, 0),
            closed_but(*g, n as nat, s.dist@, s.done@, 0),
            s.settled@.len() <= n,
            !(1 <= goal <= n && s.done@[goal - 1]),
        decreases n - s.settled@.len(), s.heap@.len(),
    {
        let best = least_entry(&s.heap);
        proof {
            lemma_pop(n as nat, s.dist@, s.done@, s.heap@, best as int, src_of(s.heap@, best as int));
        }
        let (src, _) = s.heap.remove(best);
        if s.done[src - 1] {
            continue;
        }
        proof {
            lemma_least(*g, start, n as nat, s.dist@, s.done@, src);
        }
        if src == goal {
            return s.path_to(g, start, goal);
        }
        s.settle(g, start, src);
        s.relax(g, start, src);
    }
    proof {
        lemma_exhausted(*g, start, goal, n as nat, s);
    }
    None
}

} // verus!
