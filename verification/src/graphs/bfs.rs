//! Breadth first search: the number of edges on a shortest path from a start
//! node to every node.
use vstd::prelude::*;
use std::collections::{HashMap, HashSet};
use super::{Graph, NodeType};

verus! {

broadcast use vstd::std_specs::hash::group_hash_axioms;

/// `p` follows edges of the graph from its first node to its last.
pub open spec fn is_walk(g: Graph, p: Seq<usize>) -> bool {
    &&& p.len() > 0
    &&& forall|i: int| 0 <= i < p.len() - 1 ==> g.has_edge(#[trigger] p[i], p[i + 1])
}

/// `v` can be reached from `s` following at most `k` edges.
pub open spec fn reach(g: Graph, s: usize, k: nat, v: usize) -> bool {
    exists|p: Seq<usize>| #[trigger] is_walk(g, p) && p[0] == s && p.last() == v && p.len() <= k + 1
}

/// `v` can be reached from `s` at all.
pub open spec fn reachable(g: Graph, s: usize, v: usize) -> bool {
    exists|k: nat| #[trigger] reach(g, s, k, v)
}

/// `d` is the number of edges on a shortest path from `s` to `v`.
pub open spec fn is_distance(g: Graph, s: usize, v: usize, d: nat) -> bool {
    &&& reach(g, s, d, v)
    &&& d == 0 || !reach(g, s, (d - 1) as nat, v)
}

/// The distances a search from `s` gives nodes `1..=dist.len()`: the
/// shortest path length for reachable nodes, 0 for the others.
pub open spec fn bfs_distances(g: Graph, s: usize, dist: Seq<usize>) -> bool {
    forall|i: int| 0 <= i < dist.len() ==> {
        &&& reachable(g, s, (i + 1) as usize) ==> is_distance(g, s, (i + 1) as usize, #[trigger] dist[i] as nat)
        &&& !reachable(g, s, (i + 1) as usize) ==> dist[i] == 0
    }
}

/// Nodes `1..=n` only: every edge out of a node reachable from `s` ends
/// within `1..=n`.
pub open spec fn searchable(g: Graph, s: usize, n: nat) -> bool {
    &&& 1 <= s <= n
    &&& forall|u: usize, k: int| reachable(g, s, u) && 0 <= k < g.adj(u).len()
        ==> 1 <= (#[trigger] g.adj(u)[k]).spec_node() <= n
}

/// Reaching within fewer edges is reaching within more.
pub proof fn lemma_reach_monotonic(g: Graph, s: usize, k: nat, k2: nat, v: usize)
    requires
        k <= k2,
        reach(g, s, k, v),
    ensures
        reach(g, s, k2, v),
{
}

/// The start is reached with no edge.
pub proof fn lemma_reach_start(g: Graph, s: usize)
    ensures
        reach(g, s, 0, s),
{
    let p = seq![s];
    assert(is_walk(g, p));
}

/// Reaching `c` from `a` and `d` from `c` is reaching `d` from `a`.
pub proof fn lemma_reach_trans(g: Graph, a: usize, c: usize, d: usize)
    requires
        reachable(g, a, c),
        reachable(g, c, d),
    ensures
        reachable(g, a, d),
{
    let k1 = choose|k: nat| #[trigger] reach(g, a, k, c);
    let p = choose|p: Seq<usize>| #[trigger] is_walk(g, p) && p[0] == a && p.last() == c && p.len() <= k1 + 1;
    let k2 = choose|k: nat| #[trigger] reach(g, c, k, d);
    let q = choose|p: Seq<usize>| #[trigger] is_walk(g, p) && p[0] == c && p.last() == d && p.len() <= k2 + 1;
    let w = p + q.drop_first();
    assert forall|i: int| 0 <= i < w.len() - 1 implies g.has_edge(#[trigger] w[i], w[i + 1]) by {
        if i < p.len() - 1 {
            assert(w[i] == p[i] && w[i + 1] == p[i + 1]);
        } else if i == p.len() - 1 {
            assert(w[i] == c);
            assert(w[i + 1] == q[1]);
            assert(g.has_edge(q[0], q[1]));
        } else {
            assert(w[i] == q[i - p.len() + 1] && w[i + 1] == q[i - p.len() + 2]);
        }
    }
    assert(is_walk(g, w));
    if q.len() == 1 {
        assert(w =~= p);
    } else {
        assert(w.last() == q.last());
    }
    assert(reach(g, a, w.len() as nat, d));
}

/// One more edge from a node within `k` edges reaches within `k + 1`.
pub proof fn lemma_reach_step(g: Graph, s: usize, k: nat, u: usize, v: usize)
    requires
        reach(g, s, k, u),
        g.has_edge(u, v),
    ensures
        reach(g, s, k + 1, v),
{
    let p = choose|p: Seq<usize>| #[trigger] is_walk(g, p) && p[0] == s && p.last() == u && p.len() <= k + 1;
    let q = p.push(v);
    assert forall|i: int| 0 <= i < q.len() - 1 implies g.has_edge(#[trigger] q[i], q[i + 1]) by {
        if i < p.len() - 1 {
            assert(q[i] == p[i] && q[i + 1] == p[i + 1]);
        } else {
            assert(q[i] == u);
        }
    }
    assert(is_walk(g, q));
}

/// A node other than `s` within `k` edges is within `k - 1` edges, or one
/// edge away from a node that is.
pub proof fn lemma_reach_unfold(g: Graph, s: usize, k: nat, v: usize)
    requires
        reach(g, s, k, v),
        v != s,
    ensures
        k > 0,
        exists|u: usize| #[trigger] reach(g, s, (k - 1) as nat, u) && g.has_edge(u, v),
{
    let p = choose|p: Seq<usize>| #[trigger] is_walk(g, p) && p[0] == s && p.last() == v && p.len() <= k + 1;
    assert(p.len() >= 2);
    let q = p.drop_last();
    let u = q.last();
    assert forall|i: int| 0 <= i < q.len() - 1 implies g.has_edge(#[trigger] q[i], q[i + 1]) by {
        assert(q[i] == p[i] && q[i + 1] == p[i + 1]);
    }
    assert(is_walk(g, q));
    assert(reach(g, s, (k - 1) as nat, u));
    assert(g.has_edge(p[p.len() - 2], p[p.len() - 1]));
}

/// Distinct nodes among `1..=n` are at most `n`.
pub proof fn lemma_distinct_range_len(q: Seq<usize>, n: nat)
    requires
        forall|a: int, b: int| 0 <= a < b < q.len() ==> #[trigger] q[a] != #[trigger] q[b],
        forall|j: int| 0 <= j < q.len() ==> 1 <= #[trigger] q[j] <= n,
    ensures
        q.len() <= n,
{
    let qi = q.map_values(|x: usize| x as int);
    assert(qi.no_duplicates()) by {
        assert forall|i: int, j: int| 0 <= i < qi.len() && 0 <= j < qi.len() && i != j implies qi[i] != qi[j] by {
            if i < j {
                assert(q[i] != q[j]);
            } else {
                assert(q[j] != q[i]);
            }
        }
    }
    qi.unique_seq_to_set();
    vstd::set_lib::lemma_int_range(1, n as int + 1);
    assert(qi.to_set().subset_of(vstd::set_lib::set_int_range(1, n as int + 1))) by {
        assert forall|x: int| qi.to_set().contains(x) implies vstd::set_lib::set_int_range(1, n as int + 1).contains(x) by {
            let j = choose|j: int| 0 <= j < qi.len() && qi[j] == x;
            assert(1 <= q[j] <= n);
        }
    }
    vstd::set_lib::lemma_len_subset(qi.to_set(), vstd::set_lib::set_int_range(1, n as int + 1));
}

/// A set of nodes holding `s` and closed under edges holds every node
/// reachable from `s`.
pub proof fn lemma_closed(g: Graph, s: usize, vis: spec_fn(usize) -> bool, k: nat, v: usize)
    requires
        vis(s),
        forall|u: usize, w: usize| vis(u) && #[trigger] g.has_edge(u, w) ==> vis(w),
        reach(g, s, k, v),
    ensures
        vis(v),
    decreases k,
{
    if v != s {
        lemma_reach_unfold(g, s, k, v);
        let u = choose|u: usize| #[trigger] reach(g, s, (k - 1) as nat, u) && g.has_edge(u, v);
        lemma_closed(g, s, vis, (k - 1) as nat, u);
    }
}

/// The search queue holds the visited nodes among `1..=n`, each once,
/// starting with `start`, in nondecreasing order of distance, each at its
/// distance, which does not exceed its position; unvisited nodes have
/// distance 0.
#[verifier::opaque]
pub open spec fn queue_ok(g: Graph, start: usize, n: nat, queue: Seq<usize>, distance: Seq<usize>, visited: Seq<bool>) -> bool {
    &&& visited.len() == n
    &&& distance.len() == n
    &&& queue.len() > 0
    &&& queue[0] == start
    &&& forall|j: int| 0 <= j < queue.len() ==> 1 <= #[trigger] queue[j] <= n && visited[queue[j] - 1]
    &&& forall|a: int, b: int| 0 <= a < b < queue.len() ==> #[trigger] queue[a] != #[trigger] queue[b]
    &&& forall|v: int| 1 <= v <= n && #[trigger] visited[v - 1] ==> queue.contains(v as usize)
    &&& forall|v: int| 1 <= v <= n && !#[trigger] visited[v - 1] ==> distance[v - 1] == 0
    &&& forall|j: int| 0 <= j < queue.len() ==> #[trigger] distance[queue[j] - 1] <= j
    &&& forall|a: int, b: int| 0 <= a <= b < queue.len() ==>
        distance[#[trigger] queue[a] - 1] <= distance[#[trigger] queue[b] - 1]
    &&& forall|j: int| 0 <= j < queue.len() ==> is_distance(g, start, #[trigger] queue[j], distance[queue[j] - 1] as nat)
}

/// Every visited node but the start has as parent a visited node one edge
/// before it and one step nearer the start.
pub open spec fn parents_ok(g: Graph, start: usize, n: nat, distance: Seq<usize>, visited: Seq<bool>, parent: Seq<usize>) -> bool {
    &&& parent.len() == n
    &&& forall|v: int| 1 <= v <= n && v != start && #[trigger] visited[v - 1] ==> {
        let u = parent[v - 1];
        &&& 1 <= u <= n
        &&& visited[u - 1]
        &&& g.has_edge(u, v as usize)
        &&& distance[v - 1] == distance[u - 1] + 1
    }
}

/// Every reachable node but the start has as parent a reachable node one
/// edge before it and one step nearer the start.
pub open spec fn bfs_parents(g: Graph, start: usize, n: nat, distance: Seq<usize>, parent: Seq<usize>) -> bool {
    &&& parent.len() == n
    &&& forall|v: int| 1 <= v <= n && v != start && #[trigger] reachable(g, start, v as usize) ==> {
        let u = parent[v - 1];
        &&& 1 <= u <= n
        &&& reachable(g, start, u)
        &&& g.has_edge(u, v as usize)
        &&& distance[v - 1] == distance[u - 1] + 1
    }
}

/// The nodes at positions before `head` have all their neighbours visited.
pub open spec fn processed(g: Graph, queue: Seq<usize>, head: int, visited: Seq<bool>) -> bool {
    forall|j: int, k: int| 0 <= j < head && 0 <= k < g.adj(queue[j]).len() ==>
        visited[(#[trigger] g.adj(#[trigger] queue[j])[k]).spec_node() - 1]
}

/// Facts of a well-kept queue.
proof fn lemma_queue_facts(g: Graph, start: usize, n: nat, queue: Seq<usize>, distance: Seq<usize>, visited: Seq<bool>)
    requires
        queue_ok(g, start, n, queue, distance, visited),
    ensures
        visited.len() == n,
        distance.len() == n,
        queue.len() > 0,
        queue[0] == start,
        queue.len() <= n,
        forall|j: int| 0 <= j < queue.len() ==> 1 <= #[trigger] queue[j] <= n && visited[queue[j] - 1],
        forall|v: int| 1 <= v <= n && #[trigger] visited[v - 1] ==> queue.contains(v as usize),
        forall|j: int| 0 <= j < queue.len() ==> #[trigger] distance[queue[j] - 1] <= j,
        forall|a: int, b: int| 0 <= a <= b < queue.len() ==>
            distance[#[trigger] queue[a] - 1] <= distance[#[trigger] queue[b] - 1],
        forall|j: int| 0 <= j < queue.len() ==> is_distance(g, start, #[trigger] queue[j], distance[queue[j] - 1] as nat),
        forall|v: int| 1 <= v <= n && !#[trigger] visited[v - 1] ==> distance[v - 1] == 0,
{
    reveal(queue_ok);
    lemma_distinct_range_len(queue, n);
}

/// Discovering an unvisited node one edge beyond the node at `head` keeps
/// the queue well kept.
proof fn lemma_queue_push(g: Graph, start: usize, n: nat, queue: Seq<usize>, distance: Seq<usize>,
    visited: Seq<bool>, head: int, d: usize)
    requires
        queue_ok(g, start, n, queue, distance, visited),
        0 <= head < queue.len(),
        forall|j: int| head <= j < queue.len() ==> distance[#[trigger] queue[j] - 1] <= distance[queue[head] - 1] + 1,
        1 <= d <= n,
        visited.len() == n,
        distance.len() == n,
        distance[queue[head] - 1] + 1 <= usize::MAX,
        !visited[d - 1],
        distance[queue[head] - 1] + 1 <= head + 1,
        is_distance(g, start, d, (distance[queue[head] - 1] + 1) as nat),
    ensures
        queue_ok(g, start, n, queue.push(d), distance.update(d - 1, (distance[queue[head] - 1] + 1) as usize),
            visited.update(d - 1, true)),
        forall|j: int| head <= j < queue.len() + 1 ==> distance.update(d - 1, (distance[queue[head] - 1] + 1) as usize)[
            #[trigger] queue.push(d)[j] - 1] <= distance[queue[head] - 1] + 1,
{
    reveal(queue_ok);
    let ds = distance[queue[head] - 1];
    let q1 = queue.push(d);
    let d1 = distance.update(d - 1, (ds + 1) as usize);
    let v1 = visited.update(d - 1, true);
    assert(!queue.contains(d)) by {
        if queue.contains(d) {
            let j = choose|j: int| 0 <= j < queue.len() && queue[j] == d;
            assert(visited[queue[j] - 1]);
        }
    }
    assert forall|j: int| 0 <= j < queue.len() implies #[trigger] q1[j] == queue[j] && d1[queue[j] - 1] == distance[queue[j] - 1] by {
        assert(queue[j] != d);
    }
    assert forall|j: int| 0 <= j < q1.len() implies 1 <= #[trigger] q1[j] <= n && v1[q1[j] - 1] by {
        if j < queue.len() {
            assert(q1[j] == queue[j]);
        }
    }
    assert forall|a: int, b: int| 0 <= a < b < q1.len() implies #[trigger] q1[a] != #[trigger] q1[b] by {
        if b == queue.len() {
            assert(q1[a] == queue[a]);
        }
    }
    assert forall|v: int| 1 <= v <= n && #[trigger] v1[v - 1] implies q1.contains(v as usize) by {
        if v != d {
            assert(visited[v - 1]);
            let j = choose|j: int| 0 <= j < queue.len() && queue[j] == v as usize;
            assert(q1[j] == v as usize);
        } else {
            assert(q1[queue.len() as int] == d);
        }
    }
    assert forall|v: int| 1 <= v <= n && !#[trigger] v1[v - 1] implies d1[v - 1] == 0 by {
        assert(v != d);
    }
    assert forall|j: int| 0 <= j < q1.len() implies #[trigger] d1[q1[j] - 1] <= j by {
        if j < queue.len() {
            assert(q1[j] == queue[j]);
        }
    }
    assert(d1[d - 1] == ds + 1);
    assert(q1[queue.len() as int] == d);
    assert forall|a: int, b: int| 0 <= a <= b < q1.len() implies
        d1[#[trigger] q1[a] - 1] <= d1[#[trigger] q1[b] - 1] by {
        if b == queue.len() {
            if a < queue.len() {
                assert(q1[a] == queue[a] && d1[queue[a] - 1] == distance[queue[a] - 1]);
                if a >= head {
                    assert(distance[queue[a] - 1] <= ds + 1);
                } else {
                    assert(distance[queue[a] - 1] <= distance[queue[head] - 1]);
                }
            }
        } else {
            assert(q1[a] == queue[a] && d1[queue[a] - 1] == distance[queue[a] - 1]);
            assert(q1[b] == queue[b] && d1[queue[b] - 1] == distance[queue[b] - 1]);
        }
    }
    assert forall|j: int| 0 <= j < q1.len() implies is_distance(g, start, #[trigger] q1[j], d1[q1[j] - 1] as nat) by {
        if j < queue.len() {
            assert(q1[j] == queue[j] && d1[queue[j] - 1] == distance[queue[j] - 1]);
        }
    }
    assert forall|j: int| head <= j < queue.len() + 1 implies d1[#[trigger] q1[j] - 1] <= ds + 1 by {
        if j < queue.len() {
            assert(q1[j] == queue[j]);
        }
    }
}

impl Graph {
    /// The shortest distances from `start` of the nodes `1..=n`, with the
    /// node each was discovered from and whether it was reached, visiting the
    /// nodes in breadth first order.
    #[verifier::rlimit(50)]
    #[verifier::spinoff_prover]
    pub fn bfs(&self, start: usize) -> (res: (Vec<usize>, Vec<usize>, Vec<bool>))
        requires
            searchable(*self, start, self.nodes@.len() as nat),
        ensures
            res.0@.len() == self.nodes@.len(),
            res.2@.len() == self.nodes@.len(),
            forall|i: int| 0 <= i < self.nodes@.len() ==> #[trigger] res.2@[i] == reachable(*self, start, (i + 1) as usize),
            bfs_distances(*self, start, res.0@),
            bfs_parents(*self, start, self.nodes@.len() as nat, res.0@, res.1@),
    {
        let n = self.nodes.len();
        let ghost g = *self;
        let mut visited: Vec<bool> = Vec::new();
        let mut distance: Vec<usize> = Vec::new();
        let mut parent: Vec<usize> = Vec::new();
        let mut i: usize = 0;
        while i < n
            invariant
                i <= n,
                visited@.len() == i,
                distance@.len() == i,
                parent@.len() == i,
                forall|q: int| 0 <= q < i ==> !visited@[q] && distance@[q] == 0,
            decreases n - i,
        {
            visited.push(false);
            distance.push(0);
            parent.push(0);
            i = i + 1;
        }
        let mut queue: Vec<usize> = Vec::new();
        queue.push(start);
        visited[start - 1] = true;
        let mut head: usize = 0;
        proof {
            lemma_reach_start(g, start);
            reveal(queue_ok);
            assert(queue@[0] == start);
            assert forall|v: int| 1 <= v <= n && #[trigger] visited@[v - 1] implies queue@.contains(v as usize) by {
                assert(v == start);
            }
            assert(queue_ok(g, start, n as nat, queue@, distance@, visited@));
            assert forall|v: int| 1 <= v <= n && v != start && #[trigger] visited@[v - 1] implies false by {}
        }
        while head < queue.len()
            invariant
                g == *self,
                n == self.nodes@.len(),
                searchable(g, start, n as nat),
                head <= queue@.len(),
                queue_ok(g, start, n as nat, queue@, distance@, visited@),
                parents_ok(g, start, n as nat, distance@, visited@, parent@),
                head < queue@.len() ==> forall|j: int| head <= j < queue@.len() ==>
                    distance@[#[trigger] queue@[j] - 1] <= distance@[queue@[head as int] - 1] + 1,
                processed(g, queue@, head as int, visited@),
            decreases n - head,
        {
            proof {
                lemma_queue_facts(g, start, n as nat, queue@, distance@, visited@);
            }
            let src = queue[head];
            let ds = distance[src - 1];
            proof {
                assert(reachable(g, start, src)) by {
                    assert(reach(g, start, ds as nat, src));
                }
                self.lemma_search_front(start, queue@, head as int, distance@, visited@);
            }
            let no_edges: Vec<NodeType> = Vec::new();
            let edges = match self.edges.get(&src) {
                Some(e) => e,
                None => &no_edges,
            };
            assert(edges@ == g.adj(src));
            let mut k: usize = 0;
            while k < edges.len()
                invariant
                    g == *self,
                    n == self.nodes@.len(),
                    searchable(g, start, n as nat),
                    edges@ == g.adj(src),
                    reachable(g, start, src),
                    head < queue@.len(),
                    src == queue@[head as int],
                    ds == distance@[src - 1],
                    ds <= head,
                    k <= edges@.len(),
                    queue_ok(g, start, n as nat, queue@, distance@, visited@),
                    parents_ok(g, start, n as nat, distance@, visited@, parent@),
                    forall|j: int| head <= j < queue@.len() ==> distance@[#[trigger] queue@[j] - 1] <= ds + 1,
                    processed(g, queue@, head as int, visited@),
                    forall|m: int| 0 <= m < k ==> visited@[(#[trigger] edges@[m]).spec_node() - 1],
                    forall|w: usize| #[trigger] reach(g, start, ds as nat, w) ==> 1 <= w <= n && visited@[w - 1],
                decreases edges@.len() - k,
            {
                proof {
                    lemma_queue_facts(g, start, n as nat, queue@, distance@, visited@);
                }
                let d = edges[k].node();
                proof {
                    assert(1 <= g.adj(src)[k as int].spec_node() <= n);
                }
                if !visited[d - 1] {
                    proof {
                        assert(g.has_edge(src, d)) by {
                            assert(g.adj(src)[k as int].spec_node() == d);
                        }
                        assert(reach(g, start, (ds + 1) as nat, d)) by {
                            assert(reach(g, start, ds as nat, src));
                            lemma_reach_step(g, start, ds as nat, src, d);
                        }
                        assert(!reach(g, start, ds as nat, d));
                        lemma_queue_push(g, start, n as nat, queue@, distance@, visited@, head as int, d);
                    }
                    let ghost v0 = visited@;
                    let ghost d0 = distance@;
                    let ghost p0 = parent@;
                    visited[d - 1] = true;
                    distance[d - 1] = ds + 1;
                    parent[d - 1] = src;
                    queue.push(d);
                    proof {
                        assert(v0[src - 1]);
                        assert forall|v: int| 1 <= v <= n && v != start && #[trigger] visited@[v - 1] implies {
                            let u = parent@[v - 1];
                            &&& 1 <= u <= n
                            &&& visited@[u - 1]
                            &&& g.has_edge(u, v as usize)
                            &&& distance@[v - 1] == distance@[u - 1] + 1
                        } by {
                            if v != d {
                                assert(v0[v - 1]);
                                let u = p0[v - 1];
                                assert(v0[u - 1]);
                                assert(u != d);
                            } else {
                                assert(src != d);
                            }
                        }
                    }
                }
                k = k + 1;
            }
            proof {
                assert forall|j: int, m: int| 0 <= j < head + 1 && 0 <= m < g.adj(queue@[j]).len() implies
                    visited@[(#[trigger] g.adj(#[trigger] queue@[j])[m]).spec_node() - 1] by {
                    if j == head {
                        assert(edges@[m] == g.adj(queue@[j])[m]);
                    }
                }
                lemma_queue_facts(g, start, n as nat, queue@, distance@, visited@);
            }
            head = head + 1;
        }
        proof {
            lemma_queue_facts(g, start, n as nat, queue@, distance@, visited@);
            let vis = |v: usize| 1 <= v <= n && visited@[v - 1];
            assert forall|u: usize, w: usize| vis(u) && #[trigger] g.has_edge(u, w) implies vis(w) by {
                assert(visited@[(u as int) - 1]);
                assert(queue@.contains(u));
                let j = choose|j: int| 0 <= j < queue@.len() && queue@[j] == u;
                let m = choose|m: int| 0 <= m < g.adj(u).len() && (#[trigger] g.adj(u)[m]).spec_node() == w;
                assert(reachable(g, start, u)) by {
                    assert(is_distance(g, start, queue@[j], distance@[queue@[j] - 1] as nat));
                }
                assert(visited@[g.adj(queue@[j])[m].spec_node() - 1]);
            }
            assert forall|i: int| 0 <= i < n implies {
                &&& reachable(g, start, (i + 1) as usize) ==> is_distance(g, start, (i + 1) as usize, #[trigger] distance@[i] as nat)
                &&& !reachable(g, start, (i + 1) as usize) ==> distance@[i] == 0
            } by {
                let v = (i + 1) as usize;
                if reachable(g, start, v) {
                    let k = choose|k: nat| #[trigger] reach(g, start, k, v);
                    lemma_closed(g, start, vis, k, v);
                    assert(visited@[(i + 1) - 1]);
                    assert(queue@.contains(v));
                    let j = choose|j: int| 0 <= j < queue@.len() && queue@[j] == v;
                    assert(is_distance(g, start, queue@[j], distance@[queue@[j] - 1] as nat));
                } else {
                    if visited@[i] {
                        assert(visited@[(i + 1) - 1]);
                        assert(queue@.contains(v));
                        let j = choose|j: int| 0 <= j < queue@.len() && queue@[j] == v;
                        assert(is_distance(g, start, queue@[j], distance@[queue@[j] - 1] as nat));
                        assert(reach(g, start, distance@[i] as nat, v));
                    } else {
                        assert(!visited@[(i + 1) - 1]);
                    }
                }
            }
            assert forall|v: int| 1 <= v <= n && v != start && #[trigger] reachable(g, start, v as usize) implies {
                let u = parent@[v - 1];
                &&& 1 <= u <= n
                &&& reachable(g, start, u)
                &&& g.has_edge(u, v as usize)
                &&& distance@[v - 1] == distance@[u - 1] + 1
            } by {
                let k = choose|k: nat| #[trigger] reach(g, start, k, v as usize);
                lemma_closed(g, start, vis, k, v as usize);
                assert(visited@[v - 1]);
                let u = parent@[v - 1];
                assert(visited@[u - 1]);
                assert(queue@.contains(u));
                let j = choose|j: int| 0 <= j < queue@.len() && queue@[j] == u;
                assert(is_distance(g, start, queue@[j], distance@[queue@[j] - 1] as nat));
            }
        }
        proof {
            assert forall|i: int| 0 <= i < n implies #[trigger] visited@[i] == reachable(g, start, (i + 1) as usize) by {
                let v = (i + 1) as usize;
                if reachable(g, start, v) {
                    let k = choose|k: nat| #[trigger] reach(g, start, k, v);
                    lemma_closed(g, start, |v: usize| 1 <= v <= n && visited@[v - 1], k, v);
                    assert(visited@[(i + 1) - 1]);
                }
                if visited@[i] {
                    assert(visited@[(i + 1) - 1]);
                    assert(queue@.contains(v));
                    let j = choose|j: int| 0 <= j < queue@.len() && queue@[j] == v;
                    assert(is_distance(g, start, queue@[j], distance@[queue@[j] - 1] as nat));
                }
            }
        }
        (distance, parent, visited)
    }

    /// Every node within the distance of the front of the queue is visited:
    /// those at smaller distances come earlier in the queue and are
    /// processed, so their neighbours are visited.
    proof fn lemma_search_front(&self, start: usize, queue: Seq<usize>, head: int, distance: Seq<usize>, visited: Seq<bool>)
        requires
            0 <= head < queue.len(),
            queue_ok(*self, start, distance.len(), queue, distance, visited),
            processed(*self, queue, head, visited),
            forall|u: usize, k: int| reachable(*self, start, u) && 0 <= k < self.adj(u).len()
                ==> 1 <= (#[trigger] self.adj(u)[k]).spec_node() <= distance.len(),
        ensures
            forall|w: usize| #[trigger] reach(*self, start, distance[queue[head] - 1] as nat, w)
                ==> 1 <= w <= distance.len() && visited[w - 1],
    {
        lemma_queue_facts(*self, start, distance.len(), queue, distance, visited);
        let dh = distance[queue[head] - 1] as nat;
        assert forall|w: usize| #[trigger] reach(*self, start, dh, w) implies 1 <= w <= distance.len() && visited[w - 1] by {
            self.lemma_search_front_k(start, queue, head, distance, visited, dh, w);
        }
    }

    proof fn lemma_search_front_k(&self, start: usize, queue: Seq<usize>, head: int, distance: Seq<usize>,
        visited: Seq<bool>, k: nat, w: usize)
        requires
            0 <= head < queue.len(),
            queue_ok(*self, start, distance.len(), queue, distance, visited),
            processed(*self, queue, head, visited),
            forall|u: usize, m: int| reachable(*self, start, u) && 0 <= m < self.adj(u).len()
                ==> 1 <= (#[trigger] self.adj(u)[m]).spec_node() <= distance.len(),
            k <= distance[queue[head] - 1],
            reach(*self, start, k, w),
        ensures
            1 <= w <= distance.len() && visited[w - 1],
        decreases k,
    {
        let g = *self;
        lemma_queue_facts(g, start, distance.len(), queue, distance, visited);
        if w == start {
            assert(visited[queue[0] - 1]);
        } else {
            lemma_reach_unfold(g, start, k, w);
            let u = choose|u: usize| #[trigger] reach(g, start, (k - 1) as nat, u) && g.has_edge(u, w);
            self.lemma_search_front_k(start, queue, head, distance, visited, (k - 1) as nat, u);
            assert(visited[(u as int) - 1]);
            assert(queue.contains(u));
            let j = choose|j: int| 0 <= j < queue.len() && queue[j] == u;
            let du = distance[u - 1] as nat;
            assert(is_distance(g, start, queue[j], du));
            // u is at distance at most k - 1, hence before the front of the queue
            if du > k - 1 {
                lemma_reach_monotonic(g, start, (k - 1) as nat, (du - 1) as nat, u);
            }
            if j >= head {
                assert(distance[queue[head] - 1] <= distance[queue[j] - 1]);
            }
            let m = choose|m: int| 0 <= m < g.adj(u).len() && (#[trigger] g.adj(u)[m]).spec_node() == w;
            assert(reachable(g, start, u)) by {
                assert(reach(g, start, (k - 1) as nat, u));
            }
            assert(g.adj(queue[j])[m].spec_node() == w);
        }
    }

    /// The number of edges on a shortest path from `start` to each node,
    /// grouped by distance; unreachable nodes count as distance 0.
    pub fn calc_distances(&self, start: usize) -> (res: HashMap<usize, HashSet<usize>>)
        requires
            self.nodes@.len() < usize::MAX,
            searchable(*self, start, self.nodes@.len() as nat),
        ensures
            exists|dist: Seq<usize>| #![auto] dist.len() == self.nodes@.len() && bfs_distances(*self, start, dist)
                && grouped(dist, res@.map_values(|s: HashSet<usize>| s@)),
    {
        let (dist, _, _) = self.bfs(start);
        let res = Graph::dist_to_adjacentlist(dist);
        res
    }

    /// Groups nodes by distance, node `i + 1` having distance `distances[i]`.
    pub fn dist_to_adjacentlist(distances: Vec<usize>) -> (res: HashMap<usize, HashSet<usize>>)
        requires
            distances@.len() < usize::MAX,
        ensures
            grouped(distances@, res@.map_values(|s: HashSet<usize>| s@)),
    {
        let mut out: HashMap<usize, HashSet<usize>> = HashMap::new();
        let mut i: usize = 0;
        while i < distances.len()
            invariant
                i <= distances@.len(),
                distances@.len() < usize::MAX,
                grouped(distances@.take(i as int), out@.map_values(|s: HashSet<usize>| s@)),
            decreases distances@.len() - i,
        {
            let d = distances[i];
            let ghost m0 = out@.map_values(|s: HashSet<usize>| s@);
            let mut set = match out.remove(&d) {
                Some(s) => s,
                None => HashSet::new(),
            };
            set.insert(i + 1);
            out.insert(d, set);
            proof {
                let pre = distances@.take(i as int);
                let cur = distances@.take(i + 1);
                let m1 = out@.map_values(|s: HashSet<usize>| s@);
                assert(m1.dom() =~= m0.dom().insert(d));
                assert forall|dd: usize, v: usize| m1.contains_key(dd) && #[trigger] m1[dd].contains(v) implies
                    (1 <= v <= cur.len() && cur[v - 1] == dd) by {
                    if v == i + 1 {
                        assert(cur[v - 1] == d);
                    } else {
                        assert(m0.contains_key(dd) && m0[dd].contains(v));
                        assert(cur[v - 1] == pre[v - 1]);
                    }
                }
                assert forall|q: int| 0 <= q < cur.len() implies
                    m1.contains_key(#[trigger] cur[q]) && m1[cur[q]].contains((q + 1) as usize) by {
                    if q < i {
                        assert(cur[q] == pre[q]);
                        assert(m0.contains_key(pre[q]) && m0[pre[q]].contains((q + 1) as usize));
                    }
                }
                assert forall|dd: usize| #[trigger] m1.contains_key(dd) implies
                    exists|q: int| 0 <= q < cur.len() && #[trigger] cur[q] == dd by {
                    if dd == d {
                        assert(cur[i as int] == d);
                    } else {
                        let q = choose|q: int| 0 <= q < pre.len() && #[trigger] pre[q] == dd;
                        assert(cur[q] == dd);
                    }
                }
            }
            i = i + 1;
        }
        assert(distances@.take(distances@.len() as int) =~= distances@);
        out
    }
}

/// `groups` maps each distance to the set of nodes at that distance, node
/// `i + 1` having distance `dist[i]`, and holds no other key.
pub open spec fn grouped(dist: Seq<usize>, groups: Map<usize, Set<usize>>) -> bool {
    &&& forall|d: usize, v: usize| groups.contains_key(d) && #[trigger] groups[d].contains(v) ==>
        1 <= v <= dist.len() && dist[v - 1] == d
    &&& forall|i: int| 0 <= i < dist.len() ==>
        groups.contains_key(#[trigger] dist[i]) && groups[dist[i]].contains((i + 1) as usize)
    &&& forall|d: usize| #[trigger] groups.contains_key(d) ==>
        exists|i: int| 0 <= i < dist.len() && #[trigger] dist[i] == d
}

} // verus!
