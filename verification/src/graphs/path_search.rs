//! Path searches from a start node to a goal node: the fewest edges, and
//! the least total cost.
use vstd::prelude::*;
use super::{Graph, NodeType};
use super::bfs::{reach, reachable, is_distance, is_walk, searchable, bfs_distances, bfs_parents,
    lemma_reach_start, lemma_reach_monotonic, lemma_reach_step};
use crate::dp::path::total;

verus! {

/// What a search for the path with the fewest edges returns: nothing when
/// the goal cannot be reached, else a walk from the start to the goal with
/// as few edges as possible, and that number of edges.
pub open spec fn fewest_edges_result(g: Graph, start: usize, goal: usize, r: Option<(Seq<usize>, usize)>) -> bool {
    match r {
        None => !reachable(g, start, goal),
        Some((p, c)) => {
            &&& is_walk(g, p)
            &&& p[0] == start
            &&& p.last() == goal
            &&& p.len() == c + 1
            &&& is_distance(g, start, goal, c as nat)
        },
    }
}

/// `p` follows edges of the graph that carry the costs `cs`.
pub open spec fn is_cost_walk(g: Graph, p: Seq<usize>, cs: Seq<usize>) -> bool {
    &&& p.len() > 0
    &&& cs.len() == p.len() - 1
    &&& forall|i: int| 0 <= i < cs.len() ==> g.adj(#[trigger] p[i]).contains(NodeType::NC(p[i + 1], cs[i]))
}

/// Nodes `1..=n` only, every edge out of a node reachable from `start`
/// carries a cost, and no walk from `start` along at most `n` edges costs
/// `usize::MAX` or more.
pub open spec fn cost_searchable(g: Graph, start: usize, n: nat) -> bool {
    &&& 1 <= start <= n
    &&& forall|u: usize, k: int| reachable(g, start, u) && 0 <= k < g.adj(u).len() ==> {
        &&& (#[trigger] g.adj(u)[k]) is NC
        &&& 1 <= g.adj(u)[k].spec_node() <= n
    }
    &&& forall|p: Seq<usize>, cs: Seq<usize>| #[trigger] is_cost_walk(g, p, cs) && p[0] == start && cs.len() <= n
        ==> total(cs) < usize::MAX
}

/// No walk along costed edges from `start` to `v` costs less than `c`.
pub open spec fn least_cost_to(g: Graph, start: usize, v: usize, c: int) -> bool {
    forall|q: Seq<usize>, cs: Seq<usize>| #[trigger] is_cost_walk(g, q, cs) && q[0] == start && q.last() == v ==> c <= total(cs)
}

/// What a search for the least cost path returns: nothing when the goal
/// cannot be reached, else a walk along costed edges from the start to the
/// goal, and its total cost, which no such walk undercuts; the start alone,
/// at no cost, when it is the goal.
pub open spec fn cost_result(g: Graph, start: usize, goal: usize, r: Option<(Seq<usize>, usize)>) -> bool {
    match r {
        None => !reachable(g, start, goal),
        Some((p, c)) => {
            &&& p[0] == start
            &&& p.last() == goal
            &&& exists|cs: Seq<usize>| #[trigger] is_cost_walk(g, p, cs) && total(cs) == c
            &&& least_cost_to(g, start, goal, c as int)
            &&& start == goal ==> p == seq![start] && c == 0
        },
    }
}

/// Path searches over a graph.
pub trait PathSearch: Sized {
    /// The searches can run from `start`.
    spec fn can_search(&self, start: usize) -> bool;

    /// `r` is what a search for the fewest edges from `start` to `goal` returns.
    spec fn fewest_edges(&self, start: usize, goal: usize, r: Option<(Seq<usize>, usize)>) -> bool;

    /// The path with the fewest edges from `start` to `goal`, with its
    /// number of edges.
    fn path_distance(&self, start: usize, goal: usize) -> (r: Option<(Vec<usize>, usize)>)
        requires
            self.can_search(start),
        ensures
            self.fewest_edges(start, goal, match r {
                Some((p, c)) => Some((p@, c)),
                None => None,
            }),
    ;

    /// The searches for the least cost can run from `start`.
    spec fn can_search_costs(&self, start: usize) -> bool;

    /// `r` is what a search for the least cost from `start` to `goal` returns.
    spec fn least_cost(&self, start: usize, goal: usize, r: Option<(Seq<usize>, usize)>) -> bool;

    /// A path of least total cost from `start` to `goal`, with its cost.
    fn path_shortest(&self, start: usize, goal: usize) -> (r: Option<(Vec<usize>, usize)>)
        requires
            self.can_search_costs(start),
        ensures
            self.least_cost(start, goal, match r {
                Some((p, c)) => Some((p@, c)),
                None => None,
            }),
    ;
}

/// The start is at distance 0.
proof fn lemma_start_distance(g: Graph, start: usize, d: nat)
    requires
        is_distance(g, start, start, d),
    ensures
        d == 0,
{
    if d > 0 {
        lemma_reach_start(g, start);
        lemma_reach_monotonic(g, start, 0, (d - 1) as nat, start);
    }
}

impl PathSearch for Graph {
    open spec fn can_search(&self, start: usize) -> bool {
        searchable(*self, start, self.nodes@.len() as nat)
    }

    open spec fn fewest_edges(&self, start: usize, goal: usize, r: Option<(Seq<usize>, usize)>) -> bool {
        fewest_edges_result(*self, start, goal, r)
    }

    open spec fn can_search_costs(&self, start: usize) -> bool {
        cost_searchable(*self, start, self.nodes@.len() as nat)
    }

    open spec fn least_cost(&self, start: usize, goal: usize, r: Option<(Seq<usize>, usize)>) -> bool {
        cost_result(*self, start, goal, r)
    }

    fn path_shortest(&self, start: usize, goal: usize) -> (r: Option<(Vec<usize>, usize)>) {
        super::cost_search::least_cost_path(self, start, goal)
    }

    fn path_distance(&self, start: usize, goal: usize) -> (r: Option<(Vec<usize>, usize)>) {
        let n = self.nodes.len();
        let ghost g = *self;
        if goal < 1 || goal > n {
            proof {
                if reachable(g, start, goal) {
                    lemma_in_range(g, start, n as nat, goal);
                }
            }
            return None;
        }
        let (dist, parent, visited) = self.bfs(start);
        if !visited[goal - 1] {
            return None;
        }
        proof {
            assert(visited@[(goal as int + 1) - 2]);
            assert(reachable(g, start, ((goal - 1) + 1) as usize));
        }
        let mut rev: Vec<usize> = Vec::new();
        rev.push(goal);
        let mut cur = goal;
        while cur != start
            invariant
                g == *self,
                n == self.nodes@.len(),
                searchable(g, start, n as nat),
                dist@.len() == n,
                bfs_distances(g, start, dist@),
                bfs_parents(g, start, n as nat, dist@, parent@),
                1 <= cur <= n,
                1 <= goal <= n,
                reachable(g, start, cur),
                reachable(g, start, goal),
                rev@.len() > 0,
                rev@[0] == goal,
                rev@.last() == cur,
                forall|i: int| 0 <= i < rev@.len() - 1 ==> g.has_edge(#[trigger] rev@[i + 1], rev@[i]),
                dist@[cur - 1] + rev@.len() - 1 == dist@[goal - 1],
            decreases dist@[cur - 1],
        {
            assert(reachable(g, start, ((cur - 1) + 1) as usize));
            let u = parent[cur - 1];
            proof {
                assert(reachable(g, start, ((cur as int - 1) + 1) as usize));
            }
            let ghost r0 = rev@;
            rev.push(u);
            proof {
                assert forall|i: int| 0 <= i < rev@.len() - 1 implies g.has_edge(#[trigger] rev@[i + 1], rev@[i]) by {
                    if i < r0.len() - 1 {
                        assert(rev@[i + 1] == r0[i + 1] && rev@[i] == r0[i]);
                    } else {
                        assert(rev@[i] == cur);
                    }
                }
            }
            cur = u;
        }
        proof {
            assert(is_distance(g, start, ((start - 1) + 1) as usize, dist@[start - 1] as nat));
            lemma_start_distance(g, start, dist@[start - 1] as nat);
        }
        let m = rev.len();
        let mut path: Vec<usize> = Vec::new();
        let mut k: usize = 0;
        while k < m
            invariant
                m == rev@.len(),
                k <= m,
                path@.len() == k,
                forall|i: int| 0 <= i < k ==> #[trigger] path@[i] == rev@[m - 1 - i],
            decreases m - k,
        {
            path.push(rev[m - 1 - k]);
            k = k + 1;
        }
        let cost = dist[goal - 1];
        proof {
            assert forall|i: int| 0 <= i < path@.len() - 1 implies g.has_edge(#[trigger] path@[i], path@[i + 1]) by {
                assert(path@[i] == rev@[m - 1 - i]);
                assert(path@[i + 1] == rev@[m - 1 - (i + 1)]);
                assert(rev@[(m - 1 - (i + 1)) + 1] == rev@[m - 1 - i]);
            }
            assert(is_distance(g, start, ((goal - 1) + 1) as usize, dist@[goal - 1] as nat));
        }
        Some((path, cost))
    }
}

/// Nodes reached from a start within range stay within range.
proof fn lemma_in_range(g: Graph, start: usize, n: nat, v: usize)
    requires
        searchable(g, start, n),
        reachable(g, start, v),
    ensures
        1 <= v <= n,
{
    let k = choose|k: nat| #[trigger] reach(g, start, k, v);
    let p = choose|p: Seq<usize>| #[trigger] is_walk(g, p) && p[0] == start && p.last() == v && p.len() <= k + 1;
    if p.len() > 1 {
        let u = p[p.len() - 2];
        let q = p.drop_last();
        assert forall|i: int| 0 <= i < q.len() - 1 implies g.has_edge(#[trigger] q[i], q[i + 1]) by {
            assert(q[i] == p[i] && q[i + 1] == p[i + 1]);
        }
        assert(is_walk(g, q));
        assert(reach(g, start, q.len() as nat, u));
        assert(g.has_edge(u, v)) by {
            assert(g.has_edge(p[p.len() - 2], p[p.len() - 1]));
        }
        let m = choose|m: int| 0 <= m < g.adj(u).len() && (#[trigger] g.adj(u)[m]).spec_node() == v;
    }
}

} // verus!
