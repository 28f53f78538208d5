//! Random contraction: merging the two ends of random edges until two
//! groups of nodes are left, and cutting the graph along the edges that run
//! between them.
use vstd::prelude::*;
use vstd::multiset::Multiset;
use std::collections::HashMap;
use hashbag::HashBag;
use super::{Graph, NodeType, Edge, distinct};
use super::scc::labelled;
use crate::random::random_index;
use super::bfs::{reach, reachable, lemma_closed, is_walk};
use crate::greedy::mst::{connected, entries};

verus! {

broadcast use vstd::std_specs::hash::group_hash_axioms;

/// A bag of items: each item with how many times it is held.
#[verifier::external_type_specification]
#[verifier::external_body]
#[verifier::reject_recursive_types(T)]
#[verifier::reject_recursive_types(S)]
pub struct ExHashBag<T, S>(HashBag<T, S>);

/// The nodes a bag holds, each as many times as it holds it.
pub uninterp spec fn bag_items(b: HashBag<usize>) -> Multiset<usize>;

/// `HashBag::new`: an empty bag.
#[verifier::external_body]
fn bag_new() -> (b: HashBag<usize>)
    ensures
        forall|x: usize| #[trigger] bag_items(b).count(x) == 0,
        bag_items(b).len() == 0,
{
    HashBag::new()
}

/// `HashBag::insert`: holds `v` once more, and returns how many times it
/// held `v` before. The bag counts its items in a `usize` that the call
/// adds one to.
#[verifier::external_body]
fn bag_insert(b: &mut HashBag<usize>, v: usize) -> (r: usize)
    requires
        bag_items(*old(b)).len() < usize::MAX,
    ensures
        forall|x: usize| #[trigger] bag_items(*final(b)).count(x) == bag_items(*old(b)).count(x) + if x == v { 1nat } else { 0nat },
        bag_items(*final(b)).len() == bag_items(*old(b)).len() + 1,
        r == bag_items(*old(b)).count(v),
{
    b.insert(v)
}

/// `HashBag::remove`: holds `v` once less, where it held it at all, and
/// returns how many times it held `v` before.
#[verifier::external_body]
fn bag_remove(b: &mut HashBag<usize>, v: usize) -> (r: usize)
    ensures
        forall|x: usize| #[trigger] bag_items(*final(b)).count(x) ==
            if x == v && bag_items(*old(b)).count(v) > 0 { (bag_items(*old(b)).count(x) - 1) as nat } else { bag_items(*old(b)).count(x) },
        bag_items(*final(b)).len() ==
            if bag_items(*old(b)).count(v) > 0 { (bag_items(*old(b)).len() - 1) as nat } else { bag_items(*old(b)).len() },
        r == bag_items(*old(b)).count(v),
{
    b.remove(&v)
}

/// `HashBag::contains`: how many times the bag holds `v`.
#[verifier::external_body]
fn bag_contains(b: &HashBag<usize>, v: usize) -> (r: usize)
    ensures
        r == bag_items(*b).count(v),
{
    b.contains(&v)
}

/// `HashBag::len`: how many items the bag holds, each as many times as it
/// holds it.
#[verifier::external_body]
fn bag_len(b: &HashBag<usize>) -> (r: usize)
    ensures
        r == bag_items(*b).len(),
{
    b.len()
}

/// `HashBag::iter().nth(i)`: the item at position `i` of the bag's own
/// order, which lists each item as many times as the bag holds it; that
/// order follows the hashes of a hasher seeded per process, so the
/// contract names no position, only that the item is in the bag.
#[verifier::external_body]
fn bag_nth(b: &HashBag<usize>, i: usize) -> (r: Option<usize>)
    ensures
        i < bag_items(*b).len() ==> r is Some && bag_items(*b).count(r->0) > 0,
{
    b.iter().nth(i).copied()
}

/// `HashBag::extend` with `HashBag::into_iter` of `other`: holds every item
/// of `other` as many times more as `other` holds it. The bag adds the
/// other's count to its own `usize` count.
#[verifier::external_body]
fn bag_extend(b: &mut HashBag<usize>, other: HashBag<usize>)
    requires
        bag_items(*old(b)).len() + bag_items(other).len() <= usize::MAX,
    ensures
        forall|x: usize| #[trigger] bag_items(*final(b)).count(x) == bag_items(*old(b)).count(x) + bag_items(other).count(x),
        bag_items(*final(b)).len() == bag_items(*old(b)).len() + bag_items(other).len(),
{
    b.extend(other.into_iter())
}

/// The edges between groups of nodes: for each group, named by one of its
/// nodes, the groups its edges lead to, each as often as an edge does.
pub struct SuperEdges {
    pub list: HashMap<usize, HashBag<usize>>,
    pub nodes: Vec<usize>,
}

/// How often `m` would hold `x` once every `from` in it is turned into
/// `to`.
pub open spec fn redirected(m: Multiset<usize>, from: usize, to: usize, x: usize) -> nat {
    if x == from {
        0
    } else if x == to {
        m.count(to) + m.count(from)
    } else {
        m.count(x)
    }
}

/// How many times `x` occurs in `s`.
pub open spec fn occurrences(s: Seq<usize>, x: usize) -> nat
    decreases s.len(),
{
    if s.len() == 0 { 0 } else { occurrences(s.drop_last(), x) + if s.last() == x { 1nat } else { 0nat } }
}

/// The far ends of the edges out of `u`, in order.
pub open spec fn targets(g: Graph, u: usize) -> Seq<usize> {
    g.adj(u).map_values(|nt: NodeType| nt.spec_node())
}

/// Each node of `1..=n` is in the group named by its label; the group
/// names are distinct nodes of `1..=n`, each labelled with its own name.
pub open spec fn groups_ok(n: nat, label: Seq<usize>, leaders: Seq<usize>) -> bool {
    &&& label.len() == n
    &&& distinct(leaders)
    &&& forall|i: int| 0 <= i < leaders.len() ==> 1 <= #[trigger] leaders[i] <= n && label[leaders[i] - 1] == leaders[i]
    &&& forall|v: int| 1 <= v <= n ==> leaders.contains(#[trigger] label[v - 1])
}

/// The groups with edges are groups, and their edges lead to other groups.
pub open spec fn bags_ok(se: SuperEdges, leaders: Seq<usize>) -> bool {
    &&& se.wf()
    &&& forall|u: usize| #[trigger] se.list@.contains_key(u) ==> leaders.contains(u)
    &&& forall|u: usize, x: usize| #[trigger] se.list@.contains_key(u) && #[trigger] se.bag(u).count(x) > 0 ==>
        leaders.contains(x) && x != u
}

/// Neither sequence holds an item of the other.
pub open spec fn disjoint(s: Seq<usize>, t: Seq<usize>) -> bool {
    forall|x: usize| !(#[trigger] s.contains(x) && t.contains(x))
}

/// `s` and `t` split `nodes` in two: each of them holds at least one node,
/// and every node is held once, by one of them.
pub open spec fn splits(nodes: Seq<usize>, s: Seq<usize>, t: Seq<usize>) -> bool {
    &&& s.len() > 0
    &&& t.len() > 0
    &&& distinct(s)
    &&& distinct(t)
    &&& disjoint(s, t)
    &&& forall|x: usize| #[trigger] nodes.contains(x) <==> (s.contains(x) || t.contains(x))
}

/// An edge of `g` joins `u` and `v` from `s` to `t`, one way or the other.
pub open spec fn between(g: Graph, s: Seq<usize>, t: Seq<usize>, u: usize, v: usize) -> bool {
    ||| s.contains(u) && t.contains(v) && g.has_edge(u, v)
    ||| t.contains(u) && s.contains(v) && g.has_edge(v, u)
}

/// `cut` holds the edges of `g` between `s` and `t`, each both ways and
/// without its cost, and the nodes they join.
pub open spec fn crossing(g: Graph, s: Seq<usize>, t: Seq<usize>, cut: Graph) -> bool {
    &&& cut.wf()
    &&& forall|u: usize, nt: NodeType| #[trigger] cut.adj(u).contains(nt) <==> (nt is N && between(g, s, t, u, nt.spec_node()))
    &&& forall|x: usize| #[trigger] cut.nodes@.contains(x) <==> exists|v: usize| #[trigger] between(g, s, t, x, v)
    &&& forall|x: usize| #[trigger] cut.edges@.contains_key(x) <==> cut.nodes@.contains(x)
}

impl SuperEdges {
    /// The groups the edges out of group `u` lead to.
    pub open spec fn bag(&self, u: usize) -> Multiset<usize> {
        bag_items(self.list@[u])
    }

    /// `nodes` lists the groups with edges, each once.
    pub open spec fn wf(&self) -> bool {
        &&& distinct(self.nodes@)
        &&& forall|u: usize| #[trigger] self.list@.contains_key(u) <==> self.nodes@.contains(u)
    }

    /// An edge out of a random group, to a random group among those its
    /// edges lead to; `None` where the group picked has no edges.
    pub fn get_random_edge(&self) -> (r: Option<(usize, usize)>)
        requires
            self.wf(),
            self.nodes@.len() > 0,
        ensures
            r matches Some((u, v)) ==> self.nodes@.contains(u) && self.bag(u).count(v) > 0,
            r is None ==> exists|u: usize| #[trigger] self.nodes@.contains(u) && self.bag(u).len() == 0,
    {
        let i = random_index(0, self.nodes.len());
        let u = self.nodes[i];
        assert(self.nodes@.contains(u));
        match self.list.get(&u) {
            Some(b) => {
                let len = bag_len(b);
                if len == 0 {
                    assert(self.bag(u).len() == 0);
                    return None;
                }
                let j = random_index(0, len);
                match bag_nth(b, j) {
                    Some(v) => Some((u, v)),
                    None => None,
                }
            },
            None => None,
        }
    }

    /// Drops every edge from group `src` to group `dst`.
    pub fn remove_edge(&mut self, src: usize, dst: usize)
        requires
            old(self).wf(),
            old(self).list@.contains_key(src),
        ensures
            final(self).wf(),
            final(self).nodes@ == old(self).nodes@,
            final(self).list@.dom() == old(self).list@.dom(),
            forall|u: usize| u != src ==> #[trigger] final(self).list@[u] == old(self).list@[u],
            forall|x: usize| #[trigger] final(self).bag(src).count(x) == if x == dst { 0 } else { old(self).bag(src).count(x) },
            final(self).bag(src).len() <= old(self).bag(src).len(),
    {
        let ghost m0 = self.bag(src);
        let mut b = match self.list.remove(&src) {
            Some(b) => b,
            None => bag_new(),
        };
        assert(bag_items(b) == m0);
        while bag_remove(&mut b, dst) != 0
            invariant
                forall|x: usize| x != dst ==> #[trigger] bag_items(b).count(x) == m0.count(x),
                bag_items(b).len() <= m0.len(),
            decreases bag_items(b).count(dst),
        {
        }
        assert(bag_items(b).count(dst) == 0);
        self.list.insert(src, b);
        proof {
            assert(self.list@.dom() =~= old(self).list@.dom());
        }
    }

    /// Merges group `from` into group `to`: the edges out of `from` become
    /// edges out of `to`, and every edge into `from` leads into `to`.
    pub fn move_edges(&mut self, from: usize, to: usize)
        requires
            old(self).wf(),
            from != to,
            old(self).list@.contains_key(from),
            old(self).list@.contains_key(to),
            old(self).bag(to).len() + old(self).bag(from).len() <= usize::MAX,
        ensures
            final(self).wf(),
            forall|u: usize| #[trigger] final(self).list@.contains_key(u) <==> (old(self).list@.contains_key(u) && u != from),
            forall|u: usize, x: usize| u != to && #[trigger] final(self).list@.contains_key(u) ==>
                #[trigger] final(self).bag(u).count(x) == redirected(old(self).bag(u), from, to, x),
            forall|x: usize| #[trigger] final(self).bag(to).count(x) ==
                redirected(old(self).bag(to).add(old(self).bag(from)), from, to, x),
            final(self).list@.contains_key(to),
            forall|u: usize| u != to && #[trigger] final(self).list@.contains_key(u) ==> final(self).bag(u).len() == old(self).bag(u).len(),
            final(self).bag(to).len() == old(self).bag(to).len() + old(self).bag(from).len(),
    {
        let ghost s0 = *self;
        // the edges out of `from` join those out of `to`
        let old_bag = match self.list.remove(&from) {
            Some(b) => b,
            None => bag_new(),
        };
        let mut new_bag = match self.list.remove(&to) {
            Some(b) => b,
            None => bag_new(),
        };
        bag_extend(&mut new_bag, old_bag);
        self.list.insert(to, new_bag);
        // `from` is no longer a group
        let mut k: usize = 0;
        while k < self.nodes.len() && self.nodes[k] != from
            invariant
                k <= self.nodes@.len(),
                forall|q: int| 0 <= q < k ==> self.nodes@[q] != from,
            decreases self.nodes@.len() - k,
        {
            k = k + 1;
        }
        if k < self.nodes.len() {
            let ghost n0 = self.nodes@;
            self.nodes.remove(k);
            proof {
                assert forall|u: usize| #[trigger] self.nodes@.contains(u) <==> (n0.contains(u) && u != from) by {
                    if self.nodes@.contains(u) {
                        let j = choose|j: int| 0 <= j < self.nodes@.len() && self.nodes@[j] == u;
                        if j < k {
                            assert(n0[j] == u);
                        } else {
                            assert(n0[j + 1] == u);
                        }
                    }
                    if n0.contains(u) && u != from {
                        let j = choose|j: int| 0 <= j < n0.len() && n0[j] == u;
                        assert(j != k);
                        if j < k {
                            assert(self.nodes@[j] == u);
                        } else {
                            assert(self.nodes@[j - 1] == u);
                        }
                    }
                }
                assert forall|a: int, b: int| 0 <= a < b < self.nodes@.len() implies
                    #[trigger] self.nodes@[a] != #[trigger] self.nodes@[b] by {
                    let a0 = if a < k { a } else { a + 1 };
                    let b0 = if b < k { b } else { b + 1 };
                    assert(self.nodes@[a] == n0[a0] && self.nodes@[b] == n0[b0]);
                }
            }
        } else {
            assert(!s0.nodes@.contains(from)) by {
                if s0.nodes@.contains(from) {
                    let j = choose|j: int| 0 <= j < s0.nodes@.len() && s0.nodes@[j] == from;
                }
            }
        }
        let ghost m1 = self.list@;
        assert forall|u: usize| #[trigger] self.list@.contains_key(u) <==> self.nodes@.contains(u) by {
            assert(s0.list@.contains_key(u) <==> s0.nodes@.contains(u));
        }
        // every edge into `from` now leads into `to`
        let mut i: usize = 0;
        while i < self.nodes.len()
            invariant
                from != to,
                self.wf(),
                i <= self.nodes@.len(),
                self.list@.dom() == m1.dom(),
                forall|q: int, x: usize| 0 <= q < i ==>
                    #[trigger] bag_items(self.list@[#[trigger] self.nodes@[q]]).count(x)
                        == redirected(bag_items(m1[self.nodes@[q]]), from, to, x),
                forall|q: int| i <= q < self.nodes@.len() ==> self.list@[#[trigger] self.nodes@[q]] == m1[self.nodes@[q]],
                forall|q: int| 0 <= q < i ==> bag_items(self.list@[#[trigger] self.nodes@[q]]).len() == bag_items(m1[self.nodes@[q]]).len(),
            decreases self.nodes@.len() - i,
        {
            let u = self.nodes[i];
            assert(self.nodes@.contains(u));
            let mut b = match self.list.remove(&u) {
                Some(b) => b,
                None => bag_new(),
            };
            let ghost mb = bag_items(b);
            assert(mb == bag_items(m1[u]));
            let total = bag_len(&b);
            let count = bag_contains(&b, from);
            while bag_remove(&mut b, from) != 0
                invariant
                    forall|x: usize| x != from ==> #[trigger] bag_items(b).count(x) == mb.count(x),
                    bag_items(b).len() + mb.count(from) == mb.len() + bag_items(b).count(from),
                    bag_items(b).count(from) <= mb.count(from),
                decreases bag_items(b).count(from),
            {
            }
            let mut c: usize = 0;
            while c < count
                invariant
                    c <= count,
                    count == mb.count(from),
                    total == mb.len(),
                    from != to,
                    bag_items(b).count(from) == 0,
                    bag_items(b).count(to) == mb.count(to) + c,
                    forall|x: usize| x != from && x != to ==> #[trigger] bag_items(b).count(x) == mb.count(x),
                    bag_items(b).len() + count == mb.len() + c,
                decreases count - c,
            {
                bag_insert(&mut b, to);
                c = c + 1;
            }
            self.list.insert(u, b);
            proof {
                assert(self.list@.dom() =~= m1.dom());
                assert forall|x: usize| #[trigger] bag_items(self.list@[u]).count(x) == redirected(mb, from, to, x) by {}
                assert forall|q: int| i + 1 <= q < self.nodes@.len() implies self.list@[#[trigger] self.nodes@[q]] == m1[self.nodes@[q]] by {
                    assert(self.nodes@[q] != u);
                }
                assert(bag_items(self.list@[u]).len() == mb.len());
                assert forall|q: int| 0 <= q < i + 1 implies bag_items(self.list@[#[trigger] self.nodes@[q]]).len() == bag_items(m1[self.nodes@[q]]).len() by {
                    if q < i {
                        assert(self.nodes@[q] != u);
                    }
                }
                assert forall|q: int, x: usize| 0 <= q < i + 1 implies
                    #[trigger] bag_items(self.list@[#[trigger] self.nodes@[q]]).count(x)
                        == redirected(bag_items(m1[self.nodes@[q]]), from, to, x) by {
                    if q < i {
                        assert(self.nodes@[q] != u);
                    }
                }
            }
            i = i + 1;
        }
        proof {
            assert forall|u: usize, x: usize| u != to && #[trigger] self.list@.contains_key(u) implies
                #[trigger] self.bag(u).count(x) == redirected(s0.bag(u), from, to, x) by {
                let q = choose|q: int| 0 <= q < self.nodes@.len() && self.nodes@[q] == u;
                assert(m1[u] == s0.list@[u]);
            }
            assert forall|u: usize| u != to && #[trigger] self.list@.contains_key(u) implies self.bag(u).len() == s0.bag(u).len() by {
                let q = choose|q: int| 0 <= q < self.nodes@.len() && self.nodes@[q] == u;
                assert(m1[u] == s0.list@[u]);
            }
            assert(self.list@.contains_key(to));
            let q = choose|q: int| 0 <= q < self.nodes@.len() && self.nodes@[q] == to;
            assert forall|x: usize| #[trigger] self.bag(to).count(x) ==
                redirected(s0.bag(to).add(s0.bag(from)), from, to, x) by {
                assert(self.nodes@[q] == to);
                assert(bag_items(m1[to]).count(x) == s0.bag(to).add(s0.bag(from)).count(x));
            }
            assert(self.nodes@[q] == to);
            assert(bag_items(m1[to]).len() == s0.bag(to).len() + s0.bag(from).len());
        }
    }
}

/// The edge from `a` to `b` is one between the groups, among those looked
/// at: `a` in `pre`, or `a` is `src` and the edge among its first `k`.
pub open spec fn half(g: Graph, pre: Seq<usize>, t: Seq<usize>, src: usize, k: int, a: usize, b: usize) -> bool {
    ||| pre.contains(a) && t.contains(b) && g.has_edge(a, b)
    ||| a == src && t.contains(b) && super::scc::edge_within(g, src, b, k)
}

/// Some edge looked at joins `x` to another node, one way or the other.
pub open spec fn touched(g: Graph, pre: Seq<usize>, t: Seq<usize>, src: usize, k: int, x: usize) -> bool {
    exists|w: usize| #![trigger half(g, pre, t, src, k, x, w)] #![trigger half(g, pre, t, src, k, w, x)]
        half(g, pre, t, src, k, x, w) || half(g, pre, t, src, k, w, x)
}

/// The cut built so far holds the edges looked at, each both ways, and
/// the nodes they join.
pub open spec fn built(g: Graph, pre: Seq<usize>, t: Seq<usize>, src: usize, k: int, out: Graph) -> bool {
    &&& out.wf()
    &&& forall|u: usize, nt: NodeType| #[trigger] out.adj(u).contains(nt) <==>
        (nt is N && (half(g, pre, t, src, k, u, nt.spec_node()) || half(g, pre, t, src, k, nt.spec_node(), u)))
    &&& forall|x: usize| #[trigger] out.nodes@.contains(x) <==> touched(g, pre, t, src, k, x)
}

/// Taking one more edge of `src` into account, to `v` of `t`: the cut
/// gains it both ways and its two nodes.
proof fn lemma_built_step(g: Graph, pre: Seq<usize>, t: Seq<usize>, src: usize, k: int, v: usize,
    o0: Graph, o1: Graph, o2: Graph, o3: Graph, o4: Graph)
    requires
        built(g, pre, t, src, k, o0),
        0 <= k < g.adj(src).len(),
        g.adj(src)[k].spec_node() == v,
        t.contains(v),
        o1.wf() && o1.edges@ == o0.edges@ && o1.nodes@.to_set() == o0.nodes@.to_set().insert(v),
        o2.wf() && o2.nodes@ == o1.nodes@ && (forall|u: usize| u != v ==> #[trigger] o2.adj(u) == o1.adj(u))
            && o2.adj(v).to_set() == o1.adj(v).to_set().insert(NodeType::N(src)),
        o3.wf() && o3.edges@ == o2.edges@ && o3.nodes@.to_set() == o2.nodes@.to_set().insert(src),
        o4.wf() && o4.nodes@ == o3.nodes@ && (forall|u: usize| u != src ==> #[trigger] o4.adj(u) == o3.adj(u))
            && o4.adj(src).to_set() == o3.adj(src).to_set().insert(NodeType::N(v)),
    ensures
        built(g, pre, t, src, k + 1, o4),
{
    assert forall|a: usize, b: usize| #[trigger] half(g, pre, t, src, k + 1, a, b) <==> (half(g, pre, t, src, k, a, b) || (a == src && b == v)) by {
        if super::scc::edge_within(g, src, b, k + 1) && b != v {
            let m = choose|m: int| 0 <= m < k + 1 && m < g.adj(src).len() && (#[trigger] g.adj(src)[m]).spec_node() == b;
            assert(m < k);
            assert(super::scc::edge_within(g, src, b, k));
        }
        if super::scc::edge_within(g, src, b, k) {
            let m = choose|m: int| 0 <= m < k && m < g.adj(src).len() && (#[trigger] g.adj(src)[m]).spec_node() == b;
            assert(super::scc::edge_within(g, src, b, k + 1));
        }
        if a == src && b == v {
            assert(super::scc::edge_within(g, src, b, k + 1));
        }
    }
    assert forall|u: usize, nt: NodeType| #[trigger] o4.adj(u).contains(nt) <==>
        (nt is N && (half(g, pre, t, src, k + 1, u, nt.spec_node()) || half(g, pre, t, src, k + 1, nt.spec_node(), u))) by {
        assert(o4.adj(u).to_set().contains(nt) == o4.adj(u).contains(nt));
        assert(o3.adj(u).to_set().contains(nt) == o3.adj(u).contains(nt));
        assert(o2.adj(u).to_set().contains(nt) == o2.adj(u).contains(nt));
        assert(o1.adj(u).to_set().contains(nt) == o1.adj(u).contains(nt));
        assert(o3.adj(u) == o2.adj(u));
        assert(o1.adj(u) == o0.adj(u));
        if u != v {
            assert(o2.adj(u) == o1.adj(u));
        }
        if nt is N {
            assert(half(g, pre, t, src, k + 1, u, nt.spec_node()) == (half(g, pre, t, src, k, u, nt.spec_node()) || (u == src && nt.spec_node() == v)));
            assert(half(g, pre, t, src, k + 1, nt.spec_node(), u) == (half(g, pre, t, src, k, nt.spec_node(), u) || (nt.spec_node() == src && u == v)));
        }
    }
    assert forall|x: usize| #[trigger] o4.nodes@.contains(x) <==> touched(g, pre, t, src, k + 1, x) by {
        assert(o4.nodes@.to_set().contains(x) == o4.nodes@.contains(x));
        assert(o1.nodes@.to_set().contains(x) == o1.nodes@.contains(x));
        assert(o0.nodes@.to_set().contains(x) == o0.nodes@.contains(x));
        if touched(g, pre, t, src, k + 1, x) {
            let w = choose|w: usize| #![trigger half(g, pre, t, src, k + 1, x, w)] #![trigger half(g, pre, t, src, k + 1, w, x)] half(g, pre, t, src, k + 1, x, w) || half(g, pre, t, src, k + 1, w, x);
            if !(x == src || x == v) {
                if half(g, pre, t, src, k, x, w) {
                    assert(touched(g, pre, t, src, k, x));
                } else {
                    assert(half(g, pre, t, src, k, w, x));
                    assert(touched(g, pre, t, src, k, x));
                }
            }
        }
        if touched(g, pre, t, src, k, x) {
            let w = choose|w: usize| #![trigger half(g, pre, t, src, k, x, w)] #![trigger half(g, pre, t, src, k, w, x)] half(g, pre, t, src, k, x, w) || half(g, pre, t, src, k, w, x);
            assert(half(g, pre, t, src, k + 1, x, w) || half(g, pre, t, src, k + 1, w, x));
        }
        if x == src {
            assert(half(g, pre, t, src, k + 1, src, v));
        }
        if x == v {
            assert(half(g, pre, t, src, k + 1, src, v));
        }
    }
}

/// Done with `src`'s edges: the edges looked at are those out of the
/// nodes of `pre` and `src`.
proof fn lemma_built_next(g: Graph, pre: Seq<usize>, cur: Seq<usize>, t: Seq<usize>, src: usize, src2: usize, out: Graph)
    requires
        built(g, pre, t, src, g.adj(src).len() as int, out),
        forall|x: usize| #[trigger] cur.contains(x) <==> (pre.contains(x) || x == src),
    ensures
        built(g, cur, t, src2, 0, out),
{
    let n = g.adj(src).len() as int;
    assert forall|a: usize, b: usize| #[trigger] half(g, cur, t, src2, 0, a, b) <==> half(g, pre, t, src, n, a, b) by {
        if a == src && t.contains(b) && g.has_edge(src, b) {
            let m = choose|m: int| 0 <= m < g.adj(src).len() && (#[trigger] g.adj(src)[m]).spec_node() == b;
            assert(super::scc::edge_within(g, src, b, n));
        }
        if a == src && super::scc::edge_within(g, src, b, n) {
            let m = choose|m: int| 0 <= m < n && m < g.adj(src).len() && (#[trigger] g.adj(src)[m]).spec_node() == b;
            assert(g.has_edge(src, b));
        }
    }
    assert forall|x: usize| #[trigger] touched(g, cur, t, src2, 0, x) <==> touched(g, pre, t, src, n, x) by {
        if touched(g, cur, t, src2, 0, x) {
            let w = choose|w: usize| #![trigger half(g, cur, t, src2, 0, x, w)] #![trigger half(g, cur, t, src2, 0, w, x)] half(g, cur, t, src2, 0, x, w) || half(g, cur, t, src2, 0, w, x);
            assert(half(g, pre, t, src, n, x, w) || half(g, pre, t, src, n, w, x));
        }
        if touched(g, pre, t, src, n, x) {
            let w = choose|w: usize| #![trigger half(g, pre, t, src, n, x, w)] #![trigger half(g, pre, t, src, n, w, x)] half(g, pre, t, src, n, x, w) || half(g, pre, t, src, n, w, x);
            assert(half(g, cur, t, src2, 0, x, w) || half(g, cur, t, src2, 0, w, x));
        }
    }
}

/// Before any edge of a node is looked at, which node it is makes no
/// difference.
proof fn lemma_built_rename(g: Graph, pre: Seq<usize>, t: Seq<usize>, src: usize, src2: usize, out: Graph)
    requires
        built(g, pre, t, src, 0, out),
    ensures
        built(g, pre, t, src2, 0, out),
{
    assert forall|a: usize, b: usize| #[trigger] half(g, pre, t, src2, 0, a, b) <==> half(g, pre, t, src, 0, a, b) by {
        if super::scc::edge_within(g, src, b, 0) {
            let m = choose|m: int| 0 <= m < 0 && m < g.adj(src).len() && (#[trigger] g.adj(src)[m]).spec_node() == b;
        }
        if super::scc::edge_within(g, src2, b, 0) {
            let m = choose|m: int| 0 <= m < 0 && m < g.adj(src2).len() && (#[trigger] g.adj(src2)[m]).spec_node() == b;
        }
    }
    assert forall|x: usize| #[trigger] touched(g, pre, t, src2, 0, x) <==> touched(g, pre, t, src, 0, x) by {
        if touched(g, pre, t, src2, 0, x) {
            let w = choose|w: usize| #![trigger half(g, pre, t, src2, 0, x, w)] #![trigger half(g, pre, t, src2, 0, w, x)] half(g, pre, t, src2, 0, x, w) || half(g, pre, t, src2, 0, w, x);
            assert(half(g, pre, t, src, 0, x, w) || half(g, pre, t, src, 0, w, x));
        }
        if touched(g, pre, t, src, 0, x) {
            let w = choose|w: usize| #![trigger half(g, pre, t, src, 0, x, w)] #![trigger half(g, pre, t, src, 0, w, x)] half(g, pre, t, src, 0, x, w) || half(g, pre, t, src, 0, w, x);
            assert(half(g, pre, t, src2, 0, x, w) || half(g, pre, t, src2, 0, w, x));
        }
    }
}

impl Graph {
    /// The edges between `src_set` and `dst_set`: for each node of
    /// `src_set`, its edges to nodes of `dst_set`, each both ways and
    /// without its cost.
    pub fn get_crossing_edges(&self, src_set: &Vec<usize>, dst_set: &Vec<usize>) -> (cut: Graph)
        requires
            self.wf(),
            disjoint(src_set@, dst_set@),
            forall|x: usize| #[trigger] src_set@.contains(x) ==> self.edges@.contains_key(x),
        ensures
            crossing(*self, src_set@, dst_set@, cut),
    {
        let ghost g = *self;
        let ghost s = src_set@;
        let ghost t = dst_set@;
        let mut out = Graph::new();
        proof {
            assert forall|x: usize| #[trigger] out.nodes@.contains(x) <==> touched(g, s.take(0), t, 0, 0, x) by {
                if touched(g, s.take(0), t, 0, 0, x) {
                    let w = choose|w: usize| #![trigger half(g, s.take(0), t, 0, 0, x, w)] #![trigger half(g, s.take(0), t, 0, 0, w, x)] half(g, s.take(0), t, 0, 0, x, w) || half(g, s.take(0), t, 0, 0, w, x);
                }
            }
        }
        let mut i: usize = 0;
        while i < src_set.len()
            invariant
                g == *self,
                s == src_set@,
                t == dst_set@,
                i <= s.len(),
                built(g, s.take(i as int), t, 0, 0, out),
                forall|x: usize| #[trigger] out.edges@.contains_key(x) <==> out.nodes@.contains(x),
            decreases s.len() - i,
        {
            let src = src_set[i];
            let ghost pre = s.take(i as int);
            let ghost cur = s.take(i as int + 1);
            proof {
                assert forall|x: usize| #[trigger] cur.contains(x) <==> (pre.contains(x) || x == src) by {
                    if cur.contains(x) {
                        let j = choose|j: int| 0 <= j < cur.len() && cur[j] == x;
                        if j < pre.len() {
                            assert(pre[j] == x);
                        }
                    }
                    if pre.contains(x) {
                        let j = choose|j: int| 0 <= j < pre.len() && pre[j] == x;
                        assert(cur[j] == x);
                    }
                    if x == src {
                        assert(cur[i as int] == x);
                    }
                }
                lemma_built_rename(g, pre, t, 0, src, out);
            }
            match self.edges.get(&src) {
                Some(list) => {
                    assert(list@ == g.adj(src));
                    let mut k: usize = 0;
                    while k < list.len()
                        invariant
                            g == *self,
                            t == dst_set@,
                            list@ == g.adj(src),
                            k <= list@.len(),
                            built(g, pre, t, src, k as int, out),
                            forall|x: usize| #[trigger] out.edges@.contains_key(x) <==> out.nodes@.contains(x),
                        decreases list@.len() - k,
                    {
                        let v = list[k].node();
                        let mut inside = false;
                        let mut q: usize = 0;
                        while q < dst_set.len()
                            invariant
                                t == dst_set@,
                                q <= t.len(),
                                inside == exists|j: int| 0 <= j < q && t[j] == v,
                            decreases t.len() - q,
                        {
                            if dst_set[q] == v {
                                inside = true;
                            }
                            q = q + 1;
                        }
                        if inside {
                            let ghost o0 = out;
                            out.add_node(v);
                            let ghost o1 = out;
                            out.add_edge(v, NodeType::N(src));
                            let ghost o2 = out;
                            out.add_node(src);
                            let ghost o3 = out;
                            out.add_edge(src, NodeType::N(v));
                            proof {
                                lemma_built_step(g, pre, t, src, k as int, v, o0, o1, o2, o3, out);
                                assert forall|x: usize| #[trigger] out.edges@.contains_key(x) <==> out.nodes@.contains(x) by {
                                    assert(out.nodes@.to_set().contains(x) == out.nodes@.contains(x));
                                    assert(o1.nodes@.to_set().contains(x) == o1.nodes@.contains(x));
                                    assert(o0.nodes@.to_set().contains(x) == o0.nodes@.contains(x));
                                    assert(o3.nodes@.to_set().contains(x) == o3.nodes@.contains(x));
                                    assert(o2.nodes@.to_set().contains(x) == o2.nodes@.contains(x));
                                }
                            }
                        } else {
                            proof {
                                assert(!t.contains(v));
                                assert forall|a: usize, b: usize| #[trigger] half(g, pre, t, src, k + 1, a, b) <==> half(g, pre, t, src, k as int, a, b) by {
                                    if a == src && t.contains(b) && super::scc::edge_within(g, src, b, k + 1) {
                                        let m = choose|m: int| 0 <= m < k + 1 && m < g.adj(src).len() && (#[trigger] g.adj(src)[m]).spec_node() == b;
                                        assert(m != k);
                                        assert(super::scc::edge_within(g, src, b, k as int));
                                    }
                                    if super::scc::edge_within(g, src, b, k as int) {
                                        let m = choose|m: int| 0 <= m < k && m < g.adj(src).len() && (#[trigger] g.adj(src)[m]).spec_node() == b;
                                        assert(super::scc::edge_within(g, src, b, k + 1));
                                    }
                                }
                                assert forall|x: usize| #[trigger] touched(g, pre, t, src, k + 1, x) <==> touched(g, pre, t, src, k as int, x) by {
                                    if touched(g, pre, t, src, k + 1, x) {
                                        let w = choose|w: usize| #![trigger half(g, pre, t, src, k + 1, x, w)] #![trigger half(g, pre, t, src, k + 1, w, x)] half(g, pre, t, src, k + 1, x, w) || half(g, pre, t, src, k + 1, w, x);
                                        assert(half(g, pre, t, src, k as int, x, w) || half(g, pre, t, src, k as int, w, x));
                                    }
                                    if touched(g, pre, t, src, k as int, x) {
                                        let w = choose|w: usize| #![trigger half(g, pre, t, src, k as int, x, w)] #![trigger half(g, pre, t, src, k as int, w, x)] half(g, pre, t, src, k as int, x, w) || half(g, pre, t, src, k as int, w, x);
                                        assert(half(g, pre, t, src, k + 1, x, w) || half(g, pre, t, src, k + 1, w, x));
                                    }
                                }
                            }
                        }
                        k = k + 1;
                    }
                },
                None => {
                    assert(g.adj(src).len() == 0);
                },
            }
            proof {
                lemma_built_next(g, pre, cur, t, src, 0, out);
            }
            i = i + 1;
        }
        proof {
            assert(s.take(s.len() as int) =~= s);
            let n = s;
            assert forall|a: usize, b: usize| #[trigger] half(g, s, t, 0, 0, a, b) <==> (s.contains(a) && t.contains(b) && g.has_edge(a, b)) by {
                if super::scc::edge_within(g, 0, b, 0) {
                    let m = choose|m: int| 0 <= m < 0 && m < g.adj(0).len() && (#[trigger] g.adj(0)[m]).spec_node() == b;
                }
            }
            assert forall|u: usize, nt: NodeType| #[trigger] out.adj(u).contains(nt) <==> (nt is N && between(g, s, t, u, nt.spec_node())) by {
                let v = nt.spec_node();
                assert(between(g, s, t, u, v) == (half(g, s, t, 0, 0, u, v) || half(g, s, t, 0, 0, v, u)));
            }
            assert forall|x: usize| #[trigger] out.nodes@.contains(x) <==> exists|v: usize| #[trigger] between(g, s, t, x, v) by {
                if touched(g, s, t, 0, 0, x) {
                    let w = choose|w: usize| #![trigger half(g, s, t, 0, 0, x, w)] #![trigger half(g, s, t, 0, 0, w, x)] half(g, s, t, 0, 0, x, w) || half(g, s, t, 0, 0, w, x);
                    assert(between(g, s, t, x, w));
                }
                if exists|v: usize| #[trigger] between(g, s, t, x, v) {
                    let v = choose|v: usize| #[trigger] between(g, s, t, x, v);
                    assert(half(g, s, t, 0, 0, x, v) || half(g, s, t, 0, 0, v, x));
                }
            }
        }
        out
    }
}
/// An item that occurs is at some position.
proof fn lemma_occurrences_positive(s: Seq<usize>, x: usize)
    requires
        occurrences(s, x) > 0,
    ensures
        exists|k: int| 0 <= k < s.len() && s[k] == x,
    decreases s.len(),
{
    if s.last() == x {
        assert(s[s.len() - 1] == x);
    } else {
        lemma_occurrences_positive(s.drop_last(), x);
        let k = choose|k: int| 0 <= k < s.drop_last().len() && s.drop_last()[k] == x;
        assert(s[k] == x);
    }
}

/// One more item at the end adds one occurrence of it.
proof fn lemma_occurrences_take(s: Seq<usize>, k: int, x: usize)
    requires
        0 <= k < s.len(),
    ensures
        occurrences(s.take(k + 1), x) == occurrences(s.take(k), x) + if s[k] == x { 1nat } else { 0nat },
{
    assert(s.take(k + 1).drop_last() =~= s.take(k));
}

impl Graph {
    /// The edges between single nodes as groups: for each node with edges,
    /// the far ends of its edges, each as often as an edge leads there.
    pub fn get_super_edges(&self) -> (se: SuperEdges)
        requires
            self.wf(),
            self.keys_are_nodes(),
        ensures
            se.wf(),
            forall|u: usize| #[trigger] se.list@.contains_key(u) <==> self.edges@.contains_key(u),
            forall|u: usize, x: usize| se.list@.contains_key(u) ==> #[trigger] se.bag(u).count(x) == occurrences(targets(*self, u), x),
            forall|u: usize| #[trigger] se.list@.contains_key(u) ==> se.bag(u).len() == self.adj(u).len(),
    {
        let mut list: HashMap<usize, HashBag<usize>> = HashMap::new();
        let mut keys: Vec<usize> = Vec::new();
        let mut i: usize = 0;
        while i < self.nodes.len()
            invariant
                self.wf(),
                self.keys_are_nodes(),
                i <= self.nodes@.len(),
                distinct(keys@),
                forall|u: usize| #[trigger] list@.contains_key(u) <==> keys@.contains(u),
                forall|u: usize| #[trigger] keys@.contains(u) <==> (self.nodes@.take(i as int).contains(u) && self.edges@.contains_key(u)),
                forall|u: usize, x: usize| list@.contains_key(u) ==> #[trigger] bag_items(list@[u]).count(x) == occurrences(targets(*self, u), x),
                forall|u: usize| #[trigger] list@.contains_key(u) ==> bag_items(list@[u]).len() == self.adj(u).len(),
            decreases self.nodes@.len() - i,
        {
            let u = self.nodes[i];
            let ghost pre = self.nodes@.take(i as int);
            let ghost cur = self.nodes@.take(i as int + 1);
            proof {
                assert forall|x: usize| #[trigger] cur.contains(x) <==> (pre.contains(x) || x == u) by {
                    if cur.contains(x) {
                        let j = choose|j: int| 0 <= j < cur.len() && cur[j] == x;
                        if j < pre.len() {
                            assert(pre[j] == x);
                        }
                    }
                    if pre.contains(x) {
                        let j = choose|j: int| 0 <= j < pre.len() && pre[j] == x;
                        assert(cur[j] == x);
                    }
                    if x == u {
                        assert(cur[i as int] == x);
                    }
                }
                assert(!pre.contains(u)) by {
                    if pre.contains(u) {
                        let j = choose|j: int| 0 <= j < pre.len() && pre[j] == u;
                        assert(self.nodes@[j] == self.nodes@[i as int]);
                    }
                }
            }
            match self.edges.get(&u) {
                Some(edges) => {
                    let ghost ts = targets(*self, u);
                    assert(edges@ == self.adj(u));
                    let mut b = bag_new();
                    let mut k: usize = 0;
                    while k < edges.len()
                        invariant
                            edges@ == self.adj(u),
                            ts == targets(*self, u),
                            ts.len() == edges@.len(),
                            k <= edges@.len(),
                            bag_items(b).len() == k,
                            forall|x: usize| #[trigger] bag_items(b).count(x) == occurrences(ts.take(k as int), x),
                        decreases edges@.len() - k,
                    {
                        let v = edges[k].node();
                        bag_insert(&mut b, v);
                        proof {
                            assert(ts[k as int] == v);
                            assert forall|x: usize| #[trigger] bag_items(b).count(x) == occurrences(ts.take(k + 1), x) by {
                                lemma_occurrences_take(ts, k as int, x);
                            }
                        }
                        k = k + 1;
                    }
                    assert(ts.take(ts.len() as int) =~= ts);
                    let ghost k0 = keys@;
                    list.insert(u, b);
                    keys.push(u);
                    proof {
                        super::lemma_push_to_set(k0, u);
                        assert forall|w: usize| #[trigger] keys@.contains(w) <==> k0.contains(w) || w == u by {
                            assert(keys@.to_set().contains(w) == keys@.contains(w));
                            assert(k0.to_set().contains(w) == k0.contains(w));
                        }
                    }
                },
                None => {},
            }
            i = i + 1;
        }
        proof {
            assert(self.nodes@.take(self.nodes@.len() as int) =~= self.nodes@);
        }
        SuperEdges { list, nodes: keys }
    }

    /// Each node of `1..=n` on its own, labelled with itself.
    pub fn get_super_nodes(&self) -> (label: Vec<usize>)
        requires
            self.nodes@.len() < usize::MAX,
        ensures
            label@.len() == self.nodes@.len(),
            forall|q: int| 0 <= q < label@.len() ==> #[trigger] label@[q] == q + 1,
    {
        let n = self.nodes.len();
        let mut label: Vec<usize> = Vec::new();
        let mut v: usize = 0;
        while v < n
            invariant
                v <= n,
                n < usize::MAX,
                label@.len() == v,
                forall|q: int| 0 <= q < v ==> #[trigger] label@[q] == q + 1,
            decreases n - v,
        {
            label.push(v + 1);
            v = v + 1;
        }
        label
    }
}

/// Distinct nodes of `1..=n`, `n` of them, are all of `1..=n`.
pub proof fn lemma_all_nodes(nodes: Seq<usize>, n: nat, v: usize)
    requires
        distinct(nodes),
        nodes.len() == n,
        forall|x: usize| #[trigger] nodes.contains(x) ==> 1 <= x <= n,
        1 <= v <= n,
    ensures
        nodes.contains(v),
{
    if !nodes.contains(v) {
        let q = nodes.push(v);
        assert forall|a: int, b: int| 0 <= a < b < q.len() implies #[trigger] q[a] != #[trigger] q[b] by {
            if b == nodes.len() {
                assert(q[a] == nodes[a]);
                assert(nodes.contains(nodes[a]));
            } else {
                assert(q[a] == nodes[a] && q[b] == nodes[b]);
            }
        }
        assert forall|j: int| 0 <= j < q.len() implies 1 <= #[trigger] q[j] <= n by {
            if j < nodes.len() {
                assert(q[j] == nodes[j]);
                assert(nodes.contains(nodes[j]));
            }
        }
        super::bfs::lemma_distinct_range_len(q, n);
    }
}

/// Merging group `dst` into group `src`: relabelling its nodes and
/// dropping its name keeps the groups well formed.
pub proof fn lemma_merge_groups(n: nat, label0: Seq<usize>, label1: Seq<usize>, leaders0: Seq<usize>, leaders1: Seq<usize>,
    src: usize, dst: usize)
    requires
        groups_ok(n, label0, leaders0),
        leaders0.contains(src),
        leaders0.contains(dst),
        src != dst,
        label1.len() == n,
        forall|q: int| 0 <= q < n ==> #[trigger] label1[q] == if label0[q] == dst { src } else { label0[q] },
        distinct(leaders1),
        forall|x: usize| #[trigger] leaders1.contains(x) <==> (leaders0.contains(x) && x != dst),
    ensures
        groups_ok(n, label1, leaders1),
{
    assert forall|i: int| 0 <= i < leaders1.len() implies 1 <= #[trigger] leaders1[i] <= n && label1[leaders1[i] - 1] == leaders1[i] by {
        let l = leaders1[i];
        assert(leaders1.contains(l));
        assert(leaders0.contains(l));
        let j = choose|j: int| 0 <= j < leaders0.len() && leaders0[j] == l;
        assert(1 <= leaders0[j] <= n && label0[leaders0[j] - 1] == leaders0[j]);
    }
    assert forall|v: int| 1 <= v <= n implies leaders1.contains(#[trigger] label1[v - 1]) by {
        assert(leaders0.contains(label0[v - 1]));
    }
}

/// Dropping the edges between `src` and `dst` and merging `dst` into
/// `src` keeps the groups' edges leading to other groups.
proof fn lemma_merge_bags(se0: SuperEdges, se1: SuperEdges, se2: SuperEdges, se3: SuperEdges,
    leaders0: Seq<usize>, leaders1: Seq<usize>, src: usize, dst: usize)
    requires
        bags_ok(se0, leaders0),
        src != dst,
        se0.list@.contains_key(src),
        se0.list@.contains_key(dst),
        forall|x: usize| #[trigger] leaders1.contains(x) <==> (leaders0.contains(x) && x != dst),
        se1.list@.dom() == se0.list@.dom(),
        forall|u: usize| u != src ==> #[trigger] se1.list@[u] == se0.list@[u],
        forall|x: usize| #[trigger] se1.bag(src).count(x) == if x == dst { 0 } else { se0.bag(src).count(x) },
        se2.list@.dom() == se1.list@.dom(),
        forall|u: usize| u != dst ==> #[trigger] se2.list@[u] == se1.list@[u],
        forall|x: usize| #[trigger] se2.bag(dst).count(x) == if x == src { 0 } else { se1.bag(dst).count(x) },
        se3.wf(),
        forall|u: usize| #[trigger] se3.list@.contains_key(u) <==> (se2.list@.contains_key(u) && u != dst),
        forall|u: usize, x: usize| u != src && #[trigger] se3.list@.contains_key(u) ==>
            #[trigger] se3.bag(u).count(x) == redirected(se2.bag(u), dst, src, x),
        forall|x: usize| #[trigger] se3.bag(src).count(x) == redirected(se2.bag(src).add(se2.bag(dst)), dst, src, x),
    ensures
        bags_ok(se3, leaders1),
{
    assert forall|u: usize| #[trigger] se3.list@.contains_key(u) implies leaders1.contains(u) by {
        assert(se0.list@.contains_key(u));
    }
    assert forall|u: usize, x: usize| #[trigger] se3.list@.contains_key(u) && #[trigger] se3.bag(u).count(x) > 0 implies
        leaders1.contains(x) && x != u by {
        assert(se0.list@.contains_key(u));
        assert(leaders0.contains(src));
        if u == src {
            assert(se2.bag(src).count(x) == se1.bag(src).count(x));
            assert(se2.bag(dst).count(x) == if x == src { 0 } else { se0.bag(dst).count(x) });
            assert(se0.bag(src).count(src) == 0) by {
                if se0.bag(src).count(src) > 0 {
                    assert(se0.list@.contains_key(src));
                }
            }
            assert(se0.bag(dst).count(dst) == 0) by {
                if se0.bag(dst).count(dst) > 0 {
                    assert(se0.list@.contains_key(dst));
                }
            }
            if x != src && x != dst {
                if se0.bag(src).count(x) > 0 {
                    assert(leaders0.contains(x));
                } else {
                    assert(se0.bag(dst).count(x) > 0);
                    assert(leaders0.contains(x));
                }
            } else {
                assert(se2.bag(src).add(se2.bag(dst)).count(src) == 0);
                assert(se2.bag(src).add(se2.bag(dst)).count(dst) == 0);
            }
        } else {
            assert(u != dst);
            assert(se2.list@[u] == se0.list@[u]);
            if x != src {
                assert(x != dst);
                assert(se0.bag(u).count(x) > 0);
            } else {
                assert(leaders1.contains(src));
            }
        }
    }
}

/// In a connected graph of two or more nodes, every node has edges.
proof fn lemma_node_listed(g: Graph, x: usize)
    requires
        labelled(g),
        g.nodes@.len() >= 2,
        connected(g),
        g.nodes@.contains(x),
    ensures
        g.edges@.contains_key(x),
{
    let n = g.nodes@.len();
    let y: usize = if g.nodes@[0] != x { g.nodes@[0] } else { g.nodes@[1] };
    assert(g.nodes@[0] != g.nodes@[1]);
    assert(g.nodes@.contains(y));
    assert(reachable(g, x, y));
    let k = choose|k: nat| #[trigger] reach(g, x, k, y);
    let p = choose|p: Seq<usize>| #[trigger] is_walk(g, p) && p[0] == x && p.last() == y && p.len() <= k + 1;
    assert(p.len() >= 2);
    assert(g.has_edge(p[0], p[1]));
}

/// A connected graph of two or more nodes has edges.
proof fn lemma_has_edges(g: Graph)
    requires
        labelled(g),
        g.nodes@.len() >= 2,
        connected(g),
    ensures
        g.edges@.len() > 0,
{
    let n = g.nodes@.len();
    lemma_all_nodes(g.nodes@, n, 1);
    lemma_all_nodes(g.nodes@, n, 2);
    assert(reachable(g, 1, 2));
    let k = choose|k: nat| #[trigger] reach(g, 1, k, 2);
    let first = |x: usize| x == 1;
    if !exists|u: usize, w: usize| #![trigger g.has_edge(u, w)] first(u) && g.has_edge(u, w) && !first(w) {
        lemma_closed(g, 1, first, k, 2);
    }
    let (u, w) = choose|u: usize, w: usize| #![trigger g.has_edge(u, w)] first(u) && g.has_edge(u, w) && !first(w);
    assert(g.edges@.contains_key(1));
    vstd::set_lib::lemma_set_empty_equivalency_len(g.edges@.dom());
}

/// Some edge of `g` runs from a node of group `l` to a node of group `m`.
pub open spec fn group_edge(g: Graph, label: Seq<usize>, l: usize, m: usize) -> bool {
    exists|u: usize, v: usize| #![trigger g.has_edge(u, v)]
        1 <= u <= label.len() && 1 <= v <= label.len() && label[u - 1] == l && label[v - 1] == m && g.has_edge(u, v)
}

/// Every edge of `g` from one group to another is in the bags: the first
/// group has a bag, and it leads to the second at least once.
pub open spec fn edges_kept(g: Graph, label: Seq<usize>, leaders: Seq<usize>, se: SuperEdges) -> bool {
    forall|l: usize, m: usize| leaders.contains(l) && leaders.contains(m) && l != m && #[trigger] group_edge(g, label, l, m)
        ==> se.list@.contains_key(l) && se.bag(l).count(m) > 0
}

/// `f(1) + ... + f(k)`.
pub open spec fn sum_to(f: spec_fn(int) -> nat, k: int) -> nat
    decreases k,
{
    if k <= 0 { 0 } else { sum_to(f, k - 1) + f(k) }
}

/// For each group name, how many edges its bag holds.
pub open spec fn bag_weight(se: SuperEdges) -> spec_fn(int) -> nat {
    |v: int| if se.list@.contains_key(v as usize) { se.bag(v as usize).len() } else { 0 }
}

/// For each node, how many edges its edge list holds.
pub open spec fn degree(g: Graph) -> spec_fn(int) -> nat {
    |v: int| g.adj(v as usize).len()
}

/// A sum of terms each no larger is no larger.
proof fn lemma_sum_le(f: spec_fn(int) -> nat, h: spec_fn(int) -> nat, k: int)
    requires
        forall|v: int| 1 <= v <= k ==> #[trigger] f(v) <= h(v),
    ensures
        sum_to(f, k) <= sum_to(h, k),
    decreases k,
{
    if k > 0 {
        lemma_sum_le(f, h, k - 1);
    }
}

/// Sums whose terms differ at `a` alone differ by what those terms do.
proof fn lemma_sum_point(f: spec_fn(int) -> nat, h: spec_fn(int) -> nat, k: int, a: int)
    requires
        1 <= a <= k,
        forall|v: int| 1 <= v <= k && v != a ==> #[trigger] f(v) == h(v),
    ensures
        sum_to(f, k) + h(a) == sum_to(h, k) + f(a),
    decreases k,
{
    if k > a {
        lemma_sum_point(f, h, k - 1, a);
    } else {
        lemma_sum_le(f, h, k - 1);
        lemma_sum_le(h, f, k - 1);
    }
}

/// One term is at most the sum.
proof fn lemma_sum_one(f: spec_fn(int) -> nat, a: int, k: int)
    requires
        1 <= a <= k,
    ensures
        f(a) <= sum_to(f, k),
    decreases k,
{
    if k > a {
        lemma_sum_one(f, a, k - 1);
    }
}

/// Two terms are at most the sum.
proof fn lemma_sum_two(f: spec_fn(int) -> nat, a: int, b: int, k: int)
    requires
        1 <= a <= k,
        1 <= b <= k,
        a != b,
    ensures
        f(a) + f(b) <= sum_to(f, k),
    decreases k,
{
    if k == a {
        lemma_sum_one(f, b, k - 1);
    } else if k == b {
        lemma_sum_one(f, a, k - 1);
    } else {
        lemma_sum_two(f, a, b, k - 1);
    }
}

/// Counting the far ends listed for nodes `1..=k` is summing the degrees.
proof fn lemma_entries_sum(g: Graph, k: int)
    ensures
        entries(g, k) == sum_to(degree(g), k),
    decreases k,
{
    if k > 0 {
        lemma_entries_sum(g, k - 1);
    }
}

/// An item at some position occurs.
proof fn lemma_occurrences_present(s: Seq<usize>, k: int)
    requires
        0 <= k < s.len(),
    ensures
        occurrences(s, s[k]) > 0,
    decreases s.len(),
{
    if k < s.len() - 1 {
        lemma_occurrences_present(s.drop_last(), k);
    }
}

/// Single nodes as groups: every edge between two of them is in the bags
/// built from the edge lists, and the bags hold as many edges as the
/// lists.
proof fn lemma_start_kept(g: Graph, n: nat, label: Seq<usize>, leaders: Seq<usize>, se: SuperEdges)
    requires
        label.len() == n,
        forall|q: int| 0 <= q < n ==> #[trigger] label[q] == q + 1,
        forall|u: usize| #[trigger] se.list@.contains_key(u) <==> g.edges@.contains_key(u),
        forall|u: usize, x: usize| se.list@.contains_key(u) ==> #[trigger] se.bag(u).count(x) == occurrences(targets(g, u), x),
        forall|u: usize| #[trigger] se.list@.contains_key(u) ==> se.bag(u).len() == g.adj(u).len(),
    ensures
        edges_kept(g, label, leaders, se),
        sum_to(bag_weight(se), n as int) == sum_to(degree(g), n as int),
{
    assert forall|l: usize, m: usize| leaders.contains(l) && leaders.contains(m) && l != m && #[trigger] group_edge(g, label, l, m)
        implies se.list@.contains_key(l) && se.bag(l).count(m) > 0 by {
        let (u, v) = choose|u: usize, v: usize| #![trigger g.has_edge(u, v)]
            1 <= u <= label.len() && 1 <= v <= label.len() && label[u - 1] == l && label[v - 1] == m && g.has_edge(u, v);
        assert(label[u - 1] == u && label[v - 1] == v);
        let k = choose|k: int| 0 <= k < g.adj(l).len() && (#[trigger] g.adj(l)[k]).spec_node() == m;
        assert(g.edges@.contains_key(l));
        assert(targets(g, l)[k] == m);
        lemma_occurrences_present(targets(g, l), k);
    }
    assert forall|v: int| 1 <= v <= n implies #[trigger] bag_weight(se)(v) <= degree(g)(v) && degree(g)(v) <= bag_weight(se)(v) by {}
    lemma_sum_le(bag_weight(se), degree(g), n as int);
    lemma_sum_le(degree(g), bag_weight(se), n as int);
}

/// In a connected graph cut in two or more groups, every group has a bag
/// that leads somewhere.
proof fn lemma_groups_have_edges(g: Graph, n: nat, label: Seq<usize>, leaders: Seq<usize>, se: SuperEdges)
    requires
        labelled(g),
        g.keys_are_nodes(),
        g.nodes@.len() == n,
        connected(g),
        groups_ok(n, label, leaders),
        bags_ok(se, leaders),
        edges_kept(g, label, leaders, se),
        leaders.len() >= 2,
    ensures
        forall|l: usize| #[trigger] leaders.contains(l) ==> se.list@.contains_key(l) && se.bag(l).len() > 0,
        forall|u: usize| #[trigger] se.nodes@.contains(u) ==> se.bag(u).len() > 0,
        se.nodes@.len() > 0,
{
    assert forall|l: usize| #[trigger] leaders.contains(l) implies se.list@.contains_key(l) && se.bag(l).len() > 0 by {
        let j = choose|j: int| 0 <= j < leaders.len() && leaders[j] == l;
        let o = if j == 0 { 1int } else { 0int };
        let m = leaders[o];
        assert(m != l);
        assert(1 <= l <= n && label[l - 1] == l);
        assert(1 <= m <= n && label[m - 1] == m);
        lemma_all_nodes(g.nodes@, n, l);
        lemma_all_nodes(g.nodes@, n, m);
        assert(reachable(g, l, m));
        let k = choose|k: nat| #[trigger] reach(g, l, k, m);
        let within = |x: usize| 1 <= x <= n && label[x - 1] == l;
        if !exists|u: usize, w: usize| #![trigger g.has_edge(u, w)] within(u) && g.has_edge(u, w) && !within(w) {
            lemma_closed(g, l, within, k, m);
        }
        let (u, w) = choose|u: usize, w: usize| #![trigger g.has_edge(u, w)] within(u) && g.has_edge(u, w) && !within(w);
        let e = choose|e: int| 0 <= e < g.adj(u).len() && (#[trigger] g.adj(u)[e]).spec_node() == w;
        assert(g.edges@.contains_key(u));
        assert(g.nodes@.contains(u));
        assert(g.nodes@.contains(g.adj(u)[e].spec_node()));
        assert(1 <= w <= n);
        let m2 = label[w - 1];
        assert(leaders.contains(m2));
        assert(m2 != l);
        assert(group_edge(g, label, l, m2));
        vstd::multiset::lemma_multiset_empty_len(se.bag(l));
    }
    assert(leaders.contains(leaders[0]));
    assert(se.nodes@.contains(leaders[0]));
    assert forall|u: usize| #[trigger] se.nodes@.contains(u) implies se.bag(u).len() > 0 by {
        assert(se.list@.contains_key(u));
        assert(leaders.contains(u));
    }
}

/// Merging group `dst` into group `src` keeps every edge between groups in
/// the bags.
proof fn lemma_merge_kept(g: Graph, n: nat, label0: Seq<usize>, label1: Seq<usize>, leaders0: Seq<usize>, leaders1: Seq<usize>,
    se0: SuperEdges, se1: SuperEdges, se2: SuperEdges, se3: SuperEdges, src: usize, dst: usize)
    requires
        groups_ok(n, label0, leaders0),
        edges_kept(g, label0, leaders0, se0),
        leaders0.contains(src),
        leaders0.contains(dst),
        src != dst,
        label1.len() == n,
        forall|q: int| 0 <= q < n ==> #[trigger] label1[q] == if label0[q] == dst { src } else { label0[q] },
        forall|x: usize| #[trigger] leaders1.contains(x) <==> (leaders0.contains(x) && x != dst),
        se1.list@.dom() == se0.list@.dom(),
        forall|u: usize| u != src ==> #[trigger] se1.list@[u] == se0.list@[u],
        forall|x: usize| #[trigger] se1.bag(src).count(x) == if x == dst { 0 } else { se0.bag(src).count(x) },
        se2.list@.dom() == se1.list@.dom(),
        forall|u: usize| u != dst ==> #[trigger] se2.list@[u] == se1.list@[u],
        forall|x: usize| #[trigger] se2.bag(dst).count(x) == if x == src { 0 } else { se1.bag(dst).count(x) },
        forall|u: usize| #[trigger] se3.list@.contains_key(u) <==> (se2.list@.contains_key(u) && u != dst),
        forall|u: usize, x: usize| u != src && #[trigger] se3.list@.contains_key(u) ==>
            #[trigger] se3.bag(u).count(x) == redirected(se2.bag(u), dst, src, x),
        forall|x: usize| #[trigger] se3.bag(src).count(x) == redirected(se2.bag(src).add(se2.bag(dst)), dst, src, x),
        se3.list@.contains_key(src),
    ensures
        edges_kept(g, label1, leaders1, se3),
{
    assert forall|l: usize, m: usize| leaders1.contains(l) && leaders1.contains(m) && l != m && #[trigger] group_edge(g, label1, l, m)
        implies se3.list@.contains_key(l) && se3.bag(l).count(m) > 0 by {
        let (u, v) = choose|u: usize, v: usize| #![trigger g.has_edge(u, v)]
            1 <= u <= label1.len() && 1 <= v <= label1.len() && label1[u - 1] == l && label1[v - 1] == m && g.has_edge(u, v);
        let l0 = label0[u - 1];
        let m0 = label0[v - 1];
        assert(label1[u - 1] == if l0 == dst { src } else { l0 });
        assert(label1[v - 1] == if m0 == dst { src } else { m0 });
        assert(leaders0.contains(l0) && leaders0.contains(m0));
        assert(group_edge(g, label0, l0, m0));
        assert(l != dst && m != dst);
        assert(l0 != m0);
        assert(se0.list@.contains_key(l0) && se0.bag(l0).count(m0) > 0);
        if l != src {
            assert(l0 == l);
            assert(se2.list@[l] == se0.list@[l]);
            assert(se3.list@.contains_key(l));
            assert(se3.bag(l).count(m) == redirected(se2.bag(l), dst, src, m));
        } else {
            assert(m0 == m);
            assert(se2.bag(src).count(m) == se1.bag(src).count(m));
            assert(se2.bag(dst).count(m) == se1.bag(dst).count(m));
            assert(se1.list@[dst] == se0.list@[dst]);
            assert(se3.bag(src).count(m) == se2.bag(src).add(se2.bag(dst)).count(m));
        }
    }
}

/// Dropping edges from the bags of `src` and `dst` does not add to the
/// edges the bags hold.
proof fn lemma_drop_weight(n: nat, se0: SuperEdges, se1: SuperEdges, se2: SuperEdges, src: usize, dst: usize)
    requires
        se1.list@.dom() == se0.list@.dom(),
        forall|u: usize| u != src ==> #[trigger] se1.list@[u] == se0.list@[u],
        se1.bag(src).len() <= se0.bag(src).len(),
        se2.list@.dom() == se1.list@.dom(),
        forall|u: usize| u != dst ==> #[trigger] se2.list@[u] == se1.list@[u],
        se2.bag(dst).len() <= se1.bag(dst).len(),
    ensures
        sum_to(bag_weight(se2), n as int) <= sum_to(bag_weight(se0), n as int),
{
    let w0 = bag_weight(se0);
    let w1 = bag_weight(se1);
    let w2 = bag_weight(se2);
    assert forall|v: int| 1 <= v <= n implies #[trigger] w1(v) <= w0(v) by {}
    assert forall|v: int| 1 <= v <= n implies #[trigger] w2(v) <= w1(v) by {}
    lemma_sum_le(w1, w0, n as int);
    lemma_sum_le(w2, w1, n as int);
}

/// Merging the bag of `dst` into that of `src` keeps the number of edges
/// the bags hold.
proof fn lemma_move_weight(n: nat, se2: SuperEdges, se3: SuperEdges, src: usize, dst: usize)
    requires
        n < usize::MAX,
        1 <= src <= n,
        1 <= dst <= n,
        src != dst,
        se2.list@.contains_key(src),
        se2.list@.contains_key(dst),
        forall|u: usize| #[trigger] se3.list@.contains_key(u) <==> (se2.list@.contains_key(u) && u != dst),
        forall|u: usize| u != src && #[trigger] se3.list@.contains_key(u) ==> se3.bag(u).len() == se2.bag(u).len(),
        se3.bag(src).len() == se2.bag(src).len() + se2.bag(dst).len(),
    ensures
        sum_to(bag_weight(se3), n as int) == sum_to(bag_weight(se2), n as int),
{
    let w2 = bag_weight(se2);
    let w3 = bag_weight(se3);
    let wm = |v: int| if v == dst as int { 0nat } else { w2(v) };
    assert forall|v: int| 1 <= v <= n && v != dst as int implies #[trigger] wm(v) == w2(v) by {}
    lemma_sum_point(wm, w2, n as int, dst as int);
    assert forall|v: int| 1 <= v <= n && v != src as int implies #[trigger] w3(v) == wm(v) by {
        if v != dst as int && se3.list@.contains_key(v as usize) {
            assert(se3.bag(v as usize).len() == se2.bag(v as usize).len());
        }
    }
    lemma_sum_point(w3, wm, n as int, src as int);
}

impl Graph {
    /// One random contraction: merges the two ends of a random edge until
    /// two groups of nodes are left, and returns the edges between them.
    /// `None` where the graph has no edges, and where the contraction
    /// cannot go on before it gets to two groups: a group picked has no
    /// edges left, an edge leads to a group without edges of its own, or
    /// two groups hold more edges than a `usize` counts; and where a node of
    /// the first group left has no edge list. On a connected
    /// graph of two or more nodes whose edge lists hold at most `usize::MAX`
    /// edges in all, none of that happens: the result is always `Some`.
    pub fn contract_graph(&self) -> (r: Option<Graph>)
        requires
            labelled(*self),
            self.keys_are_nodes(),
            self.nodes@.len() < usize::MAX,
            forall|u: usize, k: int| 0 <= k < self.adj(u).len() ==> (#[trigger] self.adj(u)[k]).spec_node() != u,
        ensures
            self.edges@.len() == 0 ==> r is None,
            r is Some ==> exists|gs: Seq<usize>, gt: Seq<usize>|
                splits(self.nodes@, gs, gt) && #[trigger] crossing(*self, gs, gt, r->0),
            self.nodes@.len() >= 2 && connected(*self) && entries(*self, self.nodes@.len() as int) <= usize::MAX ==> r is Some,
    {
        proof {
            if self.nodes@.len() >= 2 && connected(*self) {
                lemma_has_edges(*self);
            }
        }
        if self.edges.len() == 0 {
            return None;
        }
        let n = self.nodes.len();
        let ghost nn = n as nat;
        let mut se = self.get_super_edges();
        let mut label = self.get_super_nodes();
        let mut leaders: Vec<usize> = Vec::new();
        let mut v: usize = 0;
        while v < n
            invariant
                v <= n,
                n < usize::MAX,
                leaders@.len() == v,
                forall|q: int| 0 <= q < v ==> #[trigger] leaders@[q] == q + 1,
            decreases n - v,
        {
            leaders.push(v + 1);
            v = v + 1;
        }
        proof {
            assert forall|a: int, b: int| 0 <= a < b < leaders@.len() implies #[trigger] leaders@[a] != #[trigger] leaders@[b] by {}
            assert forall|x: usize| #[trigger] leaders@.contains(x) <==> 1 <= x <= n by {
                if 1 <= x <= n {
                    assert(leaders@[x - 1] == x);
                }
            }
            assert forall|v: int| 1 <= v <= n implies leaders@.contains(#[trigger] label@[v - 1]) by {
                assert(label@[v - 1] == v);
            }
            assert(groups_ok(nn, label@, leaders@));
            assert forall|u: usize| #[trigger] se.list@.contains_key(u) implies leaders@.contains(u) by {
                assert(self.nodes@.contains(u));
            }
            assert forall|u: usize, x: usize| #[trigger] se.list@.contains_key(u) && #[trigger] se.bag(u).count(x) > 0 implies
                leaders@.contains(x) && x != u by {
                lemma_occurrences_positive(targets(*self, u), x);
                let k = choose|k: int| 0 <= k < targets(*self, u).len() && targets(*self, u)[k] == x;
                assert(self.adj(u)[k].spec_node() == x);
                assert(self.nodes@.contains(u));
                assert(self.nodes@.contains(x));
            }
            lemma_start_kept(*self, nn, label@, leaders@, se);
            lemma_entries_sum(*self, nn as int);
        }
        while leaders.len() > 2
            invariant
                n == self.nodes@.len(),
                nn == n,
                groups_ok(nn, label@, leaders@),
                bags_ok(se, leaders@),
                edges_kept(*self, label@, leaders@, se),
                sum_to(bag_weight(se), nn as int) <= entries(*self, nn as int),
                nn >= 2 ==> leaders@.len() >= 2,
                labelled(*self),
                self.keys_are_nodes(),
                nn < usize::MAX,
            decreases leaders@.len(),
        {
            proof {
                if nn >= 2 && connected(*self) {
                    lemma_groups_have_edges(*self, nn, label@, leaders@, se);
                }
            }
            if se.nodes.len() == 0 {
                return None;
            }
            let (src, dst) = match se.get_random_edge() {
                Some(e) => e,
                None => {
                    proof {
                        if nn >= 2 && connected(*self) {
                            let u = choose|u: usize| #[trigger] se.nodes@.contains(u) && se.bag(u).len() == 0;
                            assert(se.bag(u).len() > 0);
                        }
                    }
                    return None;
                },
            };
            proof {
                assert(se.list@.contains_key(src));
                if nn >= 2 && connected(*self) {
                    assert(leaders@.contains(dst));
                }
            }
            if !se.list.contains_key(&dst) {
                return None;
            }
            proof {
                assert(se.list@.contains_key(src));
                assert(leaders@.contains(src));
                assert(leaders@.contains(dst) && dst != src);
            }
            // the nodes of `dst`'s group join `src`'s
            let ghost label0 = label@;
            let mut q: usize = 0;
            while q < n
                invariant
                    q <= n,
                    label@.len() == n,
                    label0.len() == n,
                    forall|j: int| 0 <= j < q ==> #[trigger] label@[j] == if label0[j] == dst { src } else { label0[j] },
                    forall|j: int| q <= j < n ==> #[trigger] label@[j] == label0[j],
                decreases n - q,
            {
                if label[q] == dst {
                    label.set(q, src);
                }
                q = q + 1;
            }
            // `dst` no longer names a group
            let ghost leaders0 = leaders@;
            let mut j: usize = 0;
            while j < leaders.len() && leaders[j] != dst
                invariant
                    j <= leaders@.len(),
                    forall|q: int| 0 <= q < j ==> leaders@[q] != dst,
                decreases leaders@.len() - j,
            {
                j = j + 1;
            }
            proof {
                if j == leaders@.len() {
                    let q = choose|q: int| 0 <= q < leaders@.len() && leaders@[q] == dst;
                }
            }
            leaders.remove(j);
            proof {
                assert forall|x: usize| #[trigger] leaders@.contains(x) <==> (leaders0.contains(x) && x != dst) by {
                    if leaders@.contains(x) {
                        let q = choose|q: int| 0 <= q < leaders@.len() && leaders@[q] == x;
                        if q < j {
                            assert(leaders0[q] == x);
                        } else {
                            assert(leaders0[q + 1] == x);
                            assert(q + 1 != j);
                        }
                    }
                    if leaders0.contains(x) && x != dst {
                        let q = choose|q: int| 0 <= q < leaders0.len() && leaders0[q] == x;
                        assert(q != j);
                        if q < j {
                            assert(leaders@[q] == x);
                        } else {
                            assert(leaders@[q - 1] == x);
                        }
                    }
                }
                assert forall|a: int, b: int| 0 <= a < b < leaders@.len() implies #[trigger] leaders@[a] != #[trigger] leaders@[b] by {
                    let a0 = if a < j { a } else { a + 1 };
                    let b0 = if b < j { b } else { b + 1 };
                    assert(leaders@[a] == leaders0[a0] && leaders@[b] == leaders0[b0]);
                }
                lemma_merge_groups(nn, label0, label@, leaders0, leaders@, src, dst);
            }
            // the edges between the two groups go; the rest of `dst`'s join `src`'s
            let ghost se0 = se;
            se.remove_edge(src, dst);
            let ghost se1 = se;
            se.remove_edge(dst, src);
            let ghost se2 = se;
            let ls = match se.list.get(&src) {
                Some(b) => bag_len(b),
                None => 0,
            };
            let ld = match se.list.get(&dst) {
                Some(b) => bag_len(b),
                None => 0,
            };
            proof {
                let i = choose|i: int| 0 <= i < leaders0.len() && leaders0[i] == src;
                let j = choose|j: int| 0 <= j < leaders0.len() && leaders0[j] == dst;
                assert(1 <= src <= nn && 1 <= dst <= nn);
                lemma_drop_weight(nn, se0, se1, se2, src, dst);
                lemma_sum_two(bag_weight(se2), src as int, dst as int, nn as int);
                assert(bag_weight(se2)(src as int) == ls);
                assert(bag_weight(se2)(dst as int) == ld);
            }
            if ls > usize::MAX - ld {
                return None;
            }
            se.move_edges(dst, src);
            proof {
                lemma_merge_bags(se0, se1, se2, se, leaders0, leaders@, src, dst);
                lemma_merge_kept(*self, nn, label0, label@, leaders0, leaders@, se0, se1, se2, se, src, dst);
                lemma_move_weight(nn, se2, se, src, dst);
            }
        }
        if leaders.len() < 2 {
            return None;
        }
        let a = leaders[0];
        let b = leaders[1];
        let mut s: Vec<usize> = Vec::new();
        let mut t: Vec<usize> = Vec::new();
        let mut v: usize = 1;
        while v <= n
            invariant
                1 <= v <= n + 1,
                n < usize::MAX,
                n == self.nodes@.len(),
                nn == n,
                groups_ok(nn, label@, leaders@),
                leaders@.len() == 2,
                a == leaders@[0],
                b == leaders@[1],
                forall|q: int| 0 <= q < s@.len() ==> 1 <= #[trigger] s@[q] < v,
                forall|q: int| 0 <= q < t@.len() ==> 1 <= #[trigger] t@[q] < v,
                forall|p: int, q: int| 0 <= p < q < s@.len() ==> #[trigger] s@[p] < #[trigger] s@[q],
                forall|p: int, q: int| 0 <= p < q < t@.len() ==> #[trigger] t@[p] < #[trigger] t@[q],
                forall|x: usize| #[trigger] s@.contains(x) <==> (1 <= x < v && label@[x - 1] == a),
                forall|x: usize| #[trigger] t@.contains(x) <==> (1 <= x < v && label@[x - 1] != a),
            decreases n + 1 - v,
        {
            let ghost s0 = s@;
            let ghost t0 = t@;
            if label[v - 1] == a {
                s.push(v);
            } else {
                t.push(v);
            }
            proof {
                assert forall|x: usize| #[trigger] s@.contains(x) <==> (1 <= x < v + 1 && label@[x - 1] == a) by {
                    if s@.contains(x) {
                        let q = choose|q: int| 0 <= q < s@.len() && s@[q] == x;
                        if q < s0.len() {
                            assert(s0[q] == x);
                            assert(s0.contains(x));
                        }
                    }
                    if 1 <= x < v && label@[x - 1] == a {
                        assert(s0.contains(x));
                        let q = choose|q: int| 0 <= q < s0.len() && s0[q] == x;
                        assert(s@[q] == x);
                    }
                    if x == v && label@[x - 1] == a {
                        assert(s@[s0.len() as int] == x);
                    }
                }
                assert forall|x: usize| #[trigger] t@.contains(x) <==> (1 <= x < v + 1 && label@[x - 1] != a) by {
                    if t@.contains(x) {
                        let q = choose|q: int| 0 <= q < t@.len() && t@[q] == x;
                        if q < t0.len() {
                            assert(t0[q] == x);
                            assert(t0.contains(x));
                        }
                    }
                    if 1 <= x < v && label@[x - 1] != a {
                        assert(t0.contains(x));
                        let q = choose|q: int| 0 <= q < t0.len() && t0[q] == x;
                        assert(t@[q] == x);
                    }
                    if x == v && label@[x - 1] != a {
                        assert(t@[t0.len() as int] == x);
                    }
                }
            }
            v = v + 1;
        }
        proof {
            assert(leaders@.contains(a) && leaders@.contains(b));
            assert(a != b);
            assert(1 <= a <= n && label@[a - 1] == a);
            assert(1 <= b <= n && label@[b - 1] == b);
            assert(s@.contains(a));
            assert(t@.contains(b));
            assert forall|a2: int, b2: int| 0 <= a2 < b2 < s@.len() implies #[trigger] s@[a2] != #[trigger] s@[b2] by {}
            assert forall|a2: int, b2: int| 0 <= a2 < b2 < t@.len() implies #[trigger] t@[a2] != #[trigger] t@[b2] by {}
            assert forall|x: usize| #[trigger] self.nodes@.contains(x) <==> (s@.contains(x) || t@.contains(x)) by {
                if 1 <= x <= n {
                    lemma_all_nodes(self.nodes@, nn, x);
                }
            }
        }
        proof {
            assert forall|x: usize| !(#[trigger] s@.contains(x) && t@.contains(x)) by {}
        }
        // every node of the first group must have its edge list
        let mut q: usize = 0;
        let mut listed = true;
        while q < s.len()
            invariant
                q <= s@.len(),
                listed ==> forall|j: int| 0 <= j < q ==> self.edges@.contains_key(#[trigger] s@[j]),
                !listed ==> exists|j: int| 0 <= j < s@.len() && !self.edges@.contains_key(#[trigger] s@[j]),
            decreases s@.len() - q,
        {
            if !self.edges.contains_key(&s[q]) {
                listed = false;
                assert(!self.edges@.contains_key(s@[q as int]));
            }
            q = q + 1;
        }
        if !listed {
            proof {
                if nn >= 2 && connected(*self) {
                    let j = choose|j: int| 0 <= j < s@.len() && !self.edges@.contains_key(#[trigger] s@[j]);
                    let x = s@[j];
                    assert(s@.contains(x));
                    lemma_all_nodes(self.nodes@, nn, x);
                    lemma_node_listed(*self, x);
                }
            }
            return None;
        }
        proof {
            assert forall|x: usize| #[trigger] s@.contains(x) implies self.edges@.contains_key(x) by {
                let j = choose|j: int| 0 <= j < s@.len() && s@[j] == x;
            }
        }
        let cut = self.get_crossing_edges(&s, &t);
        proof {
            assert(splits(self.nodes@, s@, t@));
            assert(crossing(*self, s@, t@, cut));
        }
        let r = Some(cut);
        proof {
            assert(r->0 == cut);
            assert(crossing(*self, s@, t@, r->0));
            assert(exists|s2: Seq<usize>, t2: Seq<usize>| splits(self.nodes@, s2, t2) && #[trigger] crossing(*self, s2, t2, r->0));
        }
        r
    }
}

/// The edge from `a` to `b` is among those looked at: `a` in `pre`, or `a`
/// is `src` and the edge among its first `k`.
pub open spec fn looked_at(g: Graph, pre: Seq<usize>, src: usize, k: int, a: usize, b: usize) -> bool {
    ||| pre.contains(a) && g.has_edge(a, b)
    ||| a == src && super::scc::edge_within(g, src, b, k)
}

impl Graph {
    /// Every edge, both ways, each once.
    pub fn export_edges(&self) -> (r: Vec<Edge>)
        requires
            self.keys_are_nodes(),
        ensures
            distinct(r@),
            forall|a: usize, b: usize| #[trigger] r@.contains(Edge(a, b)) <==> (self.has_edge(a, b) || self.has_edge(b, a)),
    {
        let ghost g = *self;
        let mut r: Vec<Edge> = Vec::new();
        let mut i: usize = 0;
        while i < self.nodes.len()
            invariant
                g == *self,
                self.keys_are_nodes(),
                i <= self.nodes@.len(),
                distinct(r@),
                forall|a: usize, b: usize| #[trigger] r@.contains(Edge(a, b)) <==>
                    (looked_at(g, self.nodes@.take(i as int), 0, 0, a, b) || looked_at(g, self.nodes@.take(i as int), 0, 0, b, a)),
            decreases self.nodes@.len() - i,
        {
            let u = self.nodes[i];
            let ghost pre = self.nodes@.take(i as int);
            let ghost cur = self.nodes@.take(i as int + 1);
            proof {
                assert forall|x: usize| #[trigger] cur.contains(x) <==> (pre.contains(x) || x == u) by {
                    if cur.contains(x) {
                        let j = choose|j: int| 0 <= j < cur.len() && cur[j] == x;
                        if j < pre.len() {
                            assert(pre[j] == x);
                        }
                    }
                    if pre.contains(x) {
                        let j = choose|j: int| 0 <= j < pre.len() && pre[j] == x;
                        assert(cur[j] == x);
                    }
                    if x == u {
                        assert(cur[i as int] == x);
                    }
                }
                assert forall|a: usize, b: usize| #[trigger] looked_at(g, pre, u, 0, a, b) <==> looked_at(g, pre, 0, 0, a, b) by {
                    if super::scc::edge_within(g, u, b, 0) {
                        let m = choose|m: int| 0 <= m < 0 && m < g.adj(u).len() && (#[trigger] g.adj(u)[m]).spec_node() == b;
                    }
                    if super::scc::edge_within(g, 0, b, 0) {
                        let m = choose|m: int| 0 <= m < 0 && m < g.adj(0).len() && (#[trigger] g.adj(0)[m]).spec_node() == b;
                    }
                }
            }
            match self.edges.get(&u) {
                Some(list) => {
                    assert(list@ == g.adj(u));
                    let mut k: usize = 0;
                    while k < list.len()
                        invariant
                            list@ == g.adj(u),
                            k <= list@.len(),
                            distinct(r@),
                            forall|a: usize, b: usize| #[trigger] r@.contains(Edge(a, b)) <==>
                                (looked_at(g, pre, u, k as int, a, b) || looked_at(g, pre, u, k as int, b, a)),
                        decreases list@.len() - k,
                    {
                        let v = list[k].node();
                        proof {
                            assert(g.adj(u)[k as int].spec_node() == v);
                            assert forall|a: usize, b: usize| #[trigger] looked_at(g, pre, u, k + 1, a, b) <==>
                                (looked_at(g, pre, u, k as int, a, b) || (a == u && b == v)) by {
                                if super::scc::edge_within(g, u, b, k + 1) && b != v {
                                    let m = choose|m: int| 0 <= m < k + 1 && m < g.adj(u).len() && (#[trigger] g.adj(u)[m]).spec_node() == b;
                                    assert(m < k);
                                    assert(super::scc::edge_within(g, u, b, k as int));
                                }
                                if super::scc::edge_within(g, u, b, k as int) {
                                    let m = choose|m: int| 0 <= m < k && m < g.adj(u).len() && (#[trigger] g.adj(u)[m]).spec_node() == b;
                                    assert(super::scc::edge_within(g, u, b, k + 1));
                                }
                                if a == u && b == v {
                                    assert(super::scc::edge_within(g, u, b, k + 1));
                                }
                            }
                        }
                        push_new(&mut r, Edge(u, v));
                        push_new(&mut r, Edge(v, u));
                        k = k + 1;
                    }
                },
                None => {
                    assert(g.adj(u).len() == 0);
                },
            }
            proof {
                let n = g.adj(u).len() as int;
                assert forall|a: usize, b: usize| #[trigger] looked_at(g, cur, 0, 0, a, b) <==> looked_at(g, pre, u, n, a, b) by {
                    if a == u && g.has_edge(u, b) {
                        let m = choose|m: int| 0 <= m < g.adj(u).len() && (#[trigger] g.adj(u)[m]).spec_node() == b;
                        assert(super::scc::edge_within(g, u, b, n));
                    }
                    if a == u && super::scc::edge_within(g, u, b, n) {
                        let m = choose|m: int| 0 <= m < n && m < g.adj(u).len() && (#[trigger] g.adj(u)[m]).spec_node() == b;
                        assert(g.has_edge(u, b));
                    }
                    if super::scc::edge_within(g, 0, b, 0) {
                        let m = choose|m: int| 0 <= m < 0 && m < g.adj(0).len() && (#[trigger] g.adj(0)[m]).spec_node() == b;
                    }
                }
            }
            i = i + 1;
        }
        proof {
            assert(self.nodes@.take(self.nodes@.len() as int) =~= self.nodes@);
            assert forall|a: usize, b: usize| #[trigger] looked_at(g, self.nodes@, 0, 0, a, b) <==> g.has_edge(a, b) by {
                if g.has_edge(a, b) {
                    let m = choose|m: int| 0 <= m < g.adj(a).len() && (#[trigger] g.adj(a)[m]).spec_node() == b;
                    assert(g.edges@.contains_key(a));
                }
                if super::scc::edge_within(g, 0, b, 0) {
                    let m = choose|m: int| 0 <= m < 0 && m < g.adj(0).len() && (#[trigger] g.adj(0)[m]).spec_node() == b;
                }
            }
        }
        r
    }
}

/// Appends `e` unless it is there already.
fn push_new(r: &mut Vec<Edge>, e: Edge)
    requires
        distinct(old(r)@),
    ensures
        distinct(final(r)@),
        forall|x: Edge| #[trigger] final(r)@.contains(x) <==> (old(r)@.contains(x) || x == e),
{
    let mut k: usize = 0;
    while k < r.len()
        invariant
            k <= r@.len(),
            r@ == old(r)@,
            distinct(r@),
            forall|q: int| 0 <= q < k ==> r@[q] != e,
        decreases r@.len() - k,
    {
        if r[k] == e {
            proof {
                assert(r@.contains(e));
            }
            return;
        }
        k = k + 1;
    }
    let ghost r0 = r@;
    r.push(e);
    proof {
        super::lemma_push_to_set(r0, e);
        assert forall|x: Edge| #[trigger] r@.contains(x) <==> (r0.contains(x) || x == e) by {
            assert(r@.to_set().contains(x) == r@.contains(x));
            assert(r0.to_set().contains(x) == r0.contains(x));
        }
    }
}

} // verus!
