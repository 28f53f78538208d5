//! Reading a graph from adjacency lists in text: each line holds a node,
//! then the far ends of its edges, separated by a delimiter.
use vstd::prelude::*;
use crate::text::{find, reads, value, fields, lines, views, chars_of, split_lines, split_fields, read_value};
use super::{Graph, NodeType};

verus! {

/// The far end an edge field reads as: with `'\0'` a node; with `','` a node
/// and a cost, split at the first comma; `None` where the field does not
/// read, and for any other delimiter.
pub open spec fn read_edge(t: Seq<char>, edge_pat: char) -> Option<NodeType> {
    if edge_pat == '\0' {
        if reads(t) { Some(NodeType::N(value(t) as usize)) } else { None }
    } else if edge_pat == ',' {
        let k = find(t, ',', 0);
        if k >= t.len() {
            None
        } else {
            let a = t.subrange(0, k);
            let b = t.subrange(k + 1, t.len() as int);
            if reads(a) && reads(b) {
                Some(NodeType::NC(value(a) as usize, value(b) as usize))
            } else {
                None
            }
        }
    } else {
        None
    }
}

/// The node a line starts with.
pub open spec fn line_head(l: Seq<char>, node_pat: char) -> usize {
    value(fields(l, node_pat)[0]) as usize
}

/// The far end of the line's `k`-th edge field.
pub open spec fn line_edge(l: Seq<char>, node_pat: char, edge_pat: char, k: int) -> NodeType {
    read_edge(fields(l, node_pat)[k], edge_pat)->Some_0
}

/// The line starts with a node, and every further field reads as an edge.
pub open spec fn line_ok(l: Seq<char>, node_pat: char, edge_pat: char) -> bool {
    &&& reads(fields(l, node_pat)[0])
    &&& forall|k: int| 1 <= k < fields(l, node_pat).len() ==> #[trigger] read_edge(fields(l, node_pat)[k], edge_pat) is Some
}

/// Every line reads.
pub open spec fn text_graph_ok(ls: Seq<Seq<char>>, node_pat: char, edge_pat: char) -> bool {
    forall|i: int| 0 <= i < ls.len() ==> #[trigger] line_ok(ls[i], node_pat, edge_pat)
}

/// The edge field `(q, j)` comes before field `k` of line `i`.
pub open spec fn before(ls: Seq<Seq<char>>, node_pat: char, q: int, j: int, i: int, k: int) -> bool {
    &&& 0 <= q < ls.len()
    &&& 1 <= j < fields(ls[q], node_pat).len()
    &&& (q < i || (q == i && j < k))
}

/// The nodes the lines before line `i` start with.
pub open spec fn heads_upto(ls: Seq<Seq<char>>, node_pat: char, i: int) -> Set<usize> {
    Set::new(|u: usize| exists|q: int| 0 <= q < i && q < ls.len() && #[trigger] line_head(ls[q], node_pat) == u)
}

/// The far ends read for node `u` before field `k` of line `i`.
pub open spec fn edges_upto(ls: Seq<Seq<char>>, node_pat: char, edge_pat: char, u: usize, i: int, k: int) -> Set<NodeType> {
    Set::new(|e: NodeType| exists|q: int, j: int| #[trigger] before(ls, node_pat, q, j, i, k)
        && line_head(ls[q], node_pat) == u && #[trigger] line_edge(ls[q], node_pat, edge_pat, j) == e)
}

/// The nodes with an edge field before field `k` of line `i`.
pub open spec fn keys_upto(ls: Seq<Seq<char>>, node_pat: char, i: int, k: int) -> Set<usize> {
    Set::new(|u: usize| exists|q: int, j: int| #[trigger] before(ls, node_pat, q, j, i, k)
        && line_head(ls[q], node_pat) == u)
}

/// Reading one more edge field adds its far end to the line's node.
proof fn lemma_edges_step(ls: Seq<Seq<char>>, node_pat: char, edge_pat: char, u: usize, i: int, k: int)
    requires
        0 <= i < ls.len(),
        1 <= k < fields(ls[i], node_pat).len(),
    ensures
        edges_upto(ls, node_pat, edge_pat, u, i, k + 1) == if u == line_head(ls[i], node_pat) {
            edges_upto(ls, node_pat, edge_pat, u, i, k).insert(line_edge(ls[i], node_pat, edge_pat, k))
        } else {
            edges_upto(ls, node_pat, edge_pat, u, i, k)
        },
        keys_upto(ls, node_pat, i, k + 1) == keys_upto(ls, node_pat, i, k).insert(line_head(ls[i], node_pat)),
{
    let a = edges_upto(ls, node_pat, edge_pat, u, i, k + 1);
    let b = edges_upto(ls, node_pat, edge_pat, u, i, k);
    let x = line_edge(ls[i], node_pat, edge_pat, k);
    assert(before(ls, node_pat, i, k, i, k + 1));
    assert forall|e: NodeType| #[trigger] a.contains(e) implies b.contains(e) || (u == line_head(ls[i], node_pat) && e == x) by {
        let (q, j) = choose|q: int, j: int| #[trigger] before(ls, node_pat, q, j, i, k + 1)
            && line_head(ls[q], node_pat) == u && #[trigger] line_edge(ls[q], node_pat, edge_pat, j) == e;
        if !(q == i && j == k) {
            assert(before(ls, node_pat, q, j, i, k));
        }
    }
    assert forall|e: NodeType| #[trigger] b.contains(e) implies a.contains(e) by {
        let (q, j) = choose|q: int, j: int| #[trigger] before(ls, node_pat, q, j, i, k)
            && line_head(ls[q], node_pat) == u && #[trigger] line_edge(ls[q], node_pat, edge_pat, j) == e;
        assert(before(ls, node_pat, q, j, i, k + 1));
    }
    if u == line_head(ls[i], node_pat) {
        assert(a =~= b.insert(x));
    } else {
        assert(a =~= b);
    }
    let ka = keys_upto(ls, node_pat, i, k + 1);
    let kb = keys_upto(ls, node_pat, i, k);
    let h = line_head(ls[i], node_pat);
    assert forall|v: usize| #[trigger] ka.contains(v) implies kb.contains(v) || v == h by {
        let (q, j) = choose|q: int, j: int| #[trigger] before(ls, node_pat, q, j, i, k + 1)
            && line_head(ls[q], node_pat) == v;
        if !(q == i && j == k) {
            assert(before(ls, node_pat, q, j, i, k));
        }
    }
    assert forall|v: usize| #[trigger] kb.contains(v) implies ka.contains(v) by {
        let (q, j) = choose|q: int, j: int| #[trigger] before(ls, node_pat, q, j, i, k)
            && line_head(ls[q], node_pat) == v;
        assert(before(ls, node_pat, q, j, i, k + 1));
    }
    assert(ka.contains(h));
    assert(ka =~= kb.insert(h));
}

/// The end of a line is the start of the next.
proof fn lemma_next_line(ls: Seq<Seq<char>>, node_pat: char, edge_pat: char, i: int)
    requires
        0 <= i < ls.len(),
    ensures
        forall|u: usize| #[trigger] edges_upto(ls, node_pat, edge_pat, u, i + 1, 1)
            == edges_upto(ls, node_pat, edge_pat, u, i, fields(ls[i], node_pat).len() as int),
        keys_upto(ls, node_pat, i + 1, 1) == keys_upto(ls, node_pat, i, fields(ls[i], node_pat).len() as int),
        heads_upto(ls, node_pat, i + 1) == heads_upto(ls, node_pat, i).insert(line_head(ls[i], node_pat)),
{
    let n = fields(ls[i], node_pat).len() as int;
    assert forall|u: usize| #[trigger] edges_upto(ls, node_pat, edge_pat, u, i + 1, 1)
        == edges_upto(ls, node_pat, edge_pat, u, i, n) by {
        let a = edges_upto(ls, node_pat, edge_pat, u, i + 1, 1);
        let b = edges_upto(ls, node_pat, edge_pat, u, i, n);
        assert forall|e: NodeType| #[trigger] a.contains(e) implies b.contains(e) by {
            let (q, j) = choose|q: int, j: int| #[trigger] before(ls, node_pat, q, j, i + 1, 1)
                && line_head(ls[q], node_pat) == u && #[trigger] line_edge(ls[q], node_pat, edge_pat, j) == e;
            assert(before(ls, node_pat, q, j, i, n));
        }
        assert forall|e: NodeType| #[trigger] b.contains(e) implies a.contains(e) by {
            let (q, j) = choose|q: int, j: int| #[trigger] before(ls, node_pat, q, j, i, n)
                && line_head(ls[q], node_pat) == u && #[trigger] line_edge(ls[q], node_pat, edge_pat, j) == e;
            assert(before(ls, node_pat, q, j, i + 1, 1));
        }
        assert(a =~= b);
    }
    let ka = keys_upto(ls, node_pat, i + 1, 1);
    let kb = keys_upto(ls, node_pat, i, n);
    assert forall|v: usize| #[trigger] ka.contains(v) implies kb.contains(v) by {
        let (q, j) = choose|q: int, j: int| #[trigger] before(ls, node_pat, q, j, i + 1, 1)
            && line_head(ls[q], node_pat) == v;
        assert(before(ls, node_pat, q, j, i, n));
    }
    assert forall|v: usize| #[trigger] kb.contains(v) implies ka.contains(v) by {
        let (q, j) = choose|q: int, j: int| #[trigger] before(ls, node_pat, q, j, i, n)
            && line_head(ls[q], node_pat) == v;
        assert(before(ls, node_pat, q, j, i + 1, 1));
    }
    assert(ka =~= kb);
    let h = line_head(ls[i], node_pat);
    assert forall|v: usize| #[trigger] heads_upto(ls, node_pat, i + 1).contains(v)
        implies heads_upto(ls, node_pat, i).contains(v) || v == h by {
        let q = choose|q: int| 0 <= q < i + 1 && q < ls.len() && #[trigger] line_head(ls[q], node_pat) == v;
        if q < i {
            assert(heads_upto(ls, node_pat, i).contains(v));
        }
    }
    assert forall|v: usize| #[trigger] heads_upto(ls, node_pat, i).contains(v)
        implies heads_upto(ls, node_pat, i + 1).contains(v) by {
        let q = choose|q: int| 0 <= q < i && q < ls.len() && #[trigger] line_head(ls[q], node_pat) == v;
        assert(0 <= q < i + 1);
    }
    assert(heads_upto(ls, node_pat, i + 1).contains(h));
    assert(heads_upto(ls, node_pat, i + 1) =~= heads_upto(ls, node_pat, i).insert(h));
}

/// Reads the far end of an edge field.
fn parse_edge(t: &[char], edge_pat: char) -> (r: Option<NodeType>)
    ensures
        r == read_edge(t@, edge_pat),
{
    if edge_pat == '\0' {
        match read_value(t) {
            Some(n) => Some(NodeType::N(n)),
            None => None,
        }
    } else if edge_pat == ',' {
        let k = crate::text::find_char(t, ',', 0);
        if k >= t.len() {
            return None;
        }
        proof {
            crate::text::lemma_find(t@, ',', 0);
        }
        let a = crate::text::copy_range(t, 0, k);
        let b = crate::text::copy_range(t, k + 1, t.len());
        match (read_value(a.as_slice()), read_value(b.as_slice())) {
            (Some(x), Some(c)) => Some(NodeType::NC(x, c)),
            _ => None,
        }
    } else {
        None
    }
}

impl Graph {
    /// Reads a graph from adjacency lists given as text: each line holds a
    /// node and then the far ends of its edges, separated by `node_pat`;
    /// with `edge_pat` a comma, each far end is a node and a cost separated
    /// by it, and with `'\0'` a node alone.  The text must read so.
    pub fn import_text_graph(input: &str, node_pat: char, edge_pat: char) -> (g: Graph)
        requires
            text_graph_ok(lines(input@), node_pat, edge_pat),
        ensures
            ({
                let ls = lines(input@);
                &&& g.wf()
                &&& g.nodes@.to_set() == heads_upto(ls, node_pat, ls.len() as int)
                &&& g.edges@.dom() == keys_upto(ls, node_pat, ls.len() as int, 1)
                &&& forall|u: usize| #[trigger] g.adj(u).to_set() == edges_upto(ls, node_pat, edge_pat, u, ls.len() as int, 1)
            }),
    {
        match Graph::try_import_text_graph(input, node_pat, edge_pat) {
            Some(g) => g,
            None => {
                assert(false);
                Graph::new()
            },
        }
    }

    /// As `import_text_graph`, checking the text first: `None` where a
    /// field does not read as it should.
    pub fn try_import_text_graph(input: &str, node_pat: char, edge_pat: char) -> (r: Option<Graph>)
        ensures
            r is Some <==> text_graph_ok(lines(input@), node_pat, edge_pat),
            r matches Some(g) ==> {
                let ls = lines(input@);
                &&& g.wf()
                &&& g.nodes@.to_set() == heads_upto(ls, node_pat, ls.len() as int)
                &&& g.edges@.dom() == keys_upto(ls, node_pat, ls.len() as int, 1)
                &&& forall|u: usize| #[trigger] g.adj(u).to_set() == edges_upto(ls, node_pat, edge_pat, u, ls.len() as int, 1)
            },
    {
        let cs = chars_of(input);
        let ls = split_lines(cs.as_slice());
        let ghost lv = lines(input@);
        assert(forall|i: int| 0 <= i < ls@.len() ==> #[trigger] ls@[i]@ == lv[i]) by {
            assert(views(ls@) == lv);
        }
        assert(ls@.len() == lv.len()) by {
            assert(views(ls@).len() == ls@.len());
        }
        let mut g = Graph::new();
        proof {
            assert(g.nodes@.to_set() =~= heads_upto(lv, node_pat, 0));
            assert(g.edges@.dom() =~= keys_upto(lv, node_pat, 0, 1));
            assert forall|u: usize| #[trigger] g.adj(u).to_set() == edges_upto(lv, node_pat, edge_pat, u, 0, 1) by {
                assert(g.adj(u).to_set() =~= edges_upto(lv, node_pat, edge_pat, u, 0, 1));
            }
        }
        let mut i: usize = 0;
        while i < ls.len()
            invariant
                lv == lines(input@),
                ls@.len() == lv.len(),
                forall|q: int| 0 <= q < ls@.len() ==> #[trigger] ls@[q]@ == lv[q],
                i <= ls@.len(),
                forall|q: int| 0 <= q < i ==> #[trigger] line_ok(lv[q], node_pat, edge_pat),
                g.wf(),
                g.nodes@.to_set() == heads_upto(lv, node_pat, i as int),
                g.edges@.dom() == keys_upto(lv, node_pat, i as int, 1),
                forall|u: usize| #[trigger] g.adj(u).to_set() == edges_upto(lv, node_pat, edge_pat, u, i as int, 1),
            decreases ls@.len() - i,
        {
            let f = split_fields(ls[i].as_slice(), node_pat);
            let ghost fl = fields(lv[i as int], node_pat);
            assert(forall|k: int| 0 <= k < f@.len() ==> #[trigger] f@[k]@ == fl[k]) by {
                assert(views(f@) == fl);
            }
            assert(f@.len() == fl.len()) by {
                assert(views(f@).len() == f@.len());
            }
            let node = match read_value(f[0].as_slice()) {
                Some(n) => n,
                None => {
                    assert(!line_ok(lv[i as int], node_pat, edge_pat));
                    return None;
                },
            };
            assert(node == line_head(lv[i as int], node_pat));
            let ghost g1 = g;
            g.add_node(node);
            proof {
                lemma_next_line(lv, node_pat, edge_pat, i as int);
                assert forall|u: usize| #[trigger] g.adj(u).to_set() == edges_upto(lv, node_pat, edge_pat, u, i as int, 1) by {
                    assert(g.adj(u) == g1.adj(u));
                    assert(g1.adj(u).to_set() == edges_upto(lv, node_pat, edge_pat, u, i as int, 1));
                }
            }
            let mut k: usize = 1;
            while k < f.len()
                invariant
                    lv == lines(input@),
                    0 <= i < lv.len(),
                    fl == fields(lv[i as int], node_pat),
                    f@.len() == fl.len(),
                    forall|q: int| 0 <= q < f@.len() ==> #[trigger] f@[q]@ == fl[q],
                    node == line_head(lv[i as int], node_pat),
                    reads(fl[0]),
                    1 <= k <= f@.len(),
                    forall|j: int| 1 <= j < k ==> #[trigger] read_edge(fl[j], edge_pat) is Some,
                    g.wf(),
                    g.nodes@.to_set() == heads_upto(lv, node_pat, i + 1),
                    g.edges@.dom() == keys_upto(lv, node_pat, i as int, k as int),
                    forall|u: usize| #[trigger] g.adj(u).to_set() == edges_upto(lv, node_pat, edge_pat, u, i as int, k as int),
                decreases f@.len() - k,
            {
                let e = match parse_edge(f[k].as_slice(), edge_pat) {
                    Some(e) => e,
                    None => {
                        assert(!line_ok(lv[i as int], node_pat, edge_pat)) by {
                            assert(read_edge(fl[k as int], edge_pat) is None);
                        }
                        return None;
                    },
                };
                assert(e == line_edge(lv[i as int], node_pat, edge_pat, k as int));
                let ghost g0 = g;
                g.add_edge(node, e);
                proof {
                    lemma_edges_step(lv, node_pat, edge_pat, node, i as int, k as int);
                    assert forall|u: usize| #[trigger] g.adj(u).to_set() == edges_upto(lv, node_pat, edge_pat, u, i as int, k + 1) by {
                        lemma_edges_step(lv, node_pat, edge_pat, u, i as int, k as int);
                        if u != node {
                            assert(g.adj(u) == g0.adj(u));
                        }
                    }
                }
                k = k + 1;
            }
            assert(line_ok(lv[i as int], node_pat, edge_pat));
            proof {
                lemma_next_line(lv, node_pat, edge_pat, i as int);
            }
            i = i + 1;
        }
        Some(g)
    }
}

} // verus!
