//! Dynamic programming: change making, grid paths, knapsack and weighted
//! independent sets.
pub mod coin;
pub mod path;
pub mod wis;
pub mod knap;

use vstd::prelude::*;
use wis::{wis_table, lemma_wis_table_monotonic, picked_weight, independent};
use crate::text::{lines, reads, value, views, chars_of, split_lines, read_value};
use vstd::string::StringExecFns;

verus! {

/// A `1` for each position that is set, a `0` for each other.
pub open spec fn bit_chars(v: Seq<bool>) -> Seq<char> {
    Seq::new(v.len(), |i: int| if v[i] { '1' } else { '0' })
}

/// The positions written as a string of `1`s and `0`s.
pub fn wis_to_string(v: &[bool]) -> (r: String)
    ensures
        r@ == bit_chars(v@),
{
    let mut r = String::new();
    let mut k: usize = 0;
    while k < v.len()
        invariant
            k <= v@.len(),
            r@ == bit_chars(v@.take(k as int)),
        decreases v@.len() - k,
    {
        let ghost r0 = r@;
        proof {
            reveal_strlit("1");
            reveal_strlit("0");
        }
        if v[k] {
            r.append("1");
        } else {
            r.append("0");
        }
        k = k + 1;
        assert(r@ =~= bit_chars(v@.take(k as int)));
    }
    assert(v@.take(v@.len() as int) =~= v@);
    r
}

/// A list of numbers in text: a first line with a count `n`, then at least
/// `n` more lines, each one number; lines after those are not read.
pub open spec fn number_list_ok(ls: Seq<Seq<char>>) -> bool {
    &&& ls.len() > 0
    &&& reads(ls[0])
    &&& ls.len() > value(ls[0])
    &&& forall|k: int| 1 <= k <= value(ls[0]) ==> reads(#[trigger] ls[k])
}

/// Reads a list of numbers given as text: the count on the first line, then
/// one number per line.  `None` where the text is not such a list.
pub fn parse_graph(input: &str) -> (r: Option<Vec<usize>>)
    ensures
        r is Some <==> number_list_ok(lines(input@)),
        r matches Some(v) ==> v@.len() == value(lines(input@)[0])
            && forall|k: int| 0 <= k < v@.len() ==> #[trigger] v@[k] as nat == value(lines(input@)[k + 1]),
{
    let cs = chars_of(input);
    let ls = split_lines(cs.as_slice());
    let ghost lv = lines(input@);
    assert(forall|i: int| 0 <= i < ls@.len() ==> #[trigger] ls@[i]@ == lv[i]) by {
        assert(views(ls@) == lv);
    }
    assert(ls@.len() == lv.len()) by {
        assert(views(ls@).len() == ls@.len());
    }
    if ls.len() == 0 {
        return None;
    }
    let n = match read_value(ls[0].as_slice()) {
        Some(n) => n,
        None => {
            return None;
        },
    };
    let mut g: Vec<usize> = Vec::new();
    let mut k: usize = 0;
    while k < n
        invariant
            lv == lines(input@),
            k <= n,
            n as nat == value(lv[0]),
            reads(lv[0]),
            ls@.len() == lv.len(),
            forall|i: int| 0 <= i < ls@.len() ==> #[trigger] ls@[i]@ == lv[i],
            ls@.len() > k,
            g@.len() == k,
            forall|q: int| 1 <= q <= k ==> reads(#[trigger] lv[q]),
            forall|q: int| 0 <= q < k ==> #[trigger] g@[q] as nat == value(lv[q + 1]),
        decreases n - k,
    {
        if k + 1 >= ls.len() {
            return None;
        }
        let x = match read_value(ls[k + 1].as_slice()) {
            Some(x) => x,
            None => {
                return None;
            },
        };
        g.push(x);
        k = k + 1;
    }
    Some(g)
}

/// The positions that `extract` picks reading the table back from `i`: the
/// item before `i` when the table two steps back accounts for it, and the
/// first item whenever the walk reaches it.
pub open spec fn extracted(sol: Seq<usize>, set: Seq<usize>, i: int) -> Set<int>
    decreases i,
{
    if i < 2 {
        Set::empty()
    } else {
        let took = sol[i - 2] == sol[i] - set[i - 1];
        let i1 = if took { i - 2 } else { i - 1 };
        let s1 = if took { set![i - 1] } else { Set::empty() };
        if i1 == 1 {
            s1.insert(0)
        } else {
            s1.union(extracted(sol, set, i1))
        }
    }
}

/// Extracted positions lie before `i`.
proof fn lemma_extracted_bound(sol: Seq<usize>, set: Seq<usize>, i: int)
    ensures
        forall|k: int| #[trigger] extracted(sol, set, i).contains(k) ==> 0 <= k < i,
    decreases i,
{
    if i >= 2 {
        let took = sol[i - 2] == sol[i] - set[i - 1];
        let i1 = if took { i - 2 } else { i - 1 };
        lemma_extracted_bound(sol, set, i1);
        assert forall|k: int| #[trigger] extracted(sol, set, i).contains(k) implies 0 <= k < i by {
            if i1 != 1 && !(took && k == i - 1) {
                assert(extracted(sol, set, i1).contains(k));
            }
        }
    }
}

/// The positions read back from the table of heaviest weights are a
/// heaviest set: a choice that marks exactly the positions extracted before
/// `i` marks no two neighbours, and the weights it marks add up to
/// `wis_table(set, i)`.
pub proof fn lemma_extracted_heaviest(sol: Seq<usize>, set: Seq<usize>, i: int, pick: Seq<bool>)
    requires
        0 <= i <= set.len(),
        i != 1,
        sol.len() > i,
        forall|k: int| 0 <= k <= i ==> #[trigger] sol[k] == wis_table(set, k),
        forall|k: int| 0 <= k < i ==> #[trigger] pick[k] == extracted(sol, set, i).contains(k),
    ensures
        independent(pick, i),
        picked_weight(set, pick, i) == wis_table(set, i),
    decreases i,
{
    if i >= 2 {
        let took = sol[i - 2] == sol[i] - set[i - 1];
        let i1 = if took { i - 2 } else { i - 1 };
        let s1 = if took { set![i - 1] } else { Set::<int>::empty() };
        lemma_extracted_bound(sol, set, i1);
        assert(sol[i] == wis_table(set, i) && sol[i - 1] == wis_table(set, i - 1) && sol[i - 2] == wis_table(set, i - 2));
        assert(wis_table(set, 0) == 0);
        assert(picked_weight(set, pick, 0) == 0);
        if i1 == 1 {
            assert(extracted(sol, set, i) == s1.insert(0));
            assert(pick[0] == extracted(sol, set, i).contains(0));
            assert(pick[1] == extracted(sol, set, i).contains(1));
            assert(pick[0] && !pick[1]);
            if took {
                assert(pick[2] == extracted(sol, set, i).contains(2));
                assert(pick[2]);
                assert(sol[1] == wis_table(set, 1));
                assert(picked_weight(set, pick, 1) == set[0]);
                assert(picked_weight(set, pick, 2) == set[0]);
                assert(picked_weight(set, pick, 3) == set[0] + set[2]);
                assert(wis_table(set, 3) == set[0] + set[2]);
            } else {
                assert(picked_weight(set, pick, 1) == set[0]);
                assert(picked_weight(set, pick, 2) == set[0]);
                assert(wis_table(set, 2) == set[0]);
            }
        } else {
            assert(extracted(sol, set, i) == s1.union(extracted(sol, set, i1)));
            assert forall|k: int| 0 <= k < i1 implies #[trigger] pick[k] == extracted(sol, set, i1).contains(k) by {
                assert(pick[k] == extracted(sol, set, i).contains(k));
            }
            lemma_extracted_heaviest(sol, set, i1, pick);
            assert(pick[i - 1] == took) by {
                assert(pick[i - 1] == extracted(sol, set, i).contains(i - 1));
            }
            if took {
                assert(!pick[i - 2]) by {
                    assert(pick[i - 2] == extracted(sol, set, i).contains(i - 2));
                }
                assert(picked_weight(set, pick, i - 1) == picked_weight(set, pick, i - 2));
                assert(picked_weight(set, pick, i) == picked_weight(set, pick, i - 1) + set[i - 1]);
            } else {
                assert(picked_weight(set, pick, i) == picked_weight(set, pick, i - 1));
                assert(wis_table(set, i) == wis_table(set, i - 1));
            }
            assert forall|k: int| 0 <= k && k + 1 < i implies !(#[trigger] pick[k] && pick[k + 1]) by {
                if k + 1 < i1 {
                    assert(!(pick[k] && pick[k + 1]));
                }
            }
        }
    }
}

/// The heaviest weight of non-adjacent items, with the positions picked.
pub fn weight_independent_set(set: &[usize]) -> (res: (usize, Vec<bool>))
    requires
        set@.len() >= 2,
        set@.len() < usize::MAX,
        wis_table(set@, set@.len() as int) <= usize::MAX,
    ensures
        res.0 == wis_table(set@, set@.len() as int),
        res.1@.len() == set@.len(),
        forall|k: int| 0 <= k < set@.len() ==> res.1@[k] == extracted(
            Seq::new((set@.len() + 1) as nat, |i: int| wis_table(set@, i) as usize), set@, set@.len() as int).contains(k),
        independent(res.1@, set@.len() as int),
        picked_weight(set@, res.1@, set@.len() as int) == res.0,
{
    let n = set.len();
    let mut solution: Vec<usize> = Vec::new();
    solution.push(0);
    solution.push(set[0]);
    let mut i: usize = 2;
    while i <= n
        invariant
            n == set@.len(),
            n < usize::MAX,
            2 <= i <= n + 1,
            wis_table(set@, n as int) <= usize::MAX,
            solution@.len() == i,
            forall|k: int| 0 <= k < i ==> #[trigger] solution@[k] == wis_table(set@, k),
        decreases n + 1 - i,
    {
        proof {
            lemma_wis_table_monotonic(set@, i as int, n as int);
            lemma_wis_table_monotonic(set@, 0, i - 2);
        }
        let skip = solution[i - 1];
        let take = solution[i - 2] + set[i - 1];
        solution.push(if skip >= take { skip } else { take });
        i = i + 1;
    }
    proof {
        assert(solution@ =~= Seq::new((n + 1) as nat, |i: int| wis_table(set@, i) as usize));
        assert forall|k: int| 1 <= k < solution@.len() implies #[trigger] solution@[k] >= set@[k - 1] by {
            if k >= 2 {
                lemma_wis_table_monotonic(set@, 0, k - 2);
            }
        }
    }
    let w = solution[n];
    let positions = extract(&solution, set);
    proof {
        lemma_extracted_heaviest(solution@, set@, n as int, positions@);
    }
    (w, positions)
}

/// Reads back from the table of heaviest weights which positions were
/// picked.
pub fn extract(solution: &[usize], set: &[usize]) -> (p: Vec<bool>)
    requires
        solution@.len() == set@.len() + 1,
        set@.len() >= 2,
        forall|k: int| 1 <= k < solution@.len() ==> #[trigger] solution@[k] >= set@[k - 1],
    ensures
        p@.len() == set@.len(),
        forall|k: int| 0 <= k < p@.len() ==> p@[k] == extracted(solution@, set@, set@.len() as int).contains(k),
        (forall|k: int| 0 <= k < solution@.len() ==> #[trigger] solution@[k] == wis_table(set@, k)) ==> {
            &&& independent(p@, p@.len() as int)
            &&& picked_weight(set@, p@, p@.len() as int) == solution@[set@.len() as int]
        },
{
    let n = solution.len() - 1;
    let mut positions: Vec<bool> = Vec::new();
    let mut k: usize = 0;
    while k < n
        invariant
            k <= n,
            positions@.len() == k,
            forall|q: int| 0 <= q < k ==> !positions@[q],
        decreases n - k,
    {
        positions.push(false);
        k = k + 1;
    }
    let ghost goal = extracted(solution@, set@, n as int);
    let mut i: usize = n;
    while i > 0
        invariant
            n == set@.len(),
            n >= 2,
            solution@.len() == n + 1,
            forall|k: int| 1 <= k < solution@.len() ==> #[trigger] solution@[k] >= set@[k - 1],
            i <= n,
            i != 1,
            positions@.len() == n,
            forall|q: int| 0 <= q < i ==> (#[trigger] goal.contains(q) <==> extracted(solution@, set@, i as int).contains(q)),
            forall|q: int| i <= q < n ==> #[trigger] positions@[q] == goal.contains(q),
            forall|q: int| 0 <= q < i ==> !#[trigger] positions@[q],
        decreases i,
    {
        let ghost i0 = i as int;
        proof {
            lemma_extracted_bound(solution@, set@, i - 1);
            lemma_extracted_bound(solution@, set@, i - 2);
        }
        if solution[i - 2] == solution[i] - set[i - 1] {
            positions[i - 1] = true;
            i = i - 1;
        }
        i = i - 1;
        if i == 1 {
            positions[i - 1] = true;
            i = i - 1;
        }
        proof {
            let took = solution@[i0 - 2] == solution@[i0] - set@[i0 - 1];
            let i1 = if took { i0 - 2 } else { i0 - 1 };
            let s1 = if took { set![i0 - 1] } else { Set::<int>::empty() };
            lemma_extracted_bound(solution@, set@, i1);
            if i1 == 1 {
                assert(extracted(solution@, set@, i0) == s1.insert(0));
                assert(i == 0);
            } else {
                assert(extracted(solution@, set@, i0) == s1.union(extracted(solution@, set@, i1)));
                assert(i == i1);
            }
            assert forall|q: int| i <= q < n implies #[trigger] positions@[q] == goal.contains(q) by {
                if q < i0 {
                    assert(goal.contains(q) == extracted(solution@, set@, i0).contains(q));
                }
            }
            assert forall|q: int| 0 <= q < i implies (#[trigger] goal.contains(q) <==> extracted(solution@, set@, i as int).contains(q)) by {
                assert(goal.contains(q) == extracted(solution@, set@, i0).contains(q));
            }
        }
    }
    proof {
        if forall|k: int| 0 <= k < solution@.len() ==> #[trigger] solution@[k] == wis_table(set@, k) {
            lemma_extracted_heaviest(solution@, set@, n as int, positions@);
        }
    }
    positions
}

} // verus!
