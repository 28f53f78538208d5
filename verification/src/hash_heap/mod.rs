//! Pair and triple sums found with a hash map of the values seen so far.
use vstd::prelude::*;
use std::collections::HashMap;

verus! {

broadcast use vstd::std_specs::hash::group_hash_axioms;

/// The last index before `n` at which `s` holds `x`, or -1 if there is none.
pub open spec fn last_index(s: Seq<i64>, n: int, x: int) -> int
    decreases n,
{
    if n <= 0 {
        -1
    } else if s[n - 1] == x {
        n - 1
    } else {
        last_index(s, n - 1, x)
    }
}

/// For each `k < n` whose value closes a pair with an earlier index, the
/// pair `[j, k]` with `j` the last index before `k` that holds
/// `target - s[k]`; in increasing order of `k`.
pub open spec fn closing_pairs(s: Seq<i64>, target: int, n: int) -> Seq<Seq<i64>>
    decreases n,
{
    if n <= 0 {
        Seq::empty()
    } else {
        let j = last_index(s, n - 1, target - s[n - 1]);
        if j >= 0 {
            closing_pairs(s, target, n - 1).push(seq![j as i64, (n - 1) as i64])
        } else {
            closing_pairs(s, target, n - 1)
        }
    }
}

/// The indices before `n` at which `s` holds `x`, in increasing order.
pub open spec fn indices_of(s: Seq<i64>, n: int, x: int) -> Seq<i64>
    decreases n,
{
    if n <= 0 {
        Seq::empty()
    } else if s[n - 1] == x {
        indices_of(s, n - 1, x).push((n - 1) as i64)
    } else {
        indices_of(s, n - 1, x)
    }
}

/// The pair of indices `[j, k]`.
pub open spec fn index_pair(j: int, k: int) -> Seq<i64> {
    seq![j as i64, k as i64]
}

/// Each index of `js` paired with `k`, in the order of `js`.
pub open spec fn pairs_with(js: Seq<i64>, k: int) -> Seq<Seq<i64>> {
    js.map_values(|j: i64| seq![j, k as i64])
}

/// Every pair `[j, k]` with `j < k < n` whose values sum to `target`:
/// ordered by `k`, and for one `k` by `j`.
pub open spec fn pair_sums(s: Seq<i64>, target: int, n: int) -> Seq<Seq<i64>>
    decreases n,
{
    if n <= 0 {
        Seq::empty()
    } else {
        pair_sums(s, target, n - 1) + pairs_with(indices_of(s, n - 1, target - s[n - 1]), n - 1)
    }
}

/// `target - x` fits in an `i64` for every value `x` of `s`.
pub open spec fn differences_fit(s: Seq<i64>, target: int) -> bool {
    forall|k: int| 0 <= k < s.len() ==> i64::MIN <= target - #[trigger] s[k] <= i64::MAX
}

proof fn lemma_last_index(s: Seq<i64>, n: int, x: int)
    requires
        0 <= n <= s.len(),
    ensures
        -1 <= last_index(s, n, x) < n,
        last_index(s, n, x) >= 0 ==> s[last_index(s, n, x)] == x,
        forall|q: int| last_index(s, n, x) < q < n ==> s[q] != x,
    decreases n,
{
    if n > 0 {
        lemma_last_index(s, n - 1, x);
    }
}

/// The indices listed are those before `n` that hold `x`.
proof fn lemma_indices_of(s: Seq<i64>, n: int, x: int)
    requires
        0 <= n <= s.len(),
        s.len() <= i64::MAX,
    ensures
        forall|q: int| 0 <= q < indices_of(s, n, x).len() ==>
            0 <= #[trigger] indices_of(s, n, x)[q] < n && s[indices_of(s, n, x)[q] as int] == x,
        forall|j: int| 0 <= j < n && s[j] == x ==> #[trigger] indices_of(s, n, x).contains(j as i64),
    decreases n,
{
    if n > 0 {
        lemma_indices_of(s, n - 1, x);
        let prev = indices_of(s, n - 1, x);
        assert forall|j: int| 0 <= j < n && s[j] == x implies #[trigger] indices_of(s, n, x).contains(j as i64) by {
            if j < n - 1 {
                assert(prev.contains(j as i64));
                let q = choose|q: int| 0 <= q < prev.len() && prev[q] == j as i64;
                if s[n - 1] == x {
                    assert(indices_of(s, n, x)[q] == j as i64);
                }
            } else {
                assert(indices_of(s, n, x)[prev.len() as int] == j as i64);
            }
        }
    }
}

/// Every item is a pair `[j, k]`, `j < k < n`, whose values sum to
/// `target`; and every such pair is there.
proof fn lemma_pair_sums(s: Seq<i64>, target: int, n: int)
    requires
        0 <= n <= s.len(),
        s.len() <= i64::MAX,
    ensures
        forall|k: int| 0 <= k < pair_sums(s, target, n).len() ==> {
            let p = #[trigger] pair_sums(s, target, n)[k];
            &&& p.len() == 2
            &&& 0 <= p[0] < p[1] < n
            &&& s[p[0] as int] + s[p[1] as int] == target
        },
        forall|j: int, k: int| 0 <= j < k < n && s[j] + s[k] == target ==>
            #[trigger] pair_sums(s, target, n).contains(index_pair(j, k)),
    decreases n,
{
    if n > 0 {
        lemma_pair_sums(s, target, n - 1);
        let x = target - s[n - 1];
        lemma_indices_of(s, n - 1, x);
        let prev = pair_sums(s, target, n - 1);
        let js = indices_of(s, n - 1, x);
        let add = pairs_with(js, n - 1);
        assert(pair_sums(s, target, n) == prev + add);
        assert forall|k: int| 0 <= k < pair_sums(s, target, n).len() implies {
            let p = #[trigger] pair_sums(s, target, n)[k];
            &&& p.len() == 2
            &&& 0 <= p[0] < p[1] < n
            &&& s[p[0] as int] + s[p[1] as int] == target
        } by {
            if k < prev.len() {
                assert(pair_sums(s, target, n)[k] == prev[k]);
            } else {
                let q = k - prev.len();
                assert(pair_sums(s, target, n)[k] == add[q]);
                assert(add[q] == seq![js[q], (n - 1) as i64]);
            }
        }
        assert forall|j: int, k: int| 0 <= j < k < n && s[j] + s[k] == target implies
            #[trigger] pair_sums(s, target, n).contains(index_pair(j, k)) by {
            if k < n - 1 {
                assert(prev.contains(index_pair(j, k)));
                let q = choose|q: int| 0 <= q < prev.len() && prev[q] == index_pair(j, k);
                assert(pair_sums(s, target, n)[q] == index_pair(j, k));
            } else {
                assert(js.contains(j as i64));
                let q = choose|q: int| 0 <= q < js.len() && js[q] == j as i64;
                assert(add[q] == index_pair(j, k));
                assert(pair_sums(s, target, n)[prev.len() + q] == index_pair(j, k));
            }
        }
    }
}

/// Finds ALL pairs of indices whose values sum up to the target value:
/// every `[j, k]` with `j < k`, ordered by `k` and then by `j`.
pub fn two_sum_all(nums: &Vec<i64>, target: i64) -> (res: Vec<Vec<i64>>)
    requires
        nums@.len() <= i64::MAX,
        differences_fit(nums@, target as int),
    ensures
        res.deep_view() == pair_sums(nums@, target as int, nums@.len() as int),
        forall|q: int| 0 <= q < res.deep_view().len() ==> {
            let p = #[trigger] res.deep_view()[q];
            &&& p.len() == 2
            &&& 0 <= p[0] < p[1] < nums@.len()
            &&& nums@[p[0] as int] + nums@[p[1] as int] == target
        },
        forall|j: int, k: int| 0 <= j < k < nums@.len() && nums@[j] + nums@[k] == target ==>
            #[trigger] res.deep_view().contains(index_pair(j, k)),
{
    let mut map: HashMap<i64, Vec<i64>> = HashMap::new();
    let mut out: Vec<Vec<i64>> = Vec::new();
    let mut n: usize = 0;
    while n < nums.len()
        invariant
            n <= nums@.len(),
            nums@.len() <= i64::MAX,
            differences_fit(nums@, target as int),
            forall|x: i64| #[trigger] indices_of(nums@, n as int, x as int)
                == if map@.contains_key(x) { map@[x]@ } else { Seq::<i64>::empty() },
            out.deep_view() == pair_sums(nums@, target as int, n as int),
        decreases nums@.len() - n,
    {
        let b = nums[n];
        assert(i64::MIN <= target - nums@[n as int] <= i64::MAX);
        let ghost out0 = out.deep_view();
        let key: i64 = target - b;
        let ghost js = indices_of(nums@, n as int, key as int);
        proof {
            lemma_indices_of(nums@, n as int, key as int);
        }
        match map.get(&key) {
            Some(list) => {
                assert(list@ == js);
                let mut q: usize = 0;
                while q < list.len()
                    invariant
                        list@ == js,
                        n < nums@.len(),
                        q <= list@.len(),
                        out.deep_view() == out0 + pairs_with(js, n as int).take(q as int),
                    decreases list@.len() - q,
                {
                    let ghost before = out.deep_view();
                    let mut pair: Vec<i64> = Vec::new();
                    pair.push(list[q]);
                    pair.push(n as i64);
                    out.push(pair);
                    proof {
                        assert(pair.deep_view() =~= seq![js[q as int], n as i64]);
                        assert(out.deep_view() =~= before.push(pair.deep_view()));
                        assert(pairs_with(js, n as int).take(q + 1) =~= pairs_with(js, n as int).take(q as int).push(seq![js[q as int], n as i64]));
                    }
                    q = q + 1;
                }
                assert(pairs_with(js, n as int).take(list@.len() as int) =~= pairs_with(js, n as int));
            },
            None => {
                assert(js.len() == 0);
                assert(pairs_with(js, n as int) =~= Seq::<Seq<i64>>::empty());
                assert(out.deep_view() =~= out0 + pairs_with(js, n as int));
            },
        }
        assert(pair_sums(nums@, target as int, n + 1) == out0 + pairs_with(js, n as int));
        let ghost map0 = map@;
        let mut list = match map.remove(&b) {
            Some(l) => l,
            None => Vec::new(),
        };
        list.push(n as i64);
        map.insert(b, list);
        proof {
            assert forall|x: i64| #[trigger] indices_of(nums@, n + 1, x as int)
                == if map@.contains_key(x) { map@[x]@ } else { Seq::<i64>::empty() } by {
                assert(indices_of(nums@, n as int, x as int)
                    == if map0.contains_key(x) { map0[x]@ } else { Seq::<i64>::empty() });
            }
        }
        n = n + 1;
    }
    proof {
        lemma_pair_sums(nums@, target as int, nums@.len() as int);
    }
    out
}

/// Returns ONLY the first pair of indices whose values sum up to the target
/// value: the first index that closes a pair with an earlier one, and the
/// last earlier index holding the missing value.
pub fn two_sum(nums: &Vec<i64>, target: i64) -> (res: Option<Vec<i64>>)
    requires
        nums@.len() <= i64::MAX,
        differences_fit(nums@, target as int),
    ensures
        match res {
            Some(p) => closing_pairs(nums@, target as int, nums@.len() as int).len() > 0
                && p@ == closing_pairs(nums@, target as int, nums@.len() as int)[0],
            None => closing_pairs(nums@, target as int, nums@.len() as int).len() == 0,
        },
        res is None <==> forall|j: int, k: int| 0 <= j < k < nums@.len() ==> nums@[j] + nums@[k] != target,
        res matches Some(p) ==> {
            &&& p@.len() == 2
            &&& 0 <= p@[0] < p@[1] < nums@.len()
            &&& nums@[p@[0] as int] + nums@[p@[1] as int] == target
            &&& forall|j: int, k: int| 0 <= j < k < p@[1] ==> nums@[j] + nums@[k] != target
            &&& forall|q: int| p@[0] < q < p@[1] ==> #[trigger] nums@[q] != nums@[p@[0] as int]
        },
{
    proof {
        lemma_first_closing_pair(nums@, target as int, nums@.len() as int);
    }
    let mut map: HashMap<i64, i64> = HashMap::new();
    let mut n: usize = 0;
    while n < nums.len()
        invariant
            n <= nums@.len(),
            nums@.len() <= i64::MAX,
            differences_fit(nums@, target as int),
            forall|x: i64| #[trigger] map@.contains_key(x) <==> last_index(nums@, n as int, x as int) >= 0,
            forall|x: i64| map@.contains_key(x) ==> #[trigger] map@[x] == last_index(nums@, n as int, x as int),
            closing_pairs(nums@, target as int, n as int).len() == 0,
        decreases nums@.len() - n,
    {
        let b = nums[n];
        assert(i64::MIN <= target - nums@[n as int] <= i64::MAX);
        match map.get(&(target - b)) {
            Some(i) => {
                let i: i64 = *i;
                let mut pair: Vec<i64> = Vec::new();
                pair.push(i);
                pair.push(n as i64);
                proof {
                    lemma_pair_sums_prefix(nums@, target as int, n + 1, nums@.len() as int);
                    lemma_first_closing_pair(nums@, target as int, nums@.len() as int);
                    assert(pair@ =~= seq![i, n as i64]);
                }
                return Some(pair);
            },
            None => {
                map.insert(b, n as i64);
            },
        }
        n = n + 1;
    }
    None
}

/// The first pair `[j, k]` that closes is the answer to the two-sum
/// question: there is none exactly when no two indices `j < k` before `n`
/// hold values that sum to `target`; otherwise `k` is the least index that
/// closes such a pair, `j` an earlier index whose value sums with it to
/// `target`, and no index between them holds the value at `j`.
pub proof fn lemma_first_closing_pair(s: Seq<i64>, target: int, n: int)
    requires
        0 <= n <= s.len(),
        s.len() <= i64::MAX,
    ensures
        closing_pairs(s, target, n).len() == 0
            <==> forall|j: int, k: int| 0 <= j < k < n ==> s[j] + s[k] != target,
        closing_pairs(s, target, n).len() > 0 ==> {
            let p = closing_pairs(s, target, n)[0];
            &&& p.len() == 2
            &&& 0 <= p[0] < p[1] < n
            &&& s[p[0] as int] + s[p[1] as int] == target
            &&& forall|j: int, k: int| 0 <= j < k < p[1] ==> s[j] + s[k] != target
            &&& forall|q: int| p[0] < q < p[1] ==> #[trigger] s[q] != s[p[0] as int]
        },
    decreases n,
{
    if n > 0 {
        lemma_first_closing_pair(s, target, n - 1);
        let x = target - s[n - 1];
        lemma_last_index(s, n - 1, x);
        let j = last_index(s, n - 1, x);
        if closing_pairs(s, target, n - 1).len() > 0 {
            lemma_pair_sums_prefix(s, target, n - 1, n);
        } else if j >= 0 {
            let p = closing_pairs(s, target, n)[0];
            assert(p == seq![j as i64, (n - 1) as i64]);
            assert(p[0] == j && p[1] == n - 1);
        } else {
            assert forall|a: int, b: int| 0 <= a < b < n implies s[a] + s[b] != target by {
                if b == n - 1 {
                    assert(s[a] != x);
                }
            }
        }
    }
}

/// The pairs found up to `n` are a prefix of those found up to any later
/// point.
proof fn lemma_pair_sums_prefix(s: Seq<i64>, target: int, n: int, m: int)
    requires
        0 <= n <= m,
    ensures
        closing_pairs(s, target, n).len() <= closing_pairs(s, target, m).len(),
        forall|k: int| 0 <= k < closing_pairs(s, target, n).len() ==>
            #[trigger] closing_pairs(s, target, m)[k] == closing_pairs(s, target, n)[k],
    decreases m - n,
{
    if n < m {
        lemma_pair_sums_prefix(s, target, n, m - 1);
    }
}

/// The three values in ascending order.
pub open spec fn sorted3(a: i64, b: i64, c: i64) -> Seq<i64> {
    if a <= b {
        if b <= c { seq![a, b, c] } else if a <= c { seq![a, c, b] } else { seq![c, a, b] }
    } else {
        if a <= c { seq![b, a, c] } else if b <= c { seq![b, c, a] } else { seq![c, b, a] }
    }
}

/// Strict lexicographic order of triples.
pub open spec fn lex_less(x: Seq<i64>, y: Seq<i64>) -> bool {
    x[0] < y[0] || (x[0] == y[0] && (x[1] < y[1] || (x[1] == y[1] && x[2] < y[2])))
}

/// Every item is a triple, each smaller than the next.
pub open spec fn ascending_triples(s: Seq<Seq<i64>>) -> bool {
    &&& forall|a: int| 0 <= a < s.len() ==> (#[trigger] s[a]).len() == 3
    &&& forall|a: int, b: int| 0 <= a < b < s.len() ==> lex_less(#[trigger] s[a], #[trigger] s[b])
}

/// The `k`-th pair that sums to `-s[i]` uses neither index `i`.
pub open spec fn valid_pick(s: Seq<i64>, i: int, k: int) -> bool {
    let pairs = pair_sums(s, -s[i], s.len() as int);
    &&& 0 <= i < s.len()
    &&& 0 <= k < pairs.len()
    &&& pairs[k][0] != i
    &&& pairs[k][1] != i
}

/// The values of index `i` and of the `k`-th pair summing to `-s[i]`, in
/// ascending order.
pub open spec fn found_triple(s: Seq<i64>, i: int, k: int) -> Seq<i64> {
    let p = pair_sums(s, -s[i], s.len() as int)[k];
    sorted3(s[p[0] as int], s[p[1] as int], s[i])
}

/// `t` is found at index `i` and pair `k` that come before `(m, kk)`.
pub open spec fn found_before(s: Seq<i64>, t: Seq<i64>, m: int, kk: int) -> bool {
    exists|i: int, k: int| #![trigger found_triple(s, i, k)]
        valid_pick(s, i, k) && found_triple(s, i, k) == t && (i < m || (i == m && k < kk))
}

/// `t` is the ascending triple of the values at three distinct indices
/// that sum to zero.
pub open spec fn zero_triple(s: Seq<i64>, t: Seq<i64>) -> bool {
    exists|i: int, j: int, k: int| #![trigger sorted3(s[j], s[k], s[i])]
        0 <= i < s.len() && 0 <= j < k < s.len() && i != j && i != k
        && s[i] + s[j] + s[k] == 0 && t == sorted3(s[j], s[k], s[i])
}

/// The negation of each value, and `-x - y` for every two of them, fit in
/// an `i64`.
pub open spec fn sums_fit(s: Seq<i64>) -> bool {
    &&& forall|k: int| 0 <= k < s.len() ==> #[trigger] s[k] > i64::MIN
    &&& forall|k: int| 0 <= k < s.len() ==> differences_fit(s, -(#[trigger] s[k]))
}

/// A vector of integers is its own deep view.
proof fn lemma_deep_view_i64(v: Vec<i64>)
    ensures
        v.deep_view() == v@,
{
    assert(v.deep_view() =~= v@);
}

/// Whether `x` comes before `y` in strict lexicographic order.
fn lex_less_exec(x: &Vec<i64>, y: &Vec<i64>) -> (r: bool)
    requires
        x@.len() == 3,
        y@.len() == 3,
    ensures
        r == lex_less(x@, y@),
{
    x[0] < y[0] || (x[0] == y[0] && (x[1] < y[1] || (x[1] == y[1] && x[2] < y[2])))
}

/// The three values in ascending order, as a vector.
fn sort3(a: i64, b: i64, c: i64) -> (v: Vec<i64>)
    ensures
        v@ == sorted3(a, b, c),
{
    let (x, y, z) = if a <= b {
        if b <= c { (a, b, c) } else if a <= c { (a, c, b) } else { (c, a, b) }
    } else {
        if a <= c { (b, a, c) } else if b <= c { (b, c, a) } else { (c, b, a) }
    };
    let mut v: Vec<i64> = Vec::new();
    v.push(x);
    v.push(y);
    v.push(z);
    assert(v@ =~= sorted3(a, b, c));
    v
}

/// Inserts `t` into the ascending triples at its place, unless it is
/// already there.
fn insert_unique(out: &mut Vec<Vec<i64>>, t: Vec<i64>)
    requires
        t@.len() == 3,
        ascending_triples(old(out).deep_view()),
    ensures
        ascending_triples(final(out).deep_view()),
        forall|x: Seq<i64>| #[trigger] final(out).deep_view().contains(x) <==>
            (old(out).deep_view().contains(x) || x == t@),
{
    let ghost d0 = out.deep_view();
    proof {
        assert forall|a: int| 0 <= a < out@.len() implies (#[trigger] out@[a])@ == d0[a] by {
            lemma_deep_view_i64(out@[a]);
        }
    }
    let mut pos: usize = 0;
    while pos < out.len() && lex_less_exec(&out[pos], &t)
        invariant
            forall|a: int| 0 <= a < out@.len() ==> (#[trigger] out@[a])@ == d0[a],
            pos <= out@.len(),
            t@.len() == 3,
            out.deep_view() == d0,
            ascending_triples(d0),
            forall|a: int| 0 <= a < pos ==> lex_less(#[trigger] d0[a], t@),
        decreases out@.len() - pos,
    {
        assert(d0[pos as int] == out@[pos as int]@);
        pos = pos + 1;
    }
    if pos < out.len() {
        assert(d0[pos as int] == out@[pos as int]@);
        if out[pos][0] == t[0] && out[pos][1] == t[1] && out[pos][2] == t[2] {
            assert(d0[pos as int] =~= t@);
            return;
        }
    }
    let ghost tv = t@;
    proof {
        lemma_deep_view_i64(t);
    }
    out.insert(pos, t);
    proof {
        assert(out.deep_view() =~= d0.insert(pos as int, tv));
        assert forall|a: int, b: int| 0 <= a < b < out.deep_view().len() implies lex_less(
            #[trigger] out.deep_view()[a], #[trigger] out.deep_view()[b]) by {
            if a < pos && b > pos {
                assert(lex_less(d0[a], tv));
                assert(!lex_less(d0[pos as int], tv));
                assert(d0[pos as int] != tv);
            }
            if a == pos && b > pos {
                assert(!lex_less(d0[pos as int], tv));
                assert(d0[pos as int] != tv);
            }
        }
        assert forall|x: Seq<i64>| #[trigger] out.deep_view().contains(x) <==>
            (d0.contains(x) || x == tv) by {
            if d0.contains(x) {
                let a = choose|a: int| 0 <= a < d0.len() && d0[a] == x;
                if a < pos {
                    assert(out.deep_view()[a] == x);
                } else {
                    assert(out.deep_view()[a + 1] == x);
                }
            }
            if x == tv {
                assert(out.deep_view()[pos as int] == x);
            }
        }
    }
}

/// Finds every triple of values at three distinct positions that sum up to
/// zero, each once, in ascending order.
pub fn three_sum(nums: Vec<i64>) -> (res: Vec<Vec<i64>>)
    requires
        nums@.len() <= i64::MAX,
        sums_fit(nums@),
    ensures
        ascending_triples(res.deep_view()),
        forall|t: Seq<i64>| #[trigger] res.deep_view().contains(t) <==> zero_triple(nums@, t),
{
    let mut out: Vec<Vec<i64>> = Vec::new();
    let n = nums.len();
    let mut i: usize = 0;
    while i < n
        invariant
            n == nums@.len(),
            n <= i64::MAX,
            sums_fit(nums@),
            i <= n,
            ascending_triples(out.deep_view()),
            forall|t: Seq<i64>| #[trigger] out.deep_view().contains(t) <==> found_before(nums@, t, i as int, 0),
        decreases n - i,
    {
        let a = nums[i];
        assert(differences_fit(nums@, -nums@[i as int]));
        let pairs = two_sum_all(&nums, 0 - a);
        proof {
            lemma_pair_sums(nums@, -nums@[i as int], n as int);
        }
        let mut k: usize = 0;
        while k < pairs.len()
            invariant
                n == nums@.len(),
                n <= i64::MAX,
                i < n,
                a == nums@[i as int],
                k <= pairs@.len(),
                pairs.deep_view() == pair_sums(nums@, -nums@[i as int], n as int),
                forall|q: int| 0 <= q < pairs.deep_view().len() ==> {
                    let p = #[trigger] pairs.deep_view()[q];
                    &&& p.len() == 2
                    &&& 0 <= p[0] < p[1] < n
                },
                ascending_triples(out.deep_view()),
                forall|t: Seq<i64>| #[trigger] out.deep_view().contains(t) <==> found_before(nums@, t, i as int, k as int),
            decreases pairs@.len() - k,
        {
            let p = &pairs[k];
            assert(p@ == pairs.deep_view()[k as int]);
            let j0 = p[0];
            let j1 = p[1];
            if j0 != i as i64 && j1 != i as i64 {
                let t = sort3(nums[j0 as usize], nums[j1 as usize], a);
                let ghost d0 = out.deep_view();
                insert_unique(&mut out, t);
                proof {
                    assert(valid_pick(nums@, i as int, k as int));
                    assert(found_triple(nums@, i as int, k as int) == t@);
                    assert forall|x: Seq<i64>| #[trigger] out.deep_view().contains(x) <==>
                        found_before(nums@, x, i as int, k + 1) by {
                        if found_before(nums@, x, i as int, k + 1) && !found_before(nums@, x, i as int, k as int) {
                            let (i2, k2) = choose|i2: int, k2: int| #![trigger found_triple(nums@, i2, k2)]
                                valid_pick(nums@, i2, k2) && found_triple(nums@, i2, k2) == x
                                && (i2 < i || (i2 == i && k2 < k + 1));
                            assert(i2 == i && k2 == k);
                        }
                    }
                }
            } else {
                proof {
                    assert(!valid_pick(nums@, i as int, k as int));
                    assert forall|x: Seq<i64>| #[trigger] out.deep_view().contains(x) <==>
                        found_before(nums@, x, i as int, k + 1) by {
                        if found_before(nums@, x, i as int, k + 1) {
                            let (i2, k2) = choose|i2: int, k2: int| #![trigger found_triple(nums@, i2, k2)]
                                valid_pick(nums@, i2, k2) && found_triple(nums@, i2, k2) == x
                                && (i2 < i || (i2 == i && k2 < k + 1));
                            assert(found_before(nums@, x, i as int, k as int));
                        }
                    }
                }
            }
            k = k + 1;
        }
        proof {
            assert forall|x: Seq<i64>| #[trigger] out.deep_view().contains(x) <==>
                found_before(nums@, x, i + 1, 0) by {
                if found_before(nums@, x, i + 1, 0) {
                    let (i2, k2) = choose|i2: int, k2: int| #![trigger found_triple(nums@, i2, k2)]
                        valid_pick(nums@, i2, k2) && found_triple(nums@, i2, k2) == x && (i2 < i + 1);
                    assert(found_before(nums@, x, i as int, pairs@.len() as int));
                }
                if found_before(nums@, x, i as int, pairs@.len() as int) {
                    let (i2, k2) = choose|i2: int, k2: int| #![trigger found_triple(nums@, i2, k2)]
                        valid_pick(nums@, i2, k2) && found_triple(nums@, i2, k2) == x
                        && (i2 < i || (i2 == i && k2 < pairs@.len()));
                    assert(found_before(nums@, x, i + 1, 0));
                }
            }
        }
        i = i + 1;
    }
    proof {
        assert forall|x: Seq<i64>| #[trigger] out.deep_view().contains(x) <==> zero_triple(nums@, x) by {
            if zero_triple(nums@, x) {
                let (i, j, k) = choose|i: int, j: int, k: int| #![trigger sorted3(nums@[j], nums@[k], nums@[i])]
                    0 <= i < nums@.len() && 0 <= j < k < nums@.len() && i != j && i != k
                    && nums@[i] + nums@[j] + nums@[k] == 0 && x == sorted3(nums@[j], nums@[k], nums@[i]);
                lemma_pair_sums(nums@, -nums@[i], n as int);
                let pairs = pair_sums(nums@, -nums@[i], n as int);
                assert(pairs.contains(index_pair(j, k)));
                let q = choose|q: int| 0 <= q < pairs.len() && pairs[q] == index_pair(j, k);
                assert(valid_pick(nums@, i, q));
                assert(found_triple(nums@, i, q) == x);
                assert(found_before(nums@, x, n as int, 0));
            }
            if found_before(nums@, x, n as int, 0) {
                let (i2, k2) = choose|i2: int, k2: int| #![trigger found_triple(nums@, i2, k2)]
                    valid_pick(nums@, i2, k2) && found_triple(nums@, i2, k2) == x && (i2 < n || (i2 == n && k2 < 0));
                lemma_pair_sums(nums@, -nums@[i2], n as int);
                let p = pair_sums(nums@, -nums@[i2], n as int)[k2];
                let j = p[0] as int;
                let k = p[1] as int;
                assert(x == sorted3(nums@[j], nums@[k], nums@[i2]));
                assert(zero_triple(nums@, x));
            }
        }
    }
    out
}

} // verus!
