//! Change making: the fewest coins that add up to a sum, and every way of
//! paying it.
use vstd::prelude::*;
use std::collections::HashMap;
use crate::dp::path::total;
use crate::seqs::{sorted, sort_spec, lemma_sort_spec};
use crate::sort::quick::QuickSort;
use crate::order::lemma_usize_total_order;

verus! {

broadcast use vstd::std_specs::hash::group_hash_axioms;

/// The number of ordered ways to pay `sum`, one coin of the list at a time
/// (a coin listed twice counts twice).
pub open spec fn ways(sum: nat, coins: Seq<usize>) -> nat
    decreases sum, coins.len() + 1,
{
    if sum == 0 {
        1
    } else {
        ways_from(sum, coins, coins.len())
    }
}

/// The ways to pay `sum` whose first coin is one of the first `k` coins.
pub open spec fn ways_from(sum: nat, coins: Seq<usize>, k: nat) -> nat
    decreases sum, k,
{
    if k == 0 || k > coins.len() {
        0
    } else {
        ways_from(sum, coins, (k - 1) as nat) + if 0 < coins[k - 1] <= sum {
            ways((sum - coins[k - 1]) as nat, coins)
        } else {
            0
        }
    }
}

/// `t` pays `sum` with coins of the list.
pub open spec fn is_payment(t: Seq<usize>, sum: int, coins: Seq<usize>) -> bool {
    &&& forall|i: int| 0 <= i < t.len() ==> coins.contains(#[trigger] t[i])
    &&& total(t) == sum
}

/// `x` is, sorted, a payment of `sum` that follows the coins `stack`.
pub open spec fn combo_of(x: Seq<usize>, stack: Seq<usize>, sum: int, coins: Seq<usize>) -> bool {
    exists|t: Seq<usize>| is_payment(t, sum, coins) && x == sort_spec(#[trigger] (stack + t))
}

/// Like `combo_of`, for payments whose first coin is one of the first `k`.
spec fn combo_from(x: Seq<usize>, stack: Seq<usize>, sum: int, coins: Seq<usize>, k: int) -> bool {
    exists|j: int, t: Seq<usize>| #![trigger coins[j], is_payment(t, sum - coins[j], coins)]
        0 <= j < k && 0 < coins[j] <= sum && is_payment(t, sum - coins[j], coins)
        && x == sort_spec(stack + (seq![coins[j]] + t))
}

/// No item occurs twice.
pub open spec fn no_dups(s: Seq<Seq<usize>>) -> bool {
    forall|a: int, b: int| 0 <= a < b < s.len() ==> #[trigger] s[a] != #[trigger] s[b]
}


/// Among the first `k` coins no larger than `s`, the first whose value is
/// least, with that value.
pub open spec fn min_pick(s: nat, coins: Seq<usize>, k: nat) -> Option<(usize, nat)>
    decreases s, k,
{
    if k == 0 || k > coins.len() {
        None
    } else {
        let prev = min_pick(s, coins, (k - 1) as nat);
        let c = coins[k - 1];
        if c > s {
            prev
        } else {
            let v = if c == 0 { 1 } else { fewest((s - c) as nat, coins) + 1 };
            match prev {
                None => Some((c, v)),
                Some((pc, pv)) => if v < pv { Some((c, v)) } else { prev },
            }
        }
    }
}

/// The fewest coins that pay `s`, choosing at each amount the best first
/// coin.
pub open spec fn fewest(s: nat, coins: Seq<usize>) -> nat
    decreases s, coins.len() + 1,
{
    if s == 0 {
        0
    } else {
        match min_pick(s, coins, coins.len()) {
            Some((_, v)) => v,
            None => 0,
        }
    }
}

/// Paying any amount up to `sum`, one coin at a time, never gets stuck.
pub open spec fn solvable(sum: nat, coins: Seq<usize>) -> bool
    decreases sum,
{
    sum == 0 || (
        (exists|k: int| 0 <= k < coins.len() && #[trigger] coins[k] <= sum)
        && forall|k: int| 0 <= k < coins.len() && 0 < #[trigger] coins[k] <= sum
            ==> solvable((sum - coins[k]) as nat, coins))
}

/// The coins of a change table read back from `pos`: the coin chosen there,
/// then those chosen for what is left.
pub open spec fn walk_back(cs: Seq<usize>, pos: int) -> Seq<usize>
    decreases pos,
{
    if pos <= 0 || pos >= cs.len() || cs[pos] == 0 || cs[pos] > pos {
        Seq::empty()
    } else {
        seq![cs[pos]] + walk_back(cs, pos - cs[pos])
    }
}

/// A change table whose every chosen coin fits the amount it was chosen for.
pub open spec fn walkable(cs: Seq<usize>) -> bool {
    &&& cs.len() > 0
    &&& forall|pos: int| 1 <= pos < cs.len() ==> 1 <= #[trigger] cs[pos] <= pos
}

/// The value the first `k` coins can reach is at most that of all of them.
proof fn lemma_ways_from_le(sum: nat, coins: Seq<usize>, k: nat)
    requires
        k <= coins.len(),
    ensures
        ways_from(sum, coins, k) <= ways_from(sum, coins, coins.len()),
    decreases coins.len() - k,
{
    if k < coins.len() {
        lemma_ways_from_le(sum, coins, k + 1);
    }
}

/// A payment of a positive sum is a first coin and a payment of the rest.
proof fn lemma_combo_split(x: Seq<usize>, stack: Seq<usize>, sum: int, coins: Seq<usize>)
    requires
        sum > 0,
        forall|k: int| 0 <= k < coins.len() ==> coins[k] > 0,
    ensures
        combo_of(x, stack, sum, coins) == combo_from(x, stack, sum, coins, coins.len() as int),
{
    if combo_of(x, stack, sum, coins) {
        let t = choose|t: Seq<usize>| is_payment(t, sum, coins) && x == sort_spec(#[trigger] (stack + t));
        assert(t.len() > 0);
        assert(coins.contains(t[0]));
        let j = choose|j: int| 0 <= j < coins.len() && coins[j] == t[0];
        let rest = t.drop_first();
        assert(t =~= seq![t[0]] + rest);
        lemma_total_nonneg(rest);
        assert(is_payment(rest, sum - coins[j], coins)) by {
            assert forall|i: int| 0 <= i < rest.len() implies coins.contains(#[trigger] rest[i]) by {
                assert(rest[i] == t[i + 1]);
            }
        }
        assert(combo_from(x, stack, sum, coins, coins.len() as int));
    }
    if combo_from(x, stack, sum, coins, coins.len() as int) {
        let (j, t) = choose|j: int, t: Seq<usize>| #![trigger coins[j], is_payment(t, sum - coins[j], coins)]
            0 <= j < coins.len() && 0 < coins[j] <= sum && is_payment(t, sum - coins[j], coins)
            && x == sort_spec(stack + (seq![coins[j]] + t));
        let u = seq![coins[j]] + t;
        assert(u.drop_first() =~= t);
        assert(is_payment(u, sum, coins)) by {
            assert forall|i: int| 0 <= i < u.len() implies coins.contains(#[trigger] u[i]) by {
                if i > 0 {
                    assert(u[i] == t[i - 1]);
                }
            }
        }
        assert(combo_of(x, stack, sum, coins));
    }
}

/// The coins add up to a non-negative total.
proof fn lemma_total_nonneg(t: Seq<usize>)
    ensures
        total(t) >= 0,
    decreases t.len(),
{
    if t.len() > 0 {
        lemma_total_nonneg(t.drop_first());
    }
}

/// Only the empty payment pays nothing with positive coins.
proof fn lemma_combo_zero(x: Seq<usize>, stack: Seq<usize>, coins: Seq<usize>)
    requires
        forall|k: int| 0 <= k < coins.len() ==> coins[k] > 0,
    ensures
        combo_of(x, stack, 0, coins) == (x == sort_spec(stack)),
{
    if combo_of(x, stack, 0, coins) {
        let t = choose|t: Seq<usize>| is_payment(t, 0, coins) && x == sort_spec(#[trigger] (stack + t));
        if t.len() > 0 {
            assert(coins.contains(t[0]));
            lemma_total_nonneg(t.drop_first());
        }
        assert(stack + t =~= stack);
    }
    if x == sort_spec(stack) {
        let t = Seq::<usize>::empty();
        assert(stack + t =~= stack);
        assert(is_payment(t, 0, coins));
    }
}


/// The pick among the first `k` coins is one of them, no larger than `s`,
/// with its value.
proof fn lemma_min_pick_some(s: nat, coins: Seq<usize>, k: nat)
    requires
        k <= coins.len(),
    ensures
        min_pick(s, coins, k) matches Some((c, v)) ==> exists|j: int| 0 <= j < k && #[trigger] coins[j] == c
            && c <= s && v == (if c == 0 { 1 } else { fewest((s - c) as nat, coins) + 1 }),
        (exists|j: int| 0 <= j < k && #[trigger] coins[j] <= s) ==> min_pick(s, coins, k) is Some,
    decreases k,
{
    if k > 0 {
        lemma_min_pick_some(s, coins, (k - 1) as nat);
        if let Some((c, v)) = min_pick(s, coins, k) {
            if coins[k - 1] <= s && min_pick(s, coins, k) != min_pick(s, coins, (k - 1) as nat) {
                assert(coins[k - 1] == c);
            }
        }
        if exists|j: int| 0 <= j < k && #[trigger] coins[j] <= s {
            let j = choose|j: int| 0 <= j < k && #[trigger] coins[j] <= s;
            if j < k - 1 {
                assert(min_pick(s, coins, (k - 1) as nat) is Some);
            }
        }
    }
}

/// With positive coins, paying `s` never takes more than `s` coins.
proof fn lemma_fewest_le(s: nat, coins: Seq<usize>)
    requires
        solvable(s, coins),
        forall|k: int| 0 <= k < coins.len() ==> coins[k] > 0,
    ensures
        fewest(s, coins) <= s,
    decreases s,
{
    if s > 0 {
        lemma_min_pick_some(s, coins, coins.len());
        if let Some((c, v)) = min_pick(s, coins, coins.len()) {
            let j = choose|j: int| 0 <= j < coins.len() && #[trigger] coins[j] == c && c <= s
                && v == (if c == 0 { 1 } else { fewest((s - c) as nat, coins) + 1 });
            assert(coins[j] > 0);
            lemma_fewest_le((s - c) as nat, coins);
        }
    }
}

/// The least value picked among the first `k` coins is at most that of
/// any one of them that fits.
proof fn lemma_min_pick_least(s: nat, coins: Seq<usize>, k: nat, j: int)
    requires
        k <= coins.len(),
        0 <= j < k,
        0 < coins[j] <= s,
    ensures
        min_pick(s, coins, k) matches Some((_, v)) && v <= fewest((s - coins[j]) as nat, coins) + 1,
    decreases k,
{
    if j < k - 1 {
        lemma_min_pick_least(s, coins, (k - 1) as nat, j);
    }
}

/// No payment of `s` with positive coins uses fewer coins than `fewest`.
pub proof fn lemma_fewest_optimal(s: nat, coins: Seq<usize>, t: Seq<usize>)
    requires
        forall|k: int| 0 <= k < coins.len() ==> coins[k] > 0,
        is_payment(t, s as int, coins),
    ensures
        fewest(s, coins) <= t.len(),
    decreases t.len(),
{
    if s > 0 {
        assert(t.len() > 0);
        let c = t[0];
        assert(coins.contains(c));
        let j = choose|j: int| 0 <= j < coins.len() && coins[j] == c;
        let rest = t.drop_first();
        lemma_total_nonneg(rest);
        assert forall|i: int| 0 <= i < rest.len() implies coins.contains(#[trigger] rest[i]) by {
            assert(rest[i] == t[i + 1]);
        }
        assert(is_payment(rest, s - c, coins));
        lemma_fewest_optimal((s - c) as nat, coins, rest);
        lemma_min_pick_least(s, coins, coins.len(), j);
    }
}

/// Reading back a table of coins that fit gives coins that add up to the
/// amount, as many as the table's count for it, when each count is one
/// more than that of the amount left after its coin.
pub proof fn lemma_walk_back(cs: Seq<usize>, dp: Seq<usize>, pos: int)
    requires
        walkable(cs),
        dp.len() == cs.len(),
        dp[0] == 0,
        forall|s: int| 1 <= s < cs.len() ==> #[trigger] dp[s] == dp[s - cs[s]] + 1,
        0 <= pos < cs.len(),
    ensures
        total(walk_back(cs, pos)) == pos,
        walk_back(cs, pos).len() == dp[pos],
    decreases pos,
{
    if pos > 0 {
        assert(1 <= cs[pos] <= pos);
        lemma_walk_back(cs, dp, pos - cs[pos]);
        let w = walk_back(cs, pos);
        assert(w.drop_first() =~= walk_back(cs, pos - cs[pos]));
    }
}

/// Whether two vectors hold the same items.
fn same_items(a: &Vec<usize>, b: &Vec<usize>) -> (r: bool)
    ensures
        r == (a@ == b@),
{
    if a.len() != b.len() {
        return false;
    }
    let mut i: usize = 0;
    while i < a.len()
        invariant
            a@.len() == b@.len(),
            i <= a@.len(),
            forall|k: int| 0 <= k < i ==> a@[k] == b@[k],
        decreases a@.len() - i,
    {
        if a[i] != b[i] {
            return false;
        }
        i = i + 1;
    }
    assert(a@ =~= b@);
    true
}

/// A vector of integers is its own deep view.
proof fn lemma_deep_view_usize(v: Vec<usize>)
    ensures
        v.deep_view() == v@,
{
    assert(v.deep_view() =~= v@);
}

/// Adds `v` to the set unless it is there already.
fn insert_absent(set: &mut Vec<Vec<usize>>, v: Vec<usize>)
    requires
        no_dups(old(set).deep_view()),
    ensures
        no_dups(final(set).deep_view()),
        forall|x: Seq<usize>| #[trigger] final(set).deep_view().contains(x) <==>
            (old(set).deep_view().contains(x) || x == v@),
{
    let ghost d0 = set.deep_view();
    let mut i: usize = 0;
    while i < set.len()
        invariant
            set.deep_view() == d0,
            no_dups(d0),
            i <= set@.len(),
            forall|k: int| 0 <= k < i ==> d0[k] != v@,
        decreases set@.len() - i,
    {
        proof {
            lemma_deep_view_usize(set@[i as int]);
        }
        if same_items(&set[i], &v) {
            assert(d0[i as int] == v@);
            return;
        }
        i = i + 1;
    }
    proof {
        lemma_deep_view_usize(v);
    }
    let ghost vv = v@;
    set.push(v);
    proof {
        assert(set.deep_view() =~= d0.push(vv));
        assert forall|a: int, b: int| 0 <= a < b < set.deep_view().len() implies
            #[trigger] set.deep_view()[a] != #[trigger] set.deep_view()[b] by {
            if b == d0.len() {
                assert(d0[a] != vv);
            } else {
                assert(d0[a] != d0[b]);
            }
        }
        assert forall|x: Seq<usize>| #[trigger] set.deep_view().contains(x) <==> (d0.contains(x) || x == vv) by {
            if d0.contains(x) {
                let a = choose|a: int| 0 <= a < d0.len() && d0[a] == x;
                assert(set.deep_view()[a] == x);
            }
            if x == vv {
                assert(set.deep_view()[d0.len() as int] == x);
            }
        }
    }
}

/// Change making over a list of coins: a memo of the fewest coins per sum,
/// a table of the fewest coins and of the coin chosen per sum, the coins
/// paid so far, and the set of sorted payments found.
pub struct Coins {
    pub map: Option<HashMap<usize, usize>>,
    pub dp: Option<Vec<usize>>,
    pub coins: Option<Vec<usize>>,
    pub combos: Option<Vec<Vec<usize>>>,
}

impl Default for Coins {
    fn default() -> (c: Self)
        ensures
            c.map is Some && c.map.unwrap()@ == Map::<usize, usize>::empty(),
            c.dp is None,
            c.coins is Some && c.coins.unwrap()@ == Seq::<usize>::empty(),
            c.combos is Some && c.combos.unwrap()@ == Seq::<Vec<usize>>::empty(),
    {
        Coins { map: Some(HashMap::new()), dp: None, coins: Some(Vec::new()), combos: Some(Vec::new()) }
    }
}

impl Coins {
    /// Builds the table of the fewest coins for every amount up to `sum`,
    /// with the first best coin chosen for each.
    pub fn iterative(sum: usize, coins: &[usize]) -> (r: Coins)
        requires
            sum < usize::MAX,
            sum == 0 || exists|k: int| 0 <= k < coins@.len() && #[trigger] coins@[k] <= 1,
        ensures
            r.map is None,
            r.combos is None,
            r.dp is Some,
            r.coins is Some,
            r.dp.unwrap()@.len() == sum + 1,
            r.coins.unwrap()@.len() == sum + 1,
            r.dp.unwrap()@[0] == 0,
            forall|s: int| 1 <= s <= sum ==> min_pick(s as nat, coins@, coins@.len())
                == Some((#[trigger] r.coins.unwrap()@[s], r.dp.unwrap()@[s] as nat)),
            forall|s: int| 1 <= s <= sum ==> #[trigger] r.dp.unwrap()@[s] == fewest(s as nat, coins@),
            (forall|k: int| 0 <= k < coins@.len() ==> coins@[k] > 0) ==> {
                &&& walkable(r.coins.unwrap()@)
                &&& forall|s: int| 1 <= s <= sum ==> #[trigger] r.dp.unwrap()@[s]
                    == r.dp.unwrap()@[s - r.coins.unwrap()@[s]] + 1
            },
    {
        let mut dp: Vec<usize> = Vec::new();
        let mut cs: Vec<usize> = Vec::new();
        let mut i: usize = 0;
        while i <= sum
            invariant
                sum < usize::MAX,
                i <= sum + 1,
                dp@.len() == i,
                cs@.len() == i,
                forall|t: int| 0 <= t < i ==> dp@[t] == 0 && cs@[t] == 0,
            decreases sum + 1 - i,
        {
            dp.push(0);
            cs.push(0);
            i = i + 1;
        }
        let mut s: usize = 1;
        while s <= sum
            invariant
                sum < usize::MAX,
                1 <= s <= sum + 1,
                sum == 0 || exists|k: int| 0 <= k < coins@.len() && #[trigger] coins@[k] <= 1,
                dp@.len() == sum + 1,
                cs@.len() == sum + 1,
                dp@[0] == 0,
                forall|t: int| s <= t <= sum ==> #[trigger] dp@[t] == 0,
                forall|t: int| 1 <= t < s ==> #[trigger] dp@[t] <= t,
                forall|t: int| 1 <= t < s ==> min_pick(t as nat, coins@, coins@.len())
                    == Some((#[trigger] cs@[t], dp@[t] as nat)),
                forall|t: int| 1 <= t < s ==> (exists|j: int| 0 <= j < coins@.len() && #[trigger] coins@[j] == cs@[t])
                    && cs@[t] <= t,
            decreases sum + 1 - s,
        {
            let mut best: Option<(usize, usize)> = None;
            let mut k: usize = 0;
            while k < coins.len()
                invariant
                    sum < usize::MAX,
                    1 <= s <= sum,
                    k <= coins@.len(),
                    dp@.len() == sum + 1,
                    cs@.len() == sum + 1,
                    dp@[0] == 0,
                    dp@[s as int] == 0,
                    forall|t: int| 1 <= t < s ==> #[trigger] dp@[t] <= t,
                    forall|t: int| 1 <= t < s ==> min_pick(t as nat, coins@, coins@.len())
                        == Some((#[trigger] cs@[t], dp@[t] as nat)),
                    best is None <==> min_pick(s as nat, coins@, k as nat) is None,
                    best matches Some((c, v)) ==> min_pick(s as nat, coins@, k as nat) == Some((c, v as nat))
                        && v <= s && c <= s && exists|j: int| 0 <= j < k && #[trigger] coins@[j] == c,
                decreases coins@.len() - k,
            {
                let c = coins[k];
                if s >= c {
                    proof {
                        assert(coins@[k as int] == c);
                        if c > 0 && s - c >= 1 {
                            assert(min_pick((s - c) as nat, coins@, coins@.len())
                                == Some((cs@[s - c], dp@[s - c] as nat)));
                            assert(fewest((s - c) as nat, coins@) == dp@[s - c]);
                        }
                        if c > 0 && s - c == 0 {
                            assert(fewest(0, coins@) == 0);
                        }
                    }
                    let v = dp[s - c] + 1;
                    match best {
                        None => {
                            best = Some((c, v));
                        },
                        Some((_, pv)) => {
                            if v < pv {
                                best = Some((c, v));
                            }
                        },
                    }
                }
                k = k + 1;
            }
            proof {
                lemma_min_pick_some(s as nat, coins@, coins@.len());
            }
            let (c, v) = best.unwrap();
            cs[s] = c;
            dp[s] = v;
            s = s + 1;
        }
        proof {
            assert forall|t: int| 1 <= t <= sum implies #[trigger] dp@[t] == fewest(t as nat, coins@) by {
                assert(min_pick(t as nat, coins@, coins@.len()) == Some((cs@[t], dp@[t] as nat)));
            }
            if forall|k: int| 0 <= k < coins@.len() ==> coins@[k] > 0 {
                assert forall|t: int| 1 <= t <= sum implies #[trigger] dp@[t] == dp@[t - cs@[t]] + 1 by {
                    assert(min_pick(t as nat, coins@, coins@.len()) == Some((cs@[t], dp@[t] as nat)));
                    lemma_min_pick_some(t as nat, coins@, coins@.len());
                    let j = choose|j: int| 0 <= j < coins@.len() && #[trigger] coins@[j] == cs@[t];
                    assert(coins@[j] > 0);
                    if t - cs@[t] >= 1 {
                        assert(min_pick((t - cs@[t]) as nat, coins@, coins@.len())
                            == Some((cs@[t - cs@[t]], dp@[t - cs@[t]] as nat)));
                    }
                }
                assert forall|t: int| 1 <= t < cs@.len() implies 1 <= #[trigger] cs@[t] <= t by {
                    let j = choose|j: int| 0 <= j < coins@.len() && #[trigger] coins@[j] == cs@[t];
                    assert(coins@[j] > 0);
                }
            }
        }
        Coins { map: None, dp: Some(dp), coins: Some(cs), combos: None }
    }

    /// The fewest coins for the largest amount of the table, or 0 without a
    /// table.
    pub fn get_coins_num(&self) -> (n: usize)
        requires
            self.dp matches Some(dp) ==> dp@.len() > 0,
        ensures
            n == match self.dp {
                Some(dp) => dp@.last(),
                None => 0usize,
            },
    {
        match &self.dp {
            Some(dp) => dp[dp.len() - 1],
            None => 0,
        }
    }

    /// The coins chosen for the largest amount of the table, read back
    /// amount by amount.
    pub fn get_coins(&self) -> (v: Vec<usize>)
        requires
            self.coins matches Some(cs) ==> walkable(cs@),
        ensures
            v@ == match self.coins {
                Some(cs) => walk_back(cs@, cs@.len() - 1),
                None => Seq::<usize>::empty(),
            },
    {
        let mut output: Vec<usize> = Vec::new();
        match &self.coins {
            Some(coins) => {
                let ghost cs = coins@;
                let mut pos: usize = coins.len() - 1;
                let ghost goal = walk_back(cs, pos as int);
                while pos > 0
                    invariant
                        cs == coins@,
                        walkable(cs),
                        pos < cs.len(),
                        output@ + walk_back(cs, pos as int) == goal,
                    decreases pos,
                {
                    let c = coins[pos];
                    output.push(c);
                    pos = pos - c;
                    assert(output@ + walk_back(cs, pos as int) =~= goal);
                }
                assert(output@ =~= goal);
            },
            None => {},
        }
        output
    }

    /// The fewest coins that pay `sum`, remembering the answer for every
    /// amount it works out.
    pub fn recursive(&mut self, sum: usize, coins: &[usize]) -> (n: usize)
        requires
            old(self).map is Some,
            forall|k: int| 0 <= k < coins@.len() ==> coins@[k] > 0,
            solvable(sum as nat, coins@),
            forall|k: usize| #[trigger] old(self).map.unwrap()@.contains_key(k)
                ==> old(self).map.unwrap()@[k] == fewest(k as nat, coins@),
        ensures
            n == fewest(sum as nat, coins@),
            final(self).map is Some,
            forall|k: usize| #[trigger] final(self).map.unwrap()@.contains_key(k)
                ==> final(self).map.unwrap()@[k] == fewest(k as nat, coins@),
            final(self).dp == old(self).dp,
            final(self).coins == old(self).coins,
            final(self).combos == old(self).combos,
        decreases sum,
    {
        if sum == 0 {
            return 0;
        }
        match &self.map {
            Some(m) => {
                match m.get(&sum) {
                    Some(b) => {
                        return *b;
                    },
                    None => {},
                }
            },
            None => {},
        }
        proof {
            lemma_min_pick_some(sum as nat, coins@, coins@.len());
        }
        let mut best: Option<usize> = None;
        let mut k: usize = 0;
        while k < coins.len()
            invariant
                0 < sum,
                k <= coins@.len(),
                forall|j: int| 0 <= j < coins@.len() ==> coins@[j] > 0,
                solvable(sum as nat, coins@),
                self.map is Some,
                forall|q: usize| #[trigger] self.map.unwrap()@.contains_key(q)
                    ==> self.map.unwrap()@[q] == fewest(q as nat, coins@),
                best is None <==> min_pick(sum as nat, coins@, k as nat) is None,
                best matches Some(v) ==> min_pick(sum as nat, coins@, k as nat) matches Some((_, w)) && v == w && v <= sum,
                self.dp == old(self).dp,
                self.coins == old(self).coins,
                self.combos == old(self).combos,
            decreases coins@.len() - k,
        {
            let c = coins[k];
            if sum >= c {
                proof {
                    assert(coins@[k as int] == c);
                    lemma_fewest_le((sum - c) as nat, coins@);
                }
                let r = self.recursive(sum - c, coins);
                let v = r + 1;
                match best {
                    None => {
                        best = Some(v);
                    },
                    Some(pv) => {
                        if v < pv {
                            best = Some(v);
                        }
                    },
                }
            }
            k = k + 1;
        }
        let best = best.unwrap();
        let mut m = self.map.take().unwrap();
        m.insert(sum, best);
        self.map = Some(m);
        best
    }

    /// Counts the ordered ways to pay `sum`, and adds to the set of
    /// payments each one, after the coins paid so far, sorted.
    pub fn combinations(&mut self, sum: usize, coins: &[usize]) -> (n: usize)
        requires
            old(self).coins is Some,
            old(self).combos is Some,
            no_dups(old(self).combos.unwrap().deep_view()),
            forall|k: int| 0 <= k < coins@.len() ==> coins@[k] > 0,
            ways(sum as nat, coins@) <= usize::MAX,
        ensures
            n == ways(sum as nat, coins@),
            final(self).coins is Some,
            final(self).coins.unwrap()@ == old(self).coins.unwrap()@,
            final(self).combos is Some,
            no_dups(final(self).combos.unwrap().deep_view()),
            forall|x: Seq<usize>| #[trigger] final(self).combos.unwrap().deep_view().contains(x) <==>
                (old(self).combos.unwrap().deep_view().contains(x)
                || combo_of(x, old(self).coins.unwrap()@, sum as int, coins@)),
            final(self).map == old(self).map,
            final(self).dp == old(self).dp,
        decreases sum,
    {
        proof {
            lemma_usize_total_order();
        }
        let ghost stack = self.coins.unwrap()@;
        if sum == 0 {
            let mut sol = self.coins.as_ref().unwrap().clone();
            assert(sol@ =~= stack);
            sol.as_mut_slice().quick_sort();
            proof {
                lemma_sort_spec(stack, sol@);
            }
            let mut combos = self.combos.take().unwrap();
            insert_absent(&mut combos, sol);
            self.combos = Some(combos);
            proof {
                assert forall|x: Seq<usize>| #[trigger] combo_of(x, stack, 0, coins@) == (x == sort_spec(stack)) by {
                    lemma_combo_zero(x, stack, coins@);
                }
            }
            return 1;
        }
        let ghost c0 = self.combos.unwrap().deep_view();
        let mut count: usize = 0;
        let mut k: usize = 0;
        while k < coins.len()
            invariant
                0 < sum,
                k <= coins@.len(),
                forall|j: int| 0 <= j < coins@.len() ==> coins@[j] > 0,
                ways(sum as nat, coins@) <= usize::MAX,
                ways(sum as nat, coins@) == ways_from(sum as nat, coins@, coins@.len()),
                count == ways_from(sum as nat, coins@, k as nat),
                self.coins is Some,
                self.coins.unwrap()@ == stack,
                self.combos is Some,
                no_dups(self.combos.unwrap().deep_view()),
                forall|x: Seq<usize>| #[trigger] self.combos.unwrap().deep_view().contains(x) <==>
                    (c0.contains(x) || combo_from(x, stack, sum as int, coins@, k as int)),
                self.map == old(self).map,
                self.dp == old(self).dp,
            decreases coins@.len() - k,
        {
            let c = coins[k];
            proof {
                lemma_ways_from_le(sum as nat, coins@, (k + 1) as nat);
            }
            if sum >= c {
                let ghost cb = self.combos.unwrap().deep_view();
                let mut st = self.coins.take().unwrap();
                st.push(c);
                self.coins = Some(st);
                let r = self.combinations(sum - c, coins);
                let mut st = self.coins.take().unwrap();
                st.pop();
                self.coins = Some(st);
                count = count + r;
                proof {
                    assert(self.coins.unwrap()@ =~= stack);
                    assert forall|x: Seq<usize>| #[trigger] self.combos.unwrap().deep_view().contains(x) <==>
                        (c0.contains(x) || combo_from(x, stack, sum as int, coins@, k + 1)) by {
                        if combo_of(x, stack.push(c), sum - c, coins@) {
                            let t = choose|t: Seq<usize>| is_payment(t, sum - c, coins@)
                                && x == sort_spec(#[trigger] (stack.push(c) + t));
                            assert(stack.push(c) + t =~= stack + (seq![c] + t));
                            assert(coins@[k as int] == c);
                            assert(combo_from(x, stack, sum as int, coins@, k + 1));
                        }
                        if combo_from(x, stack, sum as int, coins@, k + 1) && !combo_from(x, stack, sum as int, coins@, k as int) {
                            let (j, t) = choose|j: int, t: Seq<usize>| #![trigger coins@[j], is_payment(t, sum - coins@[j], coins@)]
                                0 <= j < k + 1 && 0 < coins@[j] <= sum && is_payment(t, sum - coins@[j], coins@)
                                && x == sort_spec(stack + (seq![coins@[j]] + t));
                            assert(j == k);
                            assert(stack.push(c) + t =~= stack + (seq![c] + t));
                            assert(combo_of(x, stack.push(c), sum - c, coins@));
                        }
                    }
                }
            } else {
                proof {
                    assert forall|x: Seq<usize>| #[trigger] self.combos.unwrap().deep_view().contains(x) <==>
                        (c0.contains(x) || combo_from(x, stack, sum as int, coins@, k + 1)) by {
                        if combo_from(x, stack, sum as int, coins@, k + 1) {
                            let (j, t) = choose|j: int, t: Seq<usize>| #![trigger coins@[j], is_payment(t, sum - coins@[j], coins@)]
                                0 <= j < k + 1 && 0 < coins@[j] <= sum && is_payment(t, sum - coins@[j], coins@)
                                && x == sort_spec(stack + (seq![coins@[j]] + t));
                            assert(j != k);
                        }
                    }
                }
            }
            k = k + 1;
        }
        proof {
            assert forall|x: Seq<usize>| #[trigger] combo_of(x, stack, sum as int, coins@)
                == combo_from(x, stack, sum as int, coins@, coins@.len() as int) by {
                lemma_combo_split(x, stack, sum as int, coins@);
            }
        }
        count
    }
}

} // verus!
