//! The heaviest set of non-adjacent items of a sequence of weights.
use vstd::prelude::*;

verus! {

/// The largest weight of non-adjacent items among the first `i` weights.
pub open spec fn wis_table(s: Seq<usize>, i: int) -> int
    decreases i,
{
    if i <= 0 {
        0
    } else if i == 1 {
        s[0] as int
    } else {
        let skip = wis_table(s, i - 1);
        let take = wis_table(s, i - 2) + s[i - 1];
        if skip >= take { skip } else { take }
    }
}

/// The weight that the recursive search computes for a sequence: the
/// better of ending with the last item or with the one before it.
pub open spec fn wis_recursive(s: Seq<usize>) -> int
    decreases s.len(),
{
    if s.len() == 0 {
        0
    } else {
        let cur = s.len() - 1;
        let a = if cur >= 2 { wis_recursive(s.subrange(0, cur - 2)) + s[cur - 1] } else { s[cur] as int };
        let b = if cur >= 1 { wis_recursive(s.subrange(0, cur - 1)) + s[cur] } else { s[cur] as int };
        if a >= b { a } else { b }
    }
}

/// The positions picked reading the table back from `i`: the item before
/// `i` whenever it raises the weight, then the items before its neighbour.
pub open spec fn picked(dp: Seq<usize>, i: int) -> Set<int>
    decreases i,
{
    if i <= 0 {
        Set::empty()
    } else if i == 1 {
        set![0]
    } else if dp[i] > dp[i - 1] {
        picked(dp, i - 2).insert(i - 1)
    } else {
        picked(dp, i - 1)
    }
}

/// The weights never decrease as items are added.
pub proof fn lemma_wis_table_monotonic(s: Seq<usize>, i: int, j: int)
    requires
        0 <= i <= j,
    ensures
        0 <= wis_table(s, i) <= wis_table(s, j),
    decreases j,
{
    if i < j {
        lemma_wis_table_monotonic(s, i, j - 1);
        if j >= 2 {
            lemma_wis_table_monotonic(s, 0, j - 2);
        }
    } else if i >= 2 {
        lemma_wis_table_monotonic(s, 0, i - 1);
    }
}

/// The weight of the positions before `i` that `pick` marks.
pub open spec fn picked_weight(s: Seq<usize>, pick: Seq<bool>, i: int) -> int
    decreases i,
{
    if i <= 0 { 0 } else { picked_weight(s, pick, i - 1) + if pick[i - 1] { s[i - 1] as int } else { 0 } }
}

/// `pick` marks no two neighbouring positions before `i`.
pub open spec fn independent(pick: Seq<bool>, i: int) -> bool {
    forall|k: int| 0 <= k && k + 1 < i ==> !(#[trigger] pick[k] && pick[k + 1])
}

/// No set of positions before `i` without two neighbours weighs more than
/// the table's entry for `i`.
pub proof fn lemma_wis_table_optimal(s: Seq<usize>, pick: Seq<bool>, i: int)
    requires
        0 <= i,
        independent(pick, i),
    ensures
        picked_weight(s, pick, i) <= wis_table(s, i),
    decreases i,
{
    if i >= 1 {
        lemma_wis_table_optimal(s, pick, i - 1);
        lemma_wis_table_monotonic(s, 0, i - 1);
        if i >= 2 {
            lemma_wis_table_optimal(s, pick, i - 2);
            if pick[i - 1] {
                assert(!pick[i - 2]) by {
                    assert(!(pick[i - 2] && pick[i - 2 + 1]));
                }
                assert(picked_weight(s, pick, i - 1) == picked_weight(s, pick, i - 2));
            }
        } else {
            assert(picked_weight(s, pick, 0) == 0);
        }
    }
}

/// Picked positions lie before `i`.
proof fn lemma_picked_bound(dp: Seq<usize>, i: int)
    ensures
        forall|k: int| #[trigger] picked(dp, i).contains(k) ==> 0 <= k < i,
    decreases i,
{
    if i > 1 {
        lemma_picked_bound(dp, i - 1);
        lemma_picked_bound(dp, i - 2);
        assert forall|k: int| #[trigger] picked(dp, i).contains(k) implies 0 <= k < i by {
            if dp[i] > dp[i - 1] {
                if k != i - 1 {
                    assert(picked(dp, i - 2).contains(k));
                }
            } else {
                assert(picked(dp, i - 1).contains(k));
            }
        }
    } else if i == 1 {
        assert forall|k: int| #[trigger] picked(dp, i).contains(k) implies 0 <= k < i by {
            assert(set![0int].contains(k));
        }
    }
}

/// The positions read back from the table are a heaviest set: a choice
/// that marks exactly the positions picked before `i` marks no two
/// neighbours, and the weights it marks add up to `wis_table(s, i)`.
pub proof fn lemma_picked_heaviest(s: Seq<usize>, dp: Seq<usize>, i: int, pick: Seq<bool>)
    requires
        0 <= i <= s.len(),
        dp.len() > i,
        forall|k: int| 0 <= k <= i ==> #[trigger] dp[k] == wis_table(s, k),
        forall|k: int| 0 <= k < i ==> #[trigger] pick[k] == picked(dp, i).contains(k),
    ensures
        independent(pick, i),
        picked_weight(s, pick, i) == wis_table(s, i),
    decreases i,
{
    if i == 1 {
        assert(set![0int].contains(0));
        assert(pick[0] == picked(dp, 1).contains(0));
        assert(picked_weight(s, pick, 0) == 0);
    } else if i >= 2 {
        lemma_picked_bound(dp, i - 1);
        lemma_picked_bound(dp, i - 2);
        assert(dp[i] == wis_table(s, i) && dp[i - 1] == wis_table(s, i - 1) && dp[i - 2] == wis_table(s, i - 2));
        if dp[i] > dp[i - 1] {
            assert(picked(dp, i) == picked(dp, i - 2).insert(i - 1));
            assert forall|k: int| 0 <= k < i - 2 implies #[trigger] pick[k] == picked(dp, i - 2).contains(k) by {
                assert(pick[k] == picked(dp, i).contains(k));
            }
            lemma_picked_heaviest(s, dp, i - 2, pick);
            assert(!pick[i - 2]) by {
                assert(pick[i - 2] == picked(dp, i).contains(i - 2));
            }
            assert(pick[i - 1]) by {
                assert(pick[i - 1] == picked(dp, i).contains(i - 1));
            }
            assert(picked_weight(s, pick, i - 1) == picked_weight(s, pick, i - 2));
            assert(picked_weight(s, pick, i) == picked_weight(s, pick, i - 1) + s[i - 1]);
            assert(wis_table(s, i) == wis_table(s, i - 2) + s[i - 1]);
            assert forall|k: int| 0 <= k && k + 1 < i implies !(#[trigger] pick[k] && pick[k + 1]) by {
                if k + 1 < i - 2 {
                    assert(!(pick[k] && pick[k + 1]));
                }
            }
        } else {
            assert(picked(dp, i) == picked(dp, i - 1));
            assert forall|k: int| 0 <= k < i - 1 implies #[trigger] pick[k] == picked(dp, i - 1).contains(k) by {
                assert(pick[k] == picked(dp, i).contains(k));
            }
            lemma_picked_heaviest(s, dp, i - 1, pick);
            assert(!pick[i - 1]) by {
                assert(pick[i - 1] == picked(dp, i).contains(i - 1));
            }
            assert(picked_weight(s, pick, i) == picked_weight(s, pick, i - 1));
            assert(wis_table(s, i) == wis_table(s, i - 1));
            assert forall|k: int| 0 <= k && k + 1 < i implies !(#[trigger] pick[k] && pick[k + 1]) by {
                if k + 1 < i - 1 {
                    assert(!(pick[k] && pick[k + 1]));
                }
            }
        }
    }
}

/// A sequence of weights with the table of the heaviest independent sets
/// of its prefixes.
#[derive(Debug)]
pub struct WIS<'a> {
    set: &'a [usize],
    dp: Vec<usize>,
}

impl<'a> WIS<'a> {
    /// The table holds the heaviest weights of the prefixes.
    pub closed spec fn wf(&self) -> bool {
        &&& self.set@.len() > 0
        &&& self.dp@.len() == self.set@.len() + 1
        &&& forall|i: int| 0 <= i <= self.set@.len() ==> #[trigger] self.dp@[i] == wis_table(self.set@, i)
    }

    /// The weights.
    pub closed spec fn weights(&self) -> Seq<usize> {
        self.set@
    }

    /// The table.
    pub closed spec fn table(&self) -> Seq<usize> {
        self.dp@
    }

    /// The positions the heaviest set picks, as a string of `1`s and `0`s.
    pub fn to_binary_string(&self) -> (r: String)
        requires
            self.wf(),
        ensures
            r@ == super::bit_chars(Seq::new(self.weights().len(), |k: int| picked(self.table(), self.weights().len() as int).contains(k))),
            r@.len() == self.weights().len(),
            independent(Seq::new(r@.len(), |k: int| r@[k] == '1'), r@.len() as int),
            picked_weight(self.weights(), Seq::new(r@.len(), |k: int| r@[k] == '1'), r@.len() as int)
                == wis_table(self.weights(), self.weights().len() as int),
    {
        let p = self.positions_in_set();
        let r = super::wis_to_string(p.as_slice());
        assert(p@ =~= Seq::new(self.weights().len(), |k: int| picked(self.table(), self.weights().len() as int).contains(k)));
        assert(Seq::new(r@.len(), |k: int| r@[k] == '1') =~= p@);
        r
    }

    /// Reads the weights given as text: the count on the first line, then
    /// one weight per line.  `None` where the text is not such a list.
    pub fn parse_graph(input: &str) -> (r: Option<Vec<usize>>)
        ensures
            r is Some <==> super::number_list_ok(crate::text::lines(input@)),
            r matches Some(v) ==> v@.len() == crate::text::value(crate::text::lines(input@)[0])
                && forall|k: int| 0 <= k < v@.len() ==> #[trigger] v@[k] as nat == crate::text::value(crate::text::lines(input@)[k + 1]),
    {
        super::parse_graph(input)
    }

    /// The heaviest weight by plain recursion over the prefixes.
    pub fn recursive(set: &[usize]) -> (w: usize)
        requires
            wis_recursive(set@) <= usize::MAX,
        ensures
            w == wis_recursive(set@),
        decreases set@.len(),
    {
        if set.len() == 0 {
            return 0;
        }
        let cur = set.len() - 1;
        proof {
            lemma_wis_recursive_bounds(set@);
        }
        let a = if cur >= 2 {
            assert(set@.subrange(0, cur - 2) =~= set@.subrange(0, cur - 2));
            WIS::recursive(slice_prefix(set, cur - 2)) + set[cur - 1]
        } else {
            set[cur]
        };
        let b = if cur >= 1 {
            WIS::recursive(slice_prefix(set, cur - 1)) + set[cur]
        } else {
            set[cur]
        };
        if a >= b { a } else { b }
    }

    /// Builds the table of the heaviest weights of every prefix.
    pub fn new(set: &'a [usize]) -> (w: WIS<'a>)
        requires
            set@.len() > 0,
            set@.len() < usize::MAX,
            wis_table(set@, set@.len() as int) <= usize::MAX,
        ensures
            w.wf(),
            w.weights() == set@,
    {
        let n = set.len();
        let mut dp: Vec<usize> = Vec::new();
        dp.push(0);
        dp.push(set[0]);
        let mut i: usize = 2;
        while i <= n
            invariant
                n == set@.len(),
                n < usize::MAX,
                2 <= i <= n + 1,
                wis_table(set@, n as int) <= usize::MAX,
                dp@.len() == i,
                forall|k: int| 0 <= k < i ==> #[trigger] dp@[k] == wis_table(set@, k),
            decreases n + 1 - i,
        {
            proof {
                lemma_wis_table_monotonic(set@, i as int, n as int);
                lemma_wis_table_monotonic(set@, 0, i - 2);
            }
            let skip = dp[i - 1];
            let take = dp[i - 2] + set[i - 1];
            dp.push(if skip >= take { skip } else { take });
            i = i + 1;
        }
        WIS { set, dp }
    }

    /// The heaviest weight of the whole sequence.
    pub fn weight(&self) -> (w: usize)
        requires
            self.wf(),
        ensures
            w == wis_table(self.weights(), self.weights().len() as int),
    {
        self.dp[self.dp.len() - 1]
    }

    /// Which positions the heaviest set picks, read back from the table.
    pub fn positions_in_set(&self) -> (p: Vec<bool>)
        requires
            self.wf(),
        ensures
            p@.len() == self.weights().len(),
            forall|k: int| 0 <= k < p@.len() ==> p@[k] == picked(self.table(), self.weights().len() as int).contains(k),
            independent(p@, p@.len() as int),
            picked_weight(self.weights(), p@, p@.len() as int) == wis_table(self.weights(), self.weights().len() as int),
    {
        let n = self.dp.len() - 1;
        let mut positions: Vec<bool> = Vec::new();
        let mut k: usize = 0;
        while k < n
            invariant
                k <= n,
                positions@.len() == k,
                forall|q: int| 0 <= q < k ==> !positions@[q],
            decreases n - k,
        {
            positions.push(false);
            k = k + 1;
        }
        let ghost goal = picked(self.dp@, n as int);
        let mut i: usize = n;
        while i > 0
            invariant
                self.wf(),
                n == self.dp@.len() - 1,
                i <= n,
                positions@.len() == n,
                forall|q: int| 0 <= q < i ==> (#[trigger] goal.contains(q) <==> picked(self.dp@, i as int).contains(q)),
                forall|q: int| i <= q < n ==> #[trigger] positions@[q] == goal.contains(q),
                forall|q: int| 0 <= q < i ==> !#[trigger] positions@[q],
            decreases i,
        {
            proof {
                lemma_picked_bound(self.dp@, i as int);
                lemma_picked_bound(self.dp@, i - 1);
                if i >= 2 {
                    lemma_picked_bound(self.dp@, i - 2);
                }
            }
            if i == 1 {
                positions[0] = true;
                proof {
                    assert(picked(self.dp@, 1).contains(0));
                }
                i = i - 1;
            } else if self.dp[i] > self.dp[i - 1] {
                positions[i - 1] = true;
                proof {
                    assert(picked(self.dp@, i as int) == picked(self.dp@, i - 2).insert(i - 1));
                    assert(!picked(self.dp@, i - 2).contains(i - 2));
                }
                i = i - 2;
            } else {
                proof {
                    assert(picked(self.dp@, i as int) == picked(self.dp@, i - 1));
                    assert(!picked(self.dp@, i - 1).contains(i - 1));
                }
                i = i - 1;
            }
        }
        proof {
            lemma_picked_heaviest(self.set@, self.dp@, n as int, positions@);
        }
        positions
    }
}

/// Bounds of the recursive weight that its own recursion relies on.
proof fn lemma_wis_recursive_bounds(s: Seq<usize>)
    requires
        s.len() > 0,
    ensures
        s.len() >= 3 ==> wis_recursive(s.subrange(0, s.len() - 3)) + s[s.len() - 2] <= wis_recursive(s),
        s.len() >= 2 ==> wis_recursive(s.subrange(0, s.len() - 2)) + s[s.len() - 1] <= wis_recursive(s),
{
}

/// The first `n` items of a slice.
fn slice_prefix(s: &[usize], n: usize) -> (r: &[usize])
    requires
        n <= s@.len(),
    ensures
        r@ == s@.subrange(0, n as int),
{
    let (a, _) = s.split_at(n);
    a
}

} // verus!
