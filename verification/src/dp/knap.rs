//! The 0/1 knapsack: the most value that fits a capacity.
use vstd::prelude::*;
use crate::text::{IntError, read_usize, fields, lines, views, chars_of, split_lines, split_fields, parse_usize};

verus! {

/// An item with its value and its weight.
#[derive(Debug)]
pub struct Object {
    pub value: usize,
    pub weight: usize,
}

/// The most value of items among the first `i` whose weights add up to at
/// most `w`.
pub open spec fn knap(list: Seq<Object>, i: int, w: int) -> int
    decreases i,
{
    if i <= 0 || w <= 0 {
        0
    } else {
        let item = list[i - 1];
        let without = knap(list, i - 1, w);
        if w < item.weight {
            without
        } else {
            let with = knap(list, i - 1, w - item.weight) + item.value;
            if without >= with { without } else { with }
        }
    }
}

/// Which of the first `i` items the best packing for capacity `w` takes,
/// from the last item back: an item is taken when it changes the best value.
pub open spec fn knap_walk(list: Seq<Object>, i: int, w: int) -> Seq<bool>
    decreases i,
{
    if i <= 0 {
        Seq::empty()
    } else if knap(list, i, w) != knap(list, i - 1, w) {
        seq![true] + knap_walk(list, i - 1, w - list[i - 1].weight)
    } else {
        seq![false] + knap_walk(list, i - 1, w)
    }
}

/// The items taken according to `picks[j..]`, where `picks[j]` is about
/// the `j`-th item from the end.
pub open spec fn knap_taken(list: Seq<Object>, picks: Seq<bool>, j: int) -> Seq<Object>
    decreases picks.len() - j,
{
    if j < 0 || j >= picks.len() {
        Seq::empty()
    } else if picks[j] {
        seq![list[list.len() - 1 - j]] + knap_taken(list, picks, j + 1)
    } else {
        knap_taken(list, picks, j + 1)
    }
}

/// More items or more capacity never lower the best value.
pub proof fn lemma_knap_monotonic(list: Seq<Object>, i: int, w: int, i2: int, w2: int)
    requires
        0 <= i <= i2,
        0 <= w <= w2,
    ensures
        0 <= knap(list, i, w) <= knap(list, i2, w2),
    decreases i2,
{
    if i2 > 0 {
        if i < i2 {
            lemma_knap_monotonic(list, i, w, i2 - 1, w2);
        } else {
            lemma_knap_monotonic(list, i - 1, w, i2 - 1, w2);
            let item = list[i2 - 1];
            if w >= item.weight {
                lemma_knap_monotonic(list, i - 1, w - item.weight, i2 - 1, w2 - item.weight);
            }
        }
    }
}

/// The total weight of the items among the first `i` that `pick` marks.
pub open spec fn picked_weight(list: Seq<Object>, pick: Seq<bool>, i: int) -> int
    decreases i,
{
    if i <= 0 { 0 } else { picked_weight(list, pick, i - 1) + if pick[i - 1] { list[i - 1].weight as int } else { 0 } }
}

/// The total value of the items among the first `i` that `pick` marks.
pub open spec fn picked_value(list: Seq<Object>, pick: Seq<bool>, i: int) -> int
    decreases i,
{
    if i <= 0 { 0 } else { picked_value(list, pick, i - 1) + if pick[i - 1] { list[i - 1].value as int } else { 0 } }
}

/// With items of positive weight, no choice among the first `i` items
/// that fits capacity `w` is worth more than the table's best value.
pub proof fn lemma_knap_optimal(list: Seq<Object>, pick: Seq<bool>, i: int, w: int)
    requires
        0 <= i <= list.len(),
        forall|k: int| 0 <= k < list.len() ==> (#[trigger] list[k]).weight > 0,
        picked_weight(list, pick, i) <= w,
    ensures
        picked_value(list, pick, i) <= knap(list, i, w),
    decreases i,
{
    if i > 0 {
        lemma_picked_weight_nonneg(list, pick, i - 1);
        let item = list[i - 1];
        if w <= 0 {
            assert(!pick[i - 1]);
            lemma_nothing_fits(list, pick, i - 1);
            assert(picked_value(list, pick, i - 1) == 0);
        } else if pick[i - 1] {
            lemma_knap_optimal(list, pick, i - 1, w - item.weight);
        } else {
            lemma_knap_optimal(list, pick, i - 1, w);
        }
    }
}

/// The choice of items that the walk makes, listed from the first item
/// on: entry `k` says whether item `k` is taken.
pub open spec fn walk_pick(list: Seq<Object>, i: int, w: int) -> Seq<bool> {
    knap_walk(list, i, w).reverse()
}

/// The best value is reached: the items that the walk back through the
/// table takes among the first `i` weigh at most `w` together and are
/// worth exactly the best value `knap(list, i, w)`.
pub proof fn lemma_knap_achieved(list: Seq<Object>, i: int, w: int)
    requires
        0 <= i <= list.len(),
        0 <= w,
    ensures
        walk_pick(list, i, w).len() == i,
        picked_weight(list, walk_pick(list, i, w), i) <= w,
        picked_value(list, walk_pick(list, i, w), i) == knap(list, i, w),
    decreases i,
{
    lemma_knap_walk_len(list, i, w);
    if i > 0 {
        let item = list[i - 1];
        let take = knap(list, i, w) != knap(list, i - 1, w);
        let w1 = if take { w - item.weight } else { w };
        if take {
            assert(w > 0 && w >= item.weight);
        }
        lemma_knap_achieved(list, i - 1, w1);
        let rest = walk_pick(list, i - 1, w1);
        let pick = walk_pick(list, i, w);
        assert(knap_walk(list, i, w) == seq![take] + knap_walk(list, i - 1, w1));
        assert(pick =~= rest.push(take));
        lemma_picked_prefix(list, pick, rest, i - 1);
    }
}

/// The weight and the value of the first `i` items that two choices mark
/// depend only on what they mark among those items.
proof fn lemma_picked_prefix(list: Seq<Object>, p: Seq<bool>, q: Seq<bool>, i: int)
    requires
        forall|k: int| 0 <= k < i ==> p[k] == q[k],
    ensures
        picked_weight(list, p, i) == picked_weight(list, q, i),
        picked_value(list, p, i) == picked_value(list, q, i),
    decreases i,
{
    if i > 0 {
        lemma_picked_prefix(list, p, q, i - 1);
    }
}

/// Weights add up to no less than zero.
proof fn lemma_picked_weight_nonneg(list: Seq<Object>, pick: Seq<bool>, i: int)
    ensures
        picked_weight(list, pick, i) >= 0,
        picked_value(list, pick, i) >= 0,
    decreases i,
{
    if i > 0 {
        lemma_picked_weight_nonneg(list, pick, i - 1);
    }
}

/// A choice of items of positive weight that weighs nothing is worth
/// nothing.
proof fn lemma_nothing_fits(list: Seq<Object>, pick: Seq<bool>, i: int)
    requires
        0 <= i <= list.len(),
        forall|k: int| 0 <= k < list.len() ==> (#[trigger] list[k]).weight > 0,
        picked_weight(list, pick, i) <= 0,
    ensures
        picked_value(list, pick, i) == 0,
    decreases i,
{
    if i > 0 {
        lemma_picked_weight_nonneg(list, pick, i - 1);
        assert(list[i - 1].weight > 0);
        lemma_nothing_fits(list, pick, i - 1);
    }
}

/// A list of items with the table of best values for each number of items
/// and each capacity.
#[derive(Debug)]
pub struct KnapSack<'a> {
    list: &'a [Object],
    capacity: usize,
    dp: Vec<Vec<usize>>,
}

impl<'a> KnapSack<'a> {
    /// The table holds the best values.
    pub closed spec fn wf(&self) -> bool {
        &&& self.dp@.len() == self.list@.len() + 1
        &&& forall|i: int| 0 <= i <= self.list@.len() ==> (#[trigger] self.dp@[i])@.len() == self.capacity + 1
        &&& forall|i: int, w: int| 0 <= i <= self.list@.len() && 0 <= w <= self.capacity
            ==> #[trigger] self.dp@[i]@[w] == knap(self.list@, i, w)
    }

    /// The items.
    pub closed spec fn items(&self) -> Seq<Object> {
        self.list@
    }

    /// The capacity.
    pub closed spec fn cap(&self) -> int {
        self.capacity as int
    }

    /// Computes the best values for every number of items and capacity.
    pub fn new(list: &'a [Object], capacity: usize) -> (ks: KnapSack<'a>)
        requires
            capacity < usize::MAX,
            list@.len() < usize::MAX,
            knap(list@, list@.len() as int, capacity as int) <= usize::MAX,
        ensures
            ks.wf(),
            ks.items() == list@,
            ks.cap() == capacity,
    {
        let n = list.len();
        let mut dp: Vec<Vec<usize>> = Vec::new();
        let mut first: Vec<usize> = Vec::new();
        let mut w: usize = 0;
        while w <= capacity
            invariant
                w <= capacity + 1,
                capacity < usize::MAX,
                first@.len() == w,
                forall|k: int| 0 <= k < w ==> first@[k] == 0,
            decreases capacity + 1 - w,
        {
            first.push(0);
            w = w + 1;
        }
        dp.push(first);
        let mut i: usize = 1;
        while i <= n
            invariant
                1 <= i <= n + 1,
                n == list@.len(),
                n < usize::MAX,
                capacity < usize::MAX,
                knap(list@, n as int, capacity as int) <= usize::MAX,
                dp@.len() == i,
                forall|r: int| 0 <= r < i ==> (#[trigger] dp@[r])@.len() == capacity + 1,
                forall|r: int, k: int| 0 <= r < i && 0 <= k <= capacity ==> #[trigger] dp@[r]@[k] == knap(list@, r, k),
            decreases n + 1 - i,
        {
            let item = &list[i - 1];
            let mut row: Vec<usize> = Vec::new();
            row.push(0);
            let mut w: usize = 1;
            while w <= capacity
                invariant
                    1 <= i <= n,
                    1 <= w <= capacity + 1,
                    n == list@.len(),
                    capacity < usize::MAX,
                    *item == list@[i - 1],
                    knap(list@, n as int, capacity as int) <= usize::MAX,
                    dp@.len() == i,
                    (dp@[i - 1])@.len() == capacity + 1,
                    forall|k: int| 0 <= k <= capacity ==> #[trigger] dp@[i - 1]@[k] == knap(list@, i - 1, k),
                    row@.len() == w,
                    forall|k: int| 0 <= k < w ==> #[trigger] row@[k] == knap(list@, i as int, k),
                decreases capacity + 1 - w,
            {
                let v = if w < item.weight {
                    dp[i - 1][w]
                } else {
                    proof {
                        lemma_knap_monotonic(list@, i as int, w as int, n as int, capacity as int);
                    }
                    let without = dp[i - 1][w];
                    let with = dp[i - 1][w - item.weight] + item.value;
                    if without >= with { without } else { with }
                };
                row.push(v);
                w = w + 1;
            }
            dp.push(row);
            i = i + 1;
        }
        KnapSack { list, capacity, dp }
    }

    /// Which items the best packing takes, from the last item back.
    pub fn positions(&self) -> (p: Vec<bool>)
        requires
            self.wf(),
        ensures
            p@ == knap_walk(self.items(), self.items().len() as int, self.cap()),
            picked_weight(self.items(), p@.reverse(), self.items().len() as int) <= self.cap(),
            picked_value(self.items(), p@.reverse(), self.items().len() as int)
                == knap(self.items(), self.items().len() as int, self.cap()),
    {
        let mut w: usize = self.capacity;
        let mut out: Vec<bool> = Vec::new();
        let mut i: usize = self.list.len();
        let ghost goal = knap_walk(self.list@, i as int, w as int);
        while i > 0
            invariant
                self.wf(),
                i <= self.list@.len(),
                w <= self.capacity,
                out@ + knap_walk(self.list@, i as int, w as int) == goal,
            decreases i,
        {
            let ghost w0 = w as int;
            let ghost i0 = i as int;
            if self.dp[i][w] != self.dp[i - 1][w] {
                w = w - self.list[i - 1].weight;
                out.push(true);
            } else {
                out.push(false);
            }
            i = i - 1;
            assert(out@ + knap_walk(self.list@, i as int, w as int) =~= goal);
        }
        assert(out@ =~= goal);
        proof {
            lemma_knap_achieved(self.list@, self.list@.len() as int, self.capacity as int);
        }
        out
    }

    /// The items the best packing takes, from the last one back.
    pub fn elements(&self) -> (e: Vec<&'a Object>)
        requires
            self.wf(),
        ensures
            e@.len() == knap_taken(self.items(), self.positions_spec(), 0).len(),
            forall|k: int| 0 <= k < e@.len() ==> *e@[k] == knap_taken(self.items(), self.positions_spec(), 0)[k],
    {
        let picks = self.positions();
        let mut out: Vec<&'a Object> = Vec::new();
        let mut j: usize = 0;
        let n = self.list.len();
        let ghost goal = knap_taken(self.list@, picks@, 0);
        let ghost mut done: Seq<Object> = Seq::empty();
        assert(picks@.len() == n) by {
            lemma_knap_walk_len(self.list@, n as int, self.capacity as int);
        }
        while j < n
            invariant
                n == self.list@.len(),
                picks@.len() == n,
                j <= n,
                goal == knap_taken(self.list@, picks@, 0),
                done + knap_taken(self.list@, picks@, j as int) == goal,
                out@.len() == done.len(),
                forall|k: int| 0 <= k < out@.len() ==> *out@[k] == done[k],
            decreases n - j,
        {
            if picks[j] {
                out.push(&self.list[n - 1 - j]);
                proof {
                    done = done.push(self.list@[n - 1 - j]);
                }
            }
            assert(done + knap_taken(self.list@, picks@, j + 1) =~= goal);
            j = j + 1;
        }
        assert(done =~= goal);
        out
    }

    /// Which items the best packing takes, as `positions` returns it.
    pub closed spec fn positions_spec(&self) -> Seq<bool> {
        knap_walk(self.items(), self.items().len() as int, self.cap())
    }

    /// The best value of all items within the capacity.
    pub fn max_value(&self) -> (v: usize)
        requires
            self.wf(),
        ensures
            v == knap(self.items(), self.items().len() as int, self.cap()),
            exists|pick: Seq<bool>| #![trigger picked_value(self.items(), pick, self.items().len() as int)]
                picked_weight(self.items(), pick, self.items().len() as int) <= self.cap()
                && picked_value(self.items(), pick, self.items().len() as int) == v,
    {
        proof {
            lemma_knap_achieved(self.list@, self.list@.len() as int, self.capacity as int);
        }
        let last = &self.dp[self.dp.len() - 1];
        let v = last[last.len() - 1];
        assert(picked_value(self.items(), walk_pick(self.items(), self.items().len() as int, self.cap()), self.items().len() as int) == v);
        v
    }
}

/// The walk has one entry per item.
proof fn lemma_knap_walk_len(list: Seq<Object>, i: int, w: int)
    requires
        i >= 0,
    ensures
        knap_walk(list, i, w).len() == i,
    decreases i,
{
    if i > 0 {
        lemma_knap_walk_len(list, i - 1, w);
        lemma_knap_walk_len(list, i - 1, w - list[i - 1].weight);
    }
}


/// The two numbers at the start of a line of an items file, read in order:
/// the first error, or `None` where the first number reads and no second
/// field follows it.
pub open spec fn read_pair(l: Seq<char>) -> Option<Result<(nat, nat), IntError>> {
    let f = fields(l, ' ');
    match read_usize(f[0]) {
        Err(e) => Some(Err(e)),
        Ok(a) => if f.len() < 2 {
            None
        } else {
            match read_usize(f[1]) {
                Err(e) => Some(Err(e)),
                Ok(b) => Some(Ok((a, b))),
            }
        },
    }
}

/// The (value, weight) pairs of the lines from `i` on, read in order up to
/// the first line that fails.
pub open spec fn read_items(ls: Seq<Seq<char>>, i: int) -> Option<Result<Seq<(nat, nat)>, IntError>>
    decreases ls.len() - i,
{
    if i < 0 || i >= ls.len() {
        Some(Ok(Seq::empty()))
    } else {
        match read_pair(ls[i]) {
            None => None,
            Some(Err(e)) => Some(Err(e)),
            Some(Ok(p)) => match read_items(ls, i + 1) {
                Some(Ok(rest)) => Some(Ok(seq![p] + rest)),
                other => other,
            },
        }
    }
}

/// What an items file reads as: the capacity (the first number of the first
/// line) and the (value, weight) pair of each further line; the first error;
/// or `None` where a line ends after its first number, or there is no line.
pub open spec fn read_knapsack(s: Seq<char>) -> Option<Result<(nat, Seq<(nat, nat)>), IntError>> {
    let ls = lines(s);
    if ls.len() == 0 {
        None
    } else {
        match read_pair(ls[0]) {
            None => None,
            Some(Err(e)) => Some(Err(e)),
            Some(Ok(first)) => match read_items(ls, 1) {
                None => None,
                Some(Err(e)) => Some(Err(e)),
                Some(Ok(items)) => Some(Ok((first.0, items))),
            },
        }
    }
}

/// The (value, weight) pair of each item.
pub open spec fn pairs(v: Seq<Object>) -> Seq<(nat, nat)> {
    v.map_values(|o: Object| (o.value as nat, o.weight as nat))
}

/// Items read so far in front of what the rest of the lines read as.
pub open spec fn prepend(acc: Seq<(nat, nat)>, r: Option<Result<Seq<(nat, nat)>, IntError>>) -> Option<Result<Seq<(nat, nat)>, IntError>> {
    match r {
        Some(Ok(rest)) => Some(Ok(acc + rest)),
        other => other,
    }
}

/// Reads the two numbers at the start of a line.
fn parse_pair(l: &[char]) -> (r: Option<Result<(usize, usize), IntError>>)
    ensures
        r is None <==> read_pair(l@) is None,
        r matches Some(Err(e)) ==> read_pair(l@) == Some(Err::<(nat, nat), IntError>(e)),
        r matches Some(Ok(p)) ==> read_pair(l@) == Some(Ok::<(nat, nat), IntError>((p.0 as nat, p.1 as nat))),
{
    let f = split_fields(l, ' ');
    assert(f@[0]@ == fields(l@, ' ')[0]) by {
        assert(views(f@)[0] == f@[0]@);
    }
    let a = match parse_usize(f[0].as_slice()) {
        Ok(a) => a,
        Err(e) => {
            return Some(Err(e));
        },
    };
    if f.len() < 2 {
        return None;
    }
    assert(f@[1]@ == fields(l@, ' ')[1]) by {
        assert(views(f@)[1] == f@[1]@);
    }
    match parse_usize(f[1].as_slice()) {
        Ok(b) => Some(Ok((a, b))),
        Err(e) => Some(Err(e)),
    }
}

impl<'a> KnapSack<'a> {
    /// Reads an items file given as text: the capacity is the first number
    /// of the first line, then each line holds the value and the weight of
    /// an item, separated by a space.  Returns the first number that does
    /// not read, with why; `None` where there is no line, or a line ends
    /// after its first number.
    pub fn parse(input: &str) -> (r: Option<Result<(usize, Vec<Object>), IntError>>)
        ensures
            r is None <==> read_knapsack(input@) is None,
            r matches Some(Ok((c, v))) ==> read_knapsack(input@) == Some(Ok::<(nat, Seq<(nat, nat)>), IntError>((c as nat, pairs(v@)))),
            r matches Some(Err(e)) ==> read_knapsack(input@) == Some(Err::<(nat, Seq<(nat, nat)>), IntError>(e)),
    {
        let cs = chars_of(input);
        let ls = split_lines(cs.as_slice());
        let ghost lv = lines(input@);
        assert(forall|i: int| 0 <= i < ls@.len() ==> #[trigger] ls@[i]@ == lv[i]) by {
            assert(views(ls@) == lv);
        }
        assert(ls@.len() == lv.len()) by {
            assert(views(ls@).len() == ls@.len());
        }
        if ls.len() == 0 {
            return None;
        }
        let first = match parse_pair(ls[0].as_slice()) {
            Some(Ok(p)) => p,
            Some(Err(e)) => {
                return Some(Err(e));
            },
            None => {
                return None;
            },
        };
        let mut sack: Vec<Object> = Vec::new();
        let mut i: usize = 1;
        while i < ls.len()
            invariant
                lv == lines(input@),
                ls@.len() == lv.len(),
                forall|q: int| 0 <= q < ls@.len() ==> #[trigger] ls@[q]@ == lv[q],
                1 <= i <= ls@.len(),
                read_pair(lv[0]) == Some(Ok::<(nat, nat), IntError>((first.0 as nat, first.1 as nat))),
                read_items(lv, 1) == prepend(pairs(sack@), read_items(lv, i as int)),
            decreases ls@.len() - i,
        {
            let ghost acc = pairs(sack@);
            match parse_pair(ls[i].as_slice()) {
                Some(Ok((value, weight))) => {
                    sack.push(Object { value, weight });
                    proof {
                        let p = (value as nat, weight as nat);
                        assert(pairs(sack@) =~= acc.push(p));
                        match read_items(lv, i + 1) {
                            Some(Ok(rest)) => {
                                assert(acc + (seq![p] + rest) =~= acc.push(p) + rest);
                            },
                            _ => {},
                        }
                    }
                    i = i + 1;
                },
                Some(Err(e)) => {
                    assert(read_items(lv, i as int) == Some(Err::<Seq<(nat, nat)>, IntError>(e)));
                    return Some(Err(e));
                },
                None => {
                    assert(read_items(lv, i as int) is None);
                    return None;
                },
            }
        }
        assert(read_items(lv, i as int) == Some(Ok::<Seq<(nat, nat)>, IntError>(Seq::empty())));
        assert(pairs(sack@) + Seq::<(nat, nat)>::empty() =~= pairs(sack@));
        Some(Ok((first.0, sack)))
    }
}

} // verus!
