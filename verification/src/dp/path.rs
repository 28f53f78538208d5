//! The path through a grid, moving only down and right, that collects the
//! largest sum of squares.
use vstd::prelude::*;

verus! {

/// The largest sum collected on a path from the top-left square to square
/// `(y, x)` (counted from 1), moving down and right.
pub open spec fn best(p: Seq<Vec<usize>>, y: int, x: int) -> int
    decreases y, x,
{
    if y <= 0 || x <= 0 {
        0
    } else {
        let up = best(p, y - 1, x);
        let left = best(p, y, x - 1);
        (if up >= left { up } else { left }) + p[y - 1]@[x - 1]
    }
}

/// The squares of the best path ending at `(y, x)`, from its end back to
/// its start, stepping up whenever the sum above accounts for it.
pub open spec fn best_path(p: Seq<Vec<usize>>, y: int, x: int) -> Seq<usize>
    decreases y + x,
{
    if y <= 0 || x <= 0 || best(p, y, x) <= 0 {
        Seq::empty()
    } else {
        let square = p[y - 1]@[x - 1];
        if best(p, y - 1, x) == best(p, y, x) - square {
            seq![square] + best_path(p, y - 1, x)
        } else {
            seq![square] + best_path(p, y, x - 1)
        }
    }
}

/// The sum of a sequence of squares.
pub open spec fn total(s: Seq<usize>) -> int
    decreases s.len(),
{
    if s.len() == 0 { 0 } else { s[0] + total(s.drop_first()) }
}

/// The grid is rectangular with at least one row.
pub open spec fn rectangular(p: Seq<Vec<usize>>) -> bool {
    &&& p.len() > 0
    &&& forall|y: int| 0 <= y < p.len() ==> #[trigger] p[y]@.len() >= p[0]@.len()
}

/// The sum of the squares of the walk that ends at `(y, x)` and, read
/// back from its end, steps up where `steps` holds `true` and left where
/// it holds `false` (the last step first); it stops at the grid's edge.
pub open spec fn walk_sum(p: Seq<Vec<usize>>, steps: Seq<bool>, y: int, x: int) -> int
    decreases steps.len(),
{
    if y <= 0 || x <= 0 {
        0
    } else {
        p[y - 1]@[x - 1] + if steps.len() == 0 {
            0
        } else if steps.last() {
            walk_sum(p, steps.drop_last(), y - 1, x)
        } else {
            walk_sum(p, steps.drop_last(), y, x - 1)
        }
    }
}

/// No walk down and right that ends at `(y, x)` sums to more than the
/// best sum there.
pub proof fn lemma_best_optimal(p: Seq<Vec<usize>>, steps: Seq<bool>, y: int, x: int)
    ensures
        walk_sum(p, steps, y, x) <= best(p, y, x),
    decreases steps.len(),
{
    if y > 0 && x > 0 {
        lemma_best_monotonic(p, 0, 0, y - 1, x);
        lemma_best_monotonic(p, 0, 0, y, x - 1);
        if steps.len() > 0 {
            if steps.last() {
                lemma_best_optimal(p, steps.drop_last(), y - 1, x);
            } else {
                lemma_best_optimal(p, steps.drop_last(), y, x - 1);
            }
        }
    }
}

/// Best sums never decrease further down or right.
proof fn lemma_best_monotonic(p: Seq<Vec<usize>>, y: int, x: int, y2: int, x2: int)
    requires
        0 <= y <= y2,
        0 <= x <= x2,
    ensures
        0 <= best(p, y, x) <= best(p, y2, x2),
    decreases y2 + x2,
{
    if y < y2 {
        lemma_best_monotonic(p, y, x, y2 - 1, x2);
        if x2 > 0 {
            assert(best(p, y2, x2) >= best(p, y2 - 1, x2));
        } else {
            lemma_best_monotonic(p, y, x, y2 - 1, x2);
        }
    } else if x < x2 {
        lemma_best_monotonic(p, y, x, y2, x2 - 1);
        if y2 > 0 {
            assert(best(p, y2, x2) >= best(p, y2, x2 - 1));
        }
    } else if y > 0 && x > 0 {
        lemma_best_monotonic(p, 0, 0, y - 1, x);
        lemma_best_monotonic(p, 0, 0, y, x - 1);
    }
}

/// The squares of the best path add up to the best sum.
pub proof fn lemma_best_path_total(p: Seq<Vec<usize>>, y: int, x: int)
    requires
        y >= 0,
        x >= 0,
    ensures
        total(best_path(p, y, x)) == best(p, y, x),
    decreases y + x,
{
    lemma_best_monotonic(p, 0, 0, y, x);
    if y > 0 && x > 0 && best(p, y, x) > 0 {
        let square = p[y - 1]@[x - 1];
        if best(p, y - 1, x) == best(p, y, x) - square {
            lemma_best_path_total(p, y - 1, x);
            assert((seq![square] + best_path(p, y - 1, x)).drop_first() =~= best_path(p, y - 1, x));
        } else {
            lemma_best_path_total(p, y, x - 1);
            assert((seq![square] + best_path(p, y, x - 1)).drop_first() =~= best_path(p, y, x - 1));
        }
    }
}

/// A grid of squares with the best sums to each square.
#[derive(Debug)]
pub struct SquareSum<'a> {
    path: &'a [Vec<usize>],
    dp: Vec<Vec<usize>>,
}

impl<'a> SquareSum<'a> {
    /// The table is the best sums of the grid.
    pub closed spec fn wf(&self) -> bool {
        let p = self.path@;
        &&& rectangular(p)
        &&& self.dp@.len() == p.len() + 1
        &&& forall|y: int| 0 <= y <= p.len() ==> (#[trigger] self.dp@[y])@.len() == p[0]@.len() + 1
        &&& forall|y: int, x: int| 0 <= y <= p.len() && 0 <= x <= p[0]@.len()
            ==> #[trigger] self.dp@[y]@[x] == best(p, y, x)
    }

    /// The grid.
    pub closed spec fn grid(&self) -> Seq<Vec<usize>> {
        self.path@
    }

    /// Computes the best sums of the grid.
    pub fn new(path: &'a [Vec<usize>]) -> (ss: SquareSum<'a>)
        requires
            rectangular(path@),
            path@.len() < usize::MAX,
            path@[0]@.len() < usize::MAX,
            best(path@, path@.len() as int, path@[0]@.len() as int) <= usize::MAX,
        ensures
            ss.wf(),
            ss.grid() == path@,
    {
        let rows = path.len();
        let cols = path[0].len();
        let ghost p = path@;
        assert(cols == p[0]@.len());
        let mut dp: Vec<Vec<usize>> = Vec::new();
        let mut first: Vec<usize> = Vec::new();
        let mut x: usize = 0;
        while x <= cols
            invariant
                x <= cols + 1,
                cols == p[0]@.len(),
                cols < usize::MAX,
                first@.len() == x,
                forall|k: int| 0 <= k < x ==> first@[k] == 0,
            decreases cols + 1 - x,
        {
            first.push(0);
            x = x + 1;
        }
        proof {
            assert forall|k: int| 0 <= k <= cols implies first@[k] == best(p, 0, k) by {}
        }
        dp.push(first);
        let mut y: usize = 1;
        while y <= rows
            invariant
                1 <= y <= rows + 1,
                rows == p.len(),
                rows < usize::MAX,
                cols == p[0]@.len(),
                cols < usize::MAX,
                p == path@,
                rectangular(p),
                best(p, rows as int, cols as int) <= usize::MAX,
                dp@.len() == y,
                forall|r: int| 0 <= r < y ==> (#[trigger] dp@[r])@.len() == cols + 1,
                forall|r: int, k: int| 0 <= r < y && 0 <= k <= cols ==> #[trigger] dp@[r]@[k] == best(p, r, k),
            decreases rows + 1 - y,
        {
            assert(path@[y - 1]@.len() >= cols);
            let mut row: Vec<usize> = Vec::new();
            row.push(0);
            let mut x: usize = 1;
            while x <= cols
                invariant
                    1 <= y <= rows,
                    1 <= x <= cols + 1,
                    rows == p.len(),
                    cols == p[0]@.len(),
                    cols < usize::MAX,
                    p == path@,
                    path@[y - 1]@.len() >= cols,
                    best(p, rows as int, cols as int) <= usize::MAX,
                    dp@.len() == y,
                    (dp@[y - 1])@.len() == cols + 1,
                    forall|k: int| 0 <= k <= cols ==> #[trigger] dp@[y - 1]@[k] == best(p, y - 1, k),
                    row@.len() == x,
                    forall|k: int| 0 <= k < x ==> #[trigger] row@[k] == best(p, y as int, k),
                decreases cols + 1 - x,
            {
                let up = dp[y - 1][x];
                let left = row[x - 1];
                proof {
                    lemma_best_monotonic(p, y as int, x as int, rows as int, cols as int);
                }
                let m = if up >= left { up } else { left };
                row.push(m + path[y - 1][x - 1]);
                x = x + 1;
            }
            dp.push(row);
            y = y + 1;
        }
        SquareSum { path, dp }
    }

    /// The best sum over the whole grid.
    pub fn sum(&self) -> (s: usize)
        requires
            self.wf(),
        ensures
            s == best(self.grid(), self.grid().len() as int, self.grid()[0]@.len() as int),
    {
        let last = &self.dp[self.dp.len() - 1];
        last[last.len() - 1]
    }

    /// The squares of the best path, from its last square back to its first.
    pub fn path(&self) -> (v: Vec<usize>)
        requires
            self.wf(),
        ensures
            v@ == best_path(self.grid(), self.grid().len() as int, self.grid()[0]@.len() as int),
    {
        let ghost p = self.path@;
        let mut y: usize = self.dp.len() - 1;
        let mut x: usize = self.dp[0].len() - 1;
        let mut sum = self.sum();
        let mut out: Vec<usize> = Vec::new();
        let ghost goal = best_path(p, y as int, x as int);
        while sum > 0
            invariant
                self.wf(),
                p == self.path@,
                y <= p.len(),
                x <= p[0]@.len(),
                sum == best(p, y as int, x as int),
                out@ + best_path(p, y as int, x as int) == goal,
            decreases y + x,
        {
            proof {
                lemma_best_monotonic(p, 0, 0, y as int, x as int);
                assert(y > 0 && x > 0);
                lemma_best_monotonic(p, 0, 0, y - 1, x as int);
                lemma_best_monotonic(p, 0, 0, y as int, x - 1);
            }
            let square = self.path[y - 1][x - 1];
            sum = self.dp[y][x] - square;
            let ghost before = best_path(p, y as int, x as int);
            if sum == self.dp[y - 1][x] {
                y = y - 1;
            } else {
                x = x - 1;
            }
            out.push(square);
            assert(out@ + best_path(p, y as int, x as int) =~= goal);
        }
        assert(best_path(p, y as int, x as int) == Seq::<usize>::empty());
        assert(out@ =~= goal);
        out
    }
}

} // verus!
