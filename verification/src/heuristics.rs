//! What a bot may look at in a state besides the score: how deep the
//! columns are, how even, and how many holes they hide.

use crate::board::{count_set, lemma_count_set_bounds, Board};
use crate::state::State;
use vstd::prelude::*;

verus! {

/// Of the cells of a column, from the top, which are holes: free, with a
/// taken cell somewhere above.
pub open spec fn holes(column: Seq<bool>) -> Seq<bool> {
    Seq::new(column.len(), |y: int| !column[y] && exists|t: int| 0 <= t < y && column[t])
}

/// The difference of two numbers, without its sign.
pub open spec fn gap(a: int, b: int) -> int {
    if a >= b {
        a - b
    } else {
        b - a
    }
}

impl Board {
    /// The cells of column `x`, from the top.
    pub open spec fn column(self, x: int) -> Seq<bool> {
        Seq::new(20, |y: int| self.occupied(x, y))
    }

    /// The largest depth among the first `n` columns, 0 without a column.
    pub open spec fn deepest(self, n: int) -> int
        decreases n,
    {
        if n <= 0 {
            0
        } else if self.depth(n - 1) >= self.deepest(n - 1) {
            self.depth(n - 1)
        } else {
            self.deepest(n - 1)
        }
    }

    /// The number of holes in the first `n` columns.
    pub open spec fn holes_within(self, n: int) -> int
        decreases n,
    {
        if n <= 0 {
            0
        } else {
            self.holes_within(n - 1) + count_set(holes(self.column(n - 1)), 0)
        }
    }

    /// The gaps between the depths of neighbouring columns, added up over
    /// the first `n` pairs of neighbours.
    pub open spec fn unevenness(self, n: int) -> int
        decreases n,
    {
        if n <= 0 {
            0
        } else {
            self.unevenness(n - 1) + gap(self.depth(n - 1), self.depth(n))
        }
    }
}

/// The "holiness" of a column: the number of its free cells that lie below
/// a taken one.
pub fn column_holiness(column: [bool; 20]) -> (n: usize)
    ensures
        n == count_set(holes(column@), 0),
        n <= 20,
{
    let mut under = false;
    let mut ans: usize = 0;
    let mut y: usize = 0;
    proof {
        lemma_count_set_bounds(holes(column@), 0);
    }
    while y < 20
        invariant
            y <= 20,
            under == (exists|t: int| 0 <= t < y && column[t]),
            ans + count_set(holes(column@), y as int) == count_set(holes(column@), 0),
            count_set(holes(column@), 0) <= 20,
            0 <= count_set(holes(column@), y as int),
        decreases 20 - y,
    {
        proof {
            lemma_count_set_bounds(holes(column@), y + 1);
        }
        if !under && column[y] {
            under = true;
        } else if under && !column[y] {
            ans += 1;
        }
        assert(under == (exists|t: int| 0 <= t < y + 1 && column[t])) by {
            if exists|t: int| 0 <= t < y + 1 && column[t] {
                let t = choose|t: int| 0 <= t < y + 1 && column[t];
                if t < y {
                    assert(0 <= t < y && column[t]);
                }
            }
            if column[y as int] {
                assert(0 <= y < y + 1 && column[y as int]);
            }
        }
        y += 1;
    }
    ans
}

/// The largest depth among the columns of the board.
pub fn max_depth(state: &State) -> (deepest: usize)
    ensures
        deepest == state.board.deepest(10),
        deepest <= 20,
{
    let mut deepest: usize = 0;
    let mut x: usize = 0;
    while x < 10
        invariant
            x <= 10,
            deepest == state.board.deepest(x as int),
            deepest <= 20,
        decreases 10 - x,
    {
        let depth = state.column_depth(x);
        if depth >= deepest {
            deepest = depth;
        }
        x += 1;
    }
    deepest
}

/// The number of holes in the board: free cells with a taken cell
/// somewhere above them in their column.
pub fn holiness(state: &State) -> (n: usize)
    ensures
        n == state.board.holes_within(10),
        n <= 200,
{
    let mut total: usize = 0;
    let mut x: usize = 0;
    while x < 10
        invariant
            x <= 10,
            total == state.board.holes_within(x as int),
            total <= 20 * x,
        decreases 10 - x,
    {
        let column = state.column(x);
        assert(column@ =~= state.board.column(x as int));
        total += column_holiness(column);
        x += 1;
    }
    total
}

/// How uneven the surface of the board is: the gaps between the depths of
/// neighbouring columns, added up.
pub fn flatness(state: &State) -> (n: usize)
    ensures
        n == state.board.unevenness(9),
        n <= 180,
{
    let mut total: usize = 0;
    let mut left = state.column_depth(0);
    let mut x: usize = 0;
    while x < 9
        invariant
            x <= 9,
            left == state.board.depth(x as int),
            left <= 20,
            total == state.board.unevenness(x as int),
            total <= 20 * x,
        decreases 9 - x,
    {
        let right = state.column_depth(x + 1);
        if left >= right {
            total += left - right;
        } else {
            total += right - left;
        }
        left = right;
        x += 1;
    }
    total
}

} // verus!
