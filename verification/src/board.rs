//! The playing field: a fixed grid of 20 rows by 10 columns, row 0 on top.

use crate::piece::{lemma_covers_pivot, Mino};
use vstd::prelude::*;

verus! {

/// Standard 20x10 playing field.
#[derive(Clone, Copy)]
pub struct Board {
    pub grid: [[bool; 10]; 20],
}

/// How many of the flags at index `lo` or after are set.
pub open spec fn count_set(flags: Seq<bool>, lo: int) -> int
    decreases flags.len() - lo,
{
    if lo >= flags.len() {
        0
    } else {
        (if lo >= 0 && flags[lo] {
            1int
        } else {
            0int
        }) + count_set(flags, lo + 1)
    }
}

impl Board {
    /// Whether the cell in column `x` of row `y` is taken. Meaningful on the
    /// board, that is for `0 <= x < 10` and `0 <= y < 20`.
    pub open spec fn occupied(self, x: int, y: int) -> bool {
        self.grid[y][x]
    }

    /// No cell of the board is taken.
    pub open spec fn is_blank(self) -> bool {
        forall|x: int, y: int| 0 <= x < 10 && 0 <= y < 20 ==> !#[trigger] self.occupied(x, y)
    }

    /// Whether a piece may cover the cell `c`, given as (column, row): the
    /// column is on the board, the row is not below it, and the cell is above
    /// the board or free.
    pub open spec fn admits(self, c: (int, int)) -> bool {
        &&& 0 <= c.0 < 10
        &&& c.1 < 20
        &&& (c.1 < 0 || !self.occupied(c.0, c.1))
    }

    /// Whether the board admits all four cells of the piece.
    pub open spec fn fits(self, m: Mino) -> bool {
        forall|i: int| 0 <= i < 4 ==> self.admits(#[trigger] m.cells()[i])
    }

    /// Whether the piece is at rest: it fits, and one row further down it
    /// does not.
    pub open spec fn rests(self, m: Mino) -> bool {
        self.fits(m) && !self.fits(m.spec_translated(0, 1))
    }

    /// Whether the cell in column `x` of row `y` is taken once the piece is
    /// locked into the board.
    pub open spec fn locked(self, m: Mino, x: int, y: int) -> bool {
        self.occupied(x, y) || m.covers(x, y)
    }

    /// Whether locking the piece completes row `y`: the piece touches the row
    /// and every cell of the row is taken afterwards.
    pub open spec fn row_completed(self, m: Mino, y: int) -> bool {
        &&& 0 <= y < 20
        &&& m.touches_row(y)
        &&& forall|x: int| 0 <= x < 10 ==> #[trigger] self.locked(m, x, y)
    }

    /// For each row, whether locking the piece completes it.
    pub open spec fn completed_rows(self, m: Mino) -> Seq<bool> {
        Seq::new(20, |y: int| self.row_completed(m, y))
    }

    /// How many rows locking the piece completes.
    pub open spec fn completed_count(self, m: Mino) -> int {
        count_set(self.completed_rows(m), 0)
    }

    /// The row to which row `s` sinks when the completed rows are taken out:
    /// it moves down by the number of completed rows below it.
    pub open spec fn sinks_to(self, m: Mino, s: int) -> int {
        s + count_set(self.completed_rows(m), s + 1)
    }

    /// Whether `after` is the board that locking the piece and clearing the
    /// completed rows leaves: every row that is not completed sinks past the
    /// completed rows below it, and as many blank rows as were completed come
    /// in on top.
    pub open spec fn settles_to(self, m: Mino, after: Board) -> bool {
        &&& forall|x: int, s: int|
            0 <= x < 10 && 0 <= s < 20 && !self.row_completed(m, s) ==> after.occupied(
                x,
                self.sinks_to(m, s),
            ) == #[trigger] self.locked(m, x, s)
        &&& forall|x: int, y: int|
            0 <= x < 10 && 0 <= y < self.completed_count(m) ==> !#[trigger] after.occupied(x, y)
    }

    /// The board with no cell taken.
    pub fn blank() -> (b: Board)
        ensures
            b.is_blank(),
    {
        Board { grid: [[false; 10]; 20] }
    }

    /// Whether the piece can be where it is: all four of its cells are in a
    /// column of the board, none is below the bottom row, and those on the
    /// board are free. Cells above the top row are always allowed.
    pub fn can_place(&self, mino: Mino) -> (ok: bool)
        ensures
            ok == self.fits(mino),
    {
        let points = mino.points();
        let mut i: usize = 0;
        while i < 4
            invariant
                i <= 4,
                forall|j: int|
                    0 <= j < 4 ==> (#[trigger] points[j]).0 == mino.cells()[j].0 && points[j].1
                        == mino.cells()[j].1,
                forall|j: int| 0 <= j < i ==> self.admits(#[trigger] mino.cells()[j]),
            decreases 4 - i,
        {
            let (x, y) = points[i];
            assert(x == mino.cells()[i as int].0 && y == mino.cells()[i as int].1);
            if !(0 <= x && x < 10 && y < 20 && (y < 0 || !self.grid[y as usize][x as usize])) {
                assert(!self.admits(mino.cells()[i as int]));
                return false;
            }
            i += 1;
        }
        true
    }

    /// Whether every cell of row `y` is taken.
    pub fn row_is_full(&self, y: usize) -> (full: bool)
        requires
            y < 20,
        ensures
            full == (forall|x: int| 0 <= x < 10 ==> #[trigger] self.occupied(x, y as int)),
    {
        let mut x: usize = 0;
        while x < 10
            invariant
                x <= 10,
                y < 20,
                forall|c: int| 0 <= c < x ==> #[trigger] self.occupied(c, y as int),
            decreases 10 - x,
        {
            if !self.grid[y][x] {
                assert(!self.occupied(x as int, y as int));
                return false;
            }
            x += 1;
        }
        true
    }
}

/// A piece with a cell left of the board, right of it, below it, or on a
/// taken cell of the board, cannot be placed.
pub proof fn lemma_offending_cell_forbids(board: Board, m: Mino, i: int)
    requires
        0 <= i < 4,
        m.cells()[i].0 < 0 || m.cells()[i].0 >= 10 || m.cells()[i].1 >= 20 || (m.cells()[i].1 >= 0
            && board.occupied(m.cells()[i].0, m.cells()[i].1)),
    ensures
        !board.fits(m),
{
    assert(!board.admits(m.cells()[i]));
}

/// A piece that fits has its pivot in a column of the board and not below
/// the bottom row.
pub proof fn lemma_fits_pivot(board: Board, m: Mino)
    requires
        board.fits(m),
    ensures
        0 <= m.spec_x() < 10,
        m.spec_y() < 20,
{
    lemma_covers_pivot(m);
    let i = choose|i: int| 0 <= i < 4 && #[trigger] m.cells()[i] == (m.spec_x(), m.spec_y());
    assert(board.admits(m.cells()[i]));
}

/// The count of set flags lies between nothing and the number of flags
/// counted.
pub proof fn lemma_count_set_bounds(flags: Seq<bool>, lo: int)
    requires
        0 <= lo <= flags.len(),
    ensures
        0 <= count_set(flags, lo) <= flags.len() - lo,
    decreases flags.len() - lo,
{
    if lo < flags.len() {
        lemma_count_set_bounds(flags, lo + 1);
    }
}

/// Counting from before the first flag is counting them all.
pub proof fn lemma_count_set_before_start(flags: Seq<bool>, lo: int)
    requires
        lo <= 0,
    ensures
        count_set(flags, lo) == count_set(flags, 0),
    decreases -lo,
{
    if lo < 0 {
        lemma_count_set_before_start(flags, lo + 1);
    }
}

/// Between two starting points the count differs by at most the number of
/// flags between them.
pub proof fn lemma_count_set_span(flags: Seq<bool>, a: int, b: int)
    requires
        0 <= a <= b,
    ensures
        count_set(flags, b) <= count_set(flags, a) <= count_set(flags, b) + (b - a),
    decreases b - a,
{
    if a < b {
        lemma_count_set_span(flags, a + 1, b);
    }
}

/// Setting a flag that was clear adds one to every count that reaches it.
pub proof fn lemma_count_set_update(flags: Seq<bool>, at: int, lo: int)
    requires
        0 <= at < flags.len(),
        !flags[at],
    ensures
        count_set(flags.update(at, true), lo) == count_set(flags, lo) + (if lo <= at {
            1int
        } else {
            0int
        }),
    decreases flags.len() - lo,
{
    if lo < flags.len() {
        lemma_count_set_update(flags, at, lo + 1);
    }
}

/// With no flag set the count is nothing.
pub proof fn lemma_count_set_none(flags: Seq<bool>, lo: int)
    requires
        forall|i: int| 0 <= i < flags.len() ==> !flags[i],
    ensures
        count_set(flags, lo) == 0,
    decreases flags.len() - lo,
{
    if lo < flags.len() {
        lemma_count_set_none(flags, lo + 1);
    }
}

/// A row that is not completed sinks to a row of the board, at or below the
/// blank rows that come in on top.
pub proof fn lemma_sinks_within(flags: Seq<bool>, s: int)
    requires
        0 <= s < flags.len(),
        !flags[s],
    ensures
        count_set(flags, 0) <= s + count_set(flags, s + 1) < flags.len(),
{
    lemma_count_set_bounds(flags, s + 1);
    lemma_count_set_span(flags, 0, s);
}

/// Rows that are not completed keep their order when they sink.
pub proof fn lemma_sinks_in_order(flags: Seq<bool>, s1: int, s2: int)
    requires
        0 <= s1 < s2 < flags.len(),
        !flags[s2],
    ensures
        s1 + count_set(flags, s1 + 1) < s2 + count_set(flags, s2 + 1),
{
    lemma_count_set_span(flags, s1 + 1, s2);
}

/// Where every flag set in `a` is set in `b`, and `b` has one more set at
/// `at`, every count of `b` that reaches `at` is larger.
pub proof fn lemma_count_set_more(a: Seq<bool>, b: Seq<bool>, at: int, lo: int)
    requires
        a.len() == b.len(),
        forall|i: int| 0 <= i < a.len() && a[i] ==> b[i],
        0 <= at < a.len(),
        !a[at],
        b[at],
        0 <= lo,
    ensures
        count_set(a, lo) + (if lo <= at {
            1int
        } else {
            0int
        }) <= count_set(b, lo),
    decreases a.len() - lo,
{
    if lo < a.len() {
        lemma_count_set_more(a, b, at, lo + 1);
    }
}

/// Where no flag is set, none is set at any index.
pub proof fn lemma_count_set_zero(flags: Seq<bool>, i: int)
    requires
        count_set(flags, 0) == 0,
        0 <= i < flags.len(),
    ensures
        !flags[i],
        count_set(flags, i) == 0,
        count_set(flags, i + 1) == 0,
{
    lemma_count_set_span(flags, 0, i);
    lemma_count_set_bounds(flags, i);
    lemma_count_set_bounds(flags, i + 1);
}

impl Board {
    /// The cells of the board, row by row from the top.
    pub open spec fn cells(self) -> Seq<bool> {
        Seq::new(200, |i: int| self.occupied(i % 10, i / 10))
    }

    /// How many cells of the board are taken.
    pub open spec fn filled(self) -> int {
        count_set(self.cells(), 0)
    }
}

/// A placement that completes no row leaves every taken cell taken and
/// takes the cells of the piece that are on the board.
pub proof fn lemma_settles_without_clear(board: Board, m: Mino, after: Board)
    requires
        board.settles_to(m, after),
        board.completed_count(m) == 0,
    ensures
        forall|x: int, y: int|
            0 <= x < 10 && 0 <= y < 20 ==> #[trigger] after.occupied(x, y) == board.locked(m, x, y),
{
    let flags = board.completed_rows(m);
    assert forall|x: int, y: int| 0 <= x < 10 && 0 <= y < 20 implies #[trigger] after.occupied(
        x,
        y,
    ) == board.locked(m, x, y) by {
        lemma_count_set_zero(flags, y);
        assert(!board.row_completed(m, y));
        assert(board.sinks_to(m, y) == y);
        assert(after.occupied(x, board.sinks_to(m, y)) == board.locked(m, x, y));
    }
}

/// A piece with its pivot on the board, placed where it fits without
/// completing a row, leaves more cells taken than there were.
pub proof fn lemma_fills_without_clear(board: Board, m: Mino, after: Board)
    requires
        board.fits(m),
        m.spec_y() >= 0,
        board.settles_to(m, after),
        board.completed_count(m) == 0,
    ensures
        board.filled() < after.filled() <= 200,
{
    lemma_settles_without_clear(board, m, after);
    lemma_fits_pivot(board, m);
    lemma_covers_pivot(m);
    let i = choose|i: int| 0 <= i < 4 && #[trigger] m.cells()[i] == (m.spec_x(), m.spec_y());
    assert(board.admits(m.cells()[i]));
    let at = m.spec_y() * 10 + m.spec_x();
    let a = board.cells();
    let b = after.cells();
    assert(!a[at]);
    assert(after.occupied(m.spec_x(), m.spec_y()));
    assert(b[at]);
    assert forall|j: int| 0 <= j < 200 && a[j] implies b[j] by {
        assert(after.occupied(j % 10, j / 10) == board.locked(m, j % 10, j / 10));
    }
    lemma_count_set_more(a, b, at, 0);
    lemma_count_set_bounds(b, 0);
}

/// No more cells are taken than the board has.
pub proof fn lemma_filled_bounds(board: Board)
    ensures
        0 <= board.filled() <= 200,
{
    lemma_count_set_bounds(board.cells(), 0);
}

impl Board {
    /// The row of the topmost taken cell of column `x` at row `y` or
    /// below, or 20 if there is none.
    pub open spec fn depth_from(self, x: int, y: int) -> int
        decreases 20 - y,
    {
        if y >= 20 {
            20
        } else if self.occupied(x, y) {
            y
        } else {
            self.depth_from(x, y + 1)
        }
    }

    /// The depth of column `x`: the number of free cells above its topmost
    /// taken cell, 20 for an empty column.
    pub open spec fn depth(self, x: int) -> int {
        self.depth_from(x, 0)
    }
}

/// The depth of a column is the row above which the column is free and at
/// which, if on the board, it is taken.
pub proof fn lemma_depth_is_first_taken(board: Board, x: int, y: int, d: int)
    requires
        0 <= y <= d <= 20,
        forall|r: int| y <= r < d ==> !board.occupied(x, r),
        d < 20 ==> board.occupied(x, d),
    ensures
        board.depth_from(x, y) == d,
    decreases d - y,
{
    if y < d {
        lemma_depth_is_first_taken(board, x, y + 1, d);
    }
}

/// The last row above row `s` whose flag is clear, or -1 if there is none.
pub open spec fn open_row_above(flags: Seq<bool>, s: int) -> int
    decreases s,
{
    if s <= 0 {
        -1
    } else if !flags[s - 1] {
        s - 1
    } else {
        open_row_above(flags, s - 1)
    }
}

/// The row that sinks to row `y` when the flagged rows are taken out, or -1
/// if a blank row comes in there.
pub open spec fn source_row(flags: Seq<bool>, y: int) -> int
    decreases flags.len() - y,
{
    if y >= flags.len() {
        flags.len() as int
    } else if source_row(flags, y + 1) <= 0 {
        -1
    } else {
        open_row_above(flags, source_row(flags, y + 1))
    }
}

/// Between a row and the last clear row above it every flag is set.
pub proof fn lemma_open_row_above(flags: Seq<bool>, s: int)
    requires
        0 <= s <= flags.len(),
    ensures
        -1 <= open_row_above(flags, s) < s,
        open_row_above(flags, s) >= 0 ==> !flags[open_row_above(flags, s)],
        count_set(flags, open_row_above(flags, s) + 1) == (s - open_row_above(flags, s) - 1)
            + count_set(flags, s),
    decreases s,
{
    if s > 0 && flags[s - 1] {
        lemma_open_row_above(flags, s - 1);
    }
}

/// Every row is either one to which a clear row sinks, or one of the blank
/// rows that come in on top.
pub proof fn lemma_source_row(flags: Seq<bool>, y: int)
    requires
        0 <= y <= flags.len(),
    ensures
        -1 <= source_row(flags, y) <= flags.len(),
        0 <= source_row(flags, y) < flags.len() ==> !flags[source_row(flags, y)],
        source_row(flags, y) >= 0 ==> source_row(flags, y) + count_set(
            flags,
            source_row(flags, y) + 1,
        ) == y,
        source_row(flags, y) < 0 ==> y < count_set(flags, 0),
    decreases flags.len() - y,
{
    if y < flags.len() {
        let below = source_row(flags, y + 1);
        lemma_source_row(flags, y + 1);
        if below > 0 {
            lemma_open_row_above(flags, below);
        } else if below == 0 {
            assert(count_set(flags, 0) == count_set(flags, 1));
        }
    }
}

/// Locking a piece and clearing the completed rows leaves one board and
/// no other.
pub proof fn lemma_settles_once(board: Board, m: Mino, a: Board, b: Board)
    requires
        board.settles_to(m, a),
        board.settles_to(m, b),
    ensures
        a == b,
{
    let flags = board.completed_rows(m);
    assert forall|y: int| 0 <= y < 20 implies a.grid[y] == b.grid[y] by {
        lemma_source_row(flags, y);
        let s = source_row(flags, y);
        assert forall|x: int| 0 <= x < 10 implies a.grid[y][x] == b.grid[y][x] by {
            if s >= 0 {
                lemma_count_set_bounds(flags, s + 1);
                assert(!board.row_completed(m, s));
                assert(board.sinks_to(m, s) == y);
                assert(a.occupied(x, board.sinks_to(m, s)) == board.locked(m, x, s));
                assert(b.occupied(x, board.sinks_to(m, s)) == board.locked(m, x, s));
            } else {
                assert(!a.occupied(x, y));
                assert(!b.occupied(x, y));
            }
        }
        assert(a.grid[y] =~= b.grid[y]);
    }
    assert(a.grid =~= b.grid);
}

} // verus!
