//! Snapshots of a game: the board with its score, level and line counters,
//! and the rules by which locking a piece leads from one to the next.

use crate::board::{
    count_set, lemma_count_set_before_start, lemma_count_set_none, lemma_count_set_update,
    lemma_depth_is_first_taken, lemma_fits_pivot, lemma_settles_once, lemma_sinks_in_order, lemma_sinks_within, Board,
};
use crate::piece::{lemma_translated, lemma_translated_twice, lemma_translated_zero, Mino};
use vstd::prelude::*;

verus! {

/// Points that completing `k` rows with one piece is worth at level 0.
pub open spec fn line_reward(k: int) -> int {
    if k == 1 {
        40
    } else if k == 2 {
        100
    } else if k == 3 {
        300
    } else if k == 4 {
        1200
    } else {
        0
    }
}

/// Slice of the game frozen in time, and the primary interface through which
/// games can be simulated.
///
/// Has implementations for different methods of accessing/viewing the board
/// data which should aid in writing bots.
#[derive(Clone, Copy)]
pub struct State {
    pub board: Board,
    pub score: i32,
    pub level: i32,
    pub lines: i32,
}

/// Whether the piece covers the cell (`x`, `y`) with one of its first `n` cells.
spec fn covers_within(m: Mino, n: int, x: int, y: int) -> bool {
    exists|j: int| 0 <= j < n && #[trigger] m.cells()[j] == (x, y)
}

/// Whether one of the first `n` cells of the piece lies in row `y`.
spec fn touches_within(m: Mino, n: int, y: int) -> bool {
    exists|j: int| 0 <= j < n && (#[trigger] m.cells()[j]).1 == y
}

/// Whether row `y` of the board is blank.
spec fn row_blank(b: Board, y: int) -> bool {
    forall|x: int| 0 <= x < 10 ==> !#[trigger] b.grid[y][x]
}

impl State {
    /// The counters are in order: none is negative, and the level is at
    /// least a tenth of the lines cleared.
    pub open spec fn valid(self) -> bool {
        &&& 0 <= self.score
        &&& 0 <= self.lines
        &&& self.lines / 10 <= self.level
    }

    /// The counters leave room for the largest reward of one more piece.
    pub open spec fn has_headroom(self) -> bool {
        &&& self.score + 1200 * (self.level + 1) <= i32::MAX
        &&& self.lines + 4 <= i32::MAX
    }

    /// Whether `after` is the state that locking the piece into this one
    /// gives: the board settles, the lines grow by the number of completed
    /// rows, the score by their reward at the level before, and the level
    /// rises to a tenth of the lines where that is more.
    pub open spec fn places_to(self, m: Mino, after: State) -> bool {
        let k = self.board.completed_count(m);
        &&& self.board.settles_to(m, after.board)
        &&& after.lines == self.lines + k
        &&& after.score == self.score + line_reward(k) * (self.level + 1)
        &&& after.level == if self.level >= after.lines / 10 {
            self.level as int
        } else {
            after.lines / 10
        }
    }

    /// Whether the piece comes to rest after falling `d` rows: it fits all
    /// the way down and no further.
    pub open spec fn falls(self, m: Mino, d: int) -> bool {
        &&& 0 <= d
        &&& forall|j: int| 0 <= j <= d ==> self.board.fits(#[trigger] m.spec_translated(0, j))
        &&& !self.board.fits(m.spec_translated(0, d + 1))
    }

    /// Construct a brand new state - blank board, level 0.
    pub fn new() -> (s: State)
        ensures
            s.board.is_blank(),
            s.score == 0,
            s.level == 0,
            s.lines == 0,
    {
        State { board: Board::blank(), score: 0, level: 0, lines: 0 }
    }

    /// Construct a brand new state starting at a certain level.
    pub fn with_start(level: i32) -> (s: State)
        ensures
            s.board.is_blank(),
            s.score == 0,
            s.level == level,
            s.lines == 0,
    {
        State { board: Board::blank(), score: 0, level, lines: 0 }
    }

    /// Whether pieces can be placed into this state: its counters are in
    /// order and leave room for the reward of one more piece.
    pub fn is_playable(&self) -> (ok: bool)
        ensures
            ok == (self.valid() && self.has_headroom()),
    {
        self.score >= 0 && self.lines >= 0 && self.lines / 10 <= self.level && self.lines
            <= i32::MAX - 4 && self.score as i64 + 1200 * (self.level as i64 + 1) <= i32::MAX as i64
    }

    /// Produce a new state by placing `mino` on the board.
    /// Clears lines and updates score/level/lines.
    ///
    /// The resulting state is wrapped in `Option` because `mino` may be
    /// unplaceable.
    pub fn place(&self, mino: Mino) -> (r: Option<State>)
        requires
            self.valid(),
            self.has_headroom(),
        ensures
            r is None <==> !self.board.fits(mino),
            r matches Some(s) ==> self.places_to(mino, s) && s.valid(),
            0 <= self.board.completed_count(mino) <= 4,
    {
        proof {
            lemma_completes_at_most_four(self.board, mino);
        }
        if !self.board.can_place(mino) {
            return None;
        }
        let points = mino.points();
        let mut board = self.board;

        // Lock the cells of the piece that lie on the board.
        let mut i: usize = 0;
        while i < 4
            invariant
                i <= 4,
                self.board.fits(mino),
                forall|j: int|
                    0 <= j < 4 ==> (#[trigger] points[j]).0 == mino.cells()[j].0 && points[j].1
                        == mino.cells()[j].1,
                forall|x: int, y: int|
                    0 <= x < 10 && 0 <= y < 20 ==> #[trigger] board.occupied(x, y) == (
                    self.board.occupied(x, y) || covers_within(mino, i as int, x, y)),
            decreases 4 - i,
        {
            let (x, y) = points[i];
            assert(self.board.admits(mino.cells()[i as int]));
            let ghost before = board;
            if y >= 0 {
                board.grid[y as usize][x as usize] = true;
            }
            assert forall|cx: int, cy: int| 0 <= cx < 10 && 0 <= cy < 20 implies #[trigger] board.occupied(
                cx,
                cy,
            ) == (self.board.occupied(cx, cy) || covers_within(mino, i + 1, cx, cy)) by {
                if covers_within(mino, i + 1, cx, cy) {
                    let j = choose|j: int| 0 <= j < i + 1 && #[trigger] mino.cells()[j] == (cx, cy);
                    if j < i {
                        assert(covers_within(mino, i as int, cx, cy));
                    }
                }
                if covers_within(mino, i as int, cx, cy) {
                    let j = choose|j: int| 0 <= j < i && #[trigger] mino.cells()[j] == (cx, cy);
                    assert(0 <= j < i + 1 && mino.cells()[j] == (cx, cy));
                }
                if cx == x && cy == y {
                    assert(mino.cells()[i as int] == (cx, cy));
                }
                assert(before.occupied(cx, cy) == (self.board.occupied(cx, cy) || covers_within(
                    mino,
                    i as int,
                    cx,
                    cy,
                )));
            }
            i += 1;
        }
        assert forall|x: int, y: int| 0 <= x < 10 && 0 <= y < 20 implies #[trigger] board.occupied(
            x,
            y,
        ) == self.board.locked(mino, x, y) by {
            assert(covers_within(mino, 4, x, y) == mino.covers(x, y));
        }

        // Find the rows that the piece has completed.
        let mut cleared = [false;20];
        let mut n_cleared: i32 = 0;
        proof {
            lemma_count_set_none(cleared@, 0);
        }
        let mut i: usize = 0;
        while i < 4
            invariant
                i <= 4,
                self.board.fits(mino),
                forall|j: int|
                    0 <= j < 4 ==> (#[trigger] points[j]).0 == mino.cells()[j].0 && points[j].1
                        == mino.cells()[j].1,
                forall|x: int, y: int|
                    0 <= x < 10 && 0 <= y < 20 ==> #[trigger] board.occupied(x, y)
                        == self.board.locked(mino, x, y),
                forall|y: int|
                    0 <= y < 20 ==> #[trigger] cleared[y] == (touches_within(mino, i as int, y)
                        && forall|x: int| 0 <= x < 10 ==> #[trigger] self.board.locked(mino, x, y)),
                n_cleared == count_set(cleared@, 0),
                0 <= n_cleared <= i,
            decreases 4 - i,
        {
            let y = points[i].1;
            assert(self.board.admits(mino.cells()[i as int]));
            let ghost flags = cleared@;
            if y >= 0 {
                let row = y as usize;
                if !cleared[row] {
                    let full = board.row_is_full(row);
                    if full {
                        cleared[row] = true;
                        n_cleared += 1;
                        proof {
                            lemma_count_set_update(flags, row as int, 0);
                            assert(cleared@ =~= flags.update(row as int, true));
                        }
                    }
                }
            }
            assert forall|cy: int| 0 <= cy < 20 implies #[trigger] cleared[cy] == (touches_within(
                mino,
                i + 1,
                cy,
            ) && forall|x: int| 0 <= x < 10 ==> #[trigger] self.board.locked(mino, x, cy)) by {
                let full = forall|x: int| 0 <= x < 10 ==> #[trigger] self.board.locked(mino, x, cy);
                if full {
                    assert forall|x: int| 0 <= x < 10 implies #[trigger] board.occupied(x, cy) by {
                        assert(self.board.locked(mino, x, cy));
                    }
                } else {
                    let x = choose|x: int| 0 <= x < 10 && !#[trigger] self.board.locked(mino, x, cy);
                    assert(!board.occupied(x, cy));
                }
                if touches_within(mino, i + 1, cy) {
                    let j = choose|j: int| 0 <= j < i + 1 && (#[trigger] mino.cells()[j]).1 == cy;
                    if j < i {
                        assert(touches_within(mino, i as int, cy));
                    }
                }
                if touches_within(mino, i as int, cy) {
                    let j = choose|j: int| 0 <= j < i && (#[trigger] mino.cells()[j]).1 == cy;
                    assert(0 <= j < i + 1 && mino.cells()[j].1 == cy);
                }
                if cy == y {
                    assert(mino.cells()[i as int].1 == cy);
                }
            }
            i += 1;
        }
        let ghost flags = self.board.completed_rows(mino);
        proof {
            assert forall|y: int| 0 <= y < 20 implies cleared@[y] == flags[y] by {
                assert(touches_within(mino, 4, y) == mino.touches_row(y));
            }
            assert(cleared@ =~= flags);
        }

        // Let the rows above the completed ones sink, from the bottom up.
        let ghost locked = board;
        proof {
            assert forall|s: int| 0 <= s < 20 && !flags[s] implies s + count_set(flags, s + 1)
                < 20 by {
                lemma_sinks_within(flags, s);
            }
        }
        let mut shift: usize = 0;
        let mut y: usize = 20;
        while y > 0
            invariant
                y <= 20,
                cleared@ == flags,
                flags.len() == 20,
                shift == count_set(flags, y - shift),
                forall|r: int| 0 <= r < y ==> #[trigger] board.grid[r] == locked.grid[r],
                forall|s: int|
                    0 <= s < 20 && !flags[s] && s + count_set(flags, s + 1) >= y
                        ==> #[trigger] board.grid[s + count_set(flags, s + 1)] == locked.grid[s],
                forall|r: int|
                    y <= r < 20 && r < count_set(flags, 0) ==> #[trigger] row_blank(board, r),
            decreases y,
        {
            let dest = y - 1;
            while shift <= dest && cleared[dest - shift]
                invariant
                    dest < 20,
                    cleared@ == flags,
                    flags.len() == 20,
                    shift == count_set(flags, dest - shift + 1),
                decreases dest + 1 - shift,
            {
                shift += 1;
            }
            let ghost before = board;
            if shift > dest {
                board.grid[dest] = [false;10];
                proof {
                    lemma_count_set_before_start(flags, dest - shift + 1);
                    lemma_count_set_before_start(flags, dest - shift);
                    assert(row_blank(board, dest as int));
                }
            } else {
                let src = dest - shift;
                board.grid[dest] = board.grid[src];
                proof {
                    lemma_sinks_within(flags, src as int);
                }
            }
            proof {
                assert forall|s: int|
                    0 <= s < 20 && !flags[s] && s + count_set(flags, s + 1)
                        >= dest implies #[trigger] board.grid[s + count_set(flags, s + 1)]
                    == locked.grid[s] by {
                    lemma_sinks_within(flags, s);
                    if shift <= dest {
                        let src = dest - shift;
                        if s < src {
                            lemma_sinks_in_order(flags, s, src);
                        } else if s > src {
                            lemma_sinks_in_order(flags, src, s);
                        }
                    }
                    if s + count_set(flags, s + 1) > dest {
                        assert(before.grid[s + count_set(flags, s + 1)] == locked.grid[s]);
                    }
                }
                assert forall|r: int| dest <= r < 20 && r < count_set(flags, 0) implies #[trigger] row_blank(
                    board,
                    r,
                ) by {
                    if r > dest {
                        assert(row_blank(before, r));
                        assert(board.grid[r] == before.grid[r]);
                    }
                }
            }
            y = dest;
        }

        let score = self.score + if n_cleared == 1 {
            40 * (self.level + 1)
        } else if n_cleared == 2 {
            100 * (self.level + 1)
        } else if n_cleared == 3 {
            300 * (self.level + 1)
        } else if n_cleared == 4 {
            1200 * (self.level + 1)
        } else {
            0
        };
        let lines = self.lines + n_cleared;
        let level = if self.level >= lines / 10 {
            self.level
        } else {
            lines / 10
        };
        let after = State { board, score, level, lines };
        proof {
            assert(n_cleared == self.board.completed_count(mino));
            assert forall|x: int, s: int|
                0 <= x < 10 && 0 <= s < 20 && !self.board.row_completed(mino, s) implies board.occupied(
                x,
                self.board.sinks_to(mino, s),
            ) == #[trigger] self.board.locked(mino, x, s) by {
                lemma_sinks_within(flags, s);
                assert(board.grid[s + count_set(flags, s + 1)] == locked.grid[s]);
                assert(locked.occupied(x, s) == self.board.locked(mino, x, s));
            }
            assert forall|x: int, r: int|
                0 <= x < 10 && 0 <= r < self.board.completed_count(mino) implies !#[trigger] board.occupied(
                x,
                r,
            ) by {
                assert(row_blank(board, r));
            }
        }
        Some(after)
    }

    /// Produce a new state by dropping `mino` onto the board: the piece falls
    /// row by row for as long as it fits, and is placed where it comes to
    /// rest. There is no such state if the piece does not fit where it is.
    pub fn drop(&self, mino: Mino) -> (r: Option<State>)
        requires
            self.valid(),
            self.has_headroom(),
        ensures
            r is None <==> !self.board.fits(mino),
            r matches Some(s) ==> s.valid() && exists|d: int|
                #![trigger self.falls(mino, d)]
                self.falls(mino, d) && self.places_to(mino.spec_translated(0, d), s),
    {
        if !self.board.can_place(mino) {
            return None;
        }
        let mut resting = mino;
        let ghost mut d: int = 0;
        proof {
            use_type_invariant(&mino);
            crate::piece::lemma_wf_bounds(mino);
            lemma_translated_zero(mino);
        }
        loop
            invariant_except_break
                mino.wf(),
                resting.wf(),
                0 <= d,
                resting == mino.spec_translated(0, d),
                mino.can_shift(0, d),
                forall|j: int| 0 <= j <= d ==> self.board.fits(#[trigger] mino.spec_translated(0, j)),
            ensures
                self.falls(mino, d),
                resting == mino.spec_translated(0, d),
            decreases 20 - resting.spec_y(),
        {
            proof {
                lemma_fits_pivot(self.board, resting);
                crate::piece::lemma_wf_bounds(resting);
                crate::piece::lemma_wf_bounds(mino);
                lemma_translated(mino, 0, d);
                lemma_translated_twice(mino, 0, d, 0, 1);
            }
            let lower = resting.translated(0, 1);
            if !self.board.can_place(lower) {
                break ;
            }
            resting = lower;
            proof {
                d = d + 1;
            }
        }
        let placed = self.place(resting);
        placed
    }

    /// Get row `y` from the board.
    pub fn row(&self, y: usize) -> (r: [bool; 10])
        requires
            y < 20,
        ensures
            forall|x: int| 0 <= x < 10 ==> r[x] == self.board.occupied(x, y as int),
    {
        self.board.grid[y]
    }

    /// Get column `x` from the board.
    pub fn column(&self, x: usize) -> (c: [bool; 20])
        requires
            x < 10,
        ensures
            forall|y: int| 0 <= y < 20 ==> c[y] == self.board.occupied(x as int, y),
    {
        let mut col = [false;20];
        let mut y: usize = 0;
        while y < 20
            invariant
                y <= 20,
                x < 10,
                forall|r: int| 0 <= r < y ==> col[r] == self.board.occupied(x as int, r),
            decreases 20 - y,
        {
            col[y] = self.board.grid[y][x];
            y += 1;
        }
        col
    }

    /// Get cell (x, y) from the board.
    pub fn cell(&self, x: usize, y: usize) -> (c: bool)
        requires
            x < 10,
            y < 20,
        ensures
            c == self.board.occupied(x as int, y as int),
    {
        self.board.grid[y][x]
    }

    /// Get the "depth" (number of consecutive empty cells from the top) of
    /// column `x`: the row of its topmost taken cell, or 20 if it has none.
    pub fn column_depth(&self, x: usize) -> (depth: usize)
        requires
            x < 10,
        ensures
            depth == self.board.depth(x as int),
            depth <= 20,
            forall|y: int| 0 <= y < depth ==> !self.board.occupied(x as int, y),
            depth < 20 ==> self.board.occupied(x as int, depth as int),
    {
        let mut y: usize = 0;
        while y < 20
            invariant
                y <= 20,
                x < 10,
                forall|r: int| 0 <= r < y ==> !self.board.occupied(x as int, r),
            decreases 20 - y,
        {
            if self.board.grid[y][x] {
                proof {
                    lemma_depth_is_first_taken(self.board, x as int, 0, y as int);
                }
                return y;
            }
            y += 1;
        }
        proof {
            lemma_depth_is_first_taken(self.board, x as int, 0, 20);
        }
        20
    }
}

/// The flags of the rows that the first `n` cells of the piece complete.
spec fn completed_within(board: Board, m: Mino, n: int) -> Seq<bool> {
    Seq::new(
        20,
        |y: int|
            touches_within(m, n, y) && forall|x: int|
                0 <= x < 10 ==> #[trigger] board.locked(m, x, y),
    )
}

/// The first `n` cells of a piece complete at most `n` rows.
proof fn lemma_completed_within(board: Board, m: Mino, n: int)
    requires
        0 <= n <= 4,
    ensures
        0 <= count_set(completed_within(board, m, n), 0) <= n,
    decreases n,
{
    if n == 0 {
        lemma_count_set_none(completed_within(board, m, 0), 0);
    } else {
        lemma_completed_within(board, m, n - 1);
        let before = completed_within(board, m, n - 1);
        let after = completed_within(board, m, n);
        let y = m.cells()[n - 1].1;
        assert forall|r: int| 0 <= r < 20 && r != y implies after[r] == before[r] by {
            if touches_within(m, n, r) {
                let j = choose|j: int| 0 <= j < n && (#[trigger] m.cells()[j]).1 == r;
                assert(touches_within(m, n - 1, r));
            }
            if touches_within(m, n - 1, r) {
                let j = choose|j: int| 0 <= j < n - 1 && (#[trigger] m.cells()[j]).1 == r;
                assert(0 <= j < n && m.cells()[j].1 == r);
            }
        }
        if 0 <= y < 20 && after[y] && !before[y] {
            lemma_count_set_update(before, y, 0);
            assert(after =~= before.update(y, true));
        } else {
            assert forall|r: int| 0 <= r < 20 implies after[r] == before[r] by {
                if r == y && before[y] {
                    let j = choose|j: int| 0 <= j < n - 1 && (#[trigger] m.cells()[j]).1 == y;
                    assert(0 <= j < n && m.cells()[j].1 == y);
                }
            }
            assert(after =~= before);
        }
    }
}

/// One piece completes at most four rows.
pub proof fn lemma_completes_at_most_four(board: Board, m: Mino)
    ensures
        0 <= board.completed_count(m) <= 4,
{
    lemma_completed_within(board, m, 4);
    assert forall|y: int| 0 <= y < 20 implies completed_within(board, m, 4)[y]
        == board.completed_rows(m)[y] by {
        assert(touches_within(m, 4, y) == m.touches_row(y));
    }
    assert(completed_within(board, m, 4) =~= board.completed_rows(m));
}

/// Line-clear scoring: a placement that completes `k` rows completes none,
/// one, two, three or four; it adds `k` to the lines, and to the score
/// nothing, 40, 100, 300 or 1200 times one more than the level before.
pub proof fn lemma_placement_reward(before: State, m: Mino, after: State)
    requires
        before.places_to(m, after),
    ensures
        0 <= before.board.completed_count(m) <= 4,
        after.lines - before.lines == before.board.completed_count(m),
        after.lines - before.lines == 0 ==> after.score == before.score,
        after.lines - before.lines == 1 ==> after.score - before.score == 40 * (before.level + 1),
        after.lines - before.lines == 2 ==> after.score - before.score == 100 * (before.level + 1),
        after.lines - before.lines == 3 ==> after.score - before.score == 300 * (before.level + 1),
        after.lines - before.lines == 4 ==> after.score - before.score == 1200 * (before.level
            + 1),
{
    lemma_completes_at_most_four(before.board, m);
}

/// Whether `states` is a chain of placements: each state but the first is
/// the one before it with the piece `minos[i]` placed.
pub open spec fn is_chain(states: Seq<State>, minos: Seq<Mino>) -> bool {
    &&& states.len() == minos.len() + 1
    &&& forall|i: int|
        0 <= i < minos.len() ==> (#[trigger] states[i]).places_to(minos[i], states[i + 1])
}

/// Along a chain of placements the lines and the level never fall, and
/// after at least one placement the level is a tenth of the lines, rounded
/// down, wherever that exceeds the level at the outset.
pub proof fn lemma_level_never_falls(states: Seq<State>, minos: Seq<Mino>, i: int, j: int)
    requires
        is_chain(states, minos),
        0 <= i <= j < states.len(),
    ensures
        states[i].lines <= states[j].lines,
        states[i].level <= states[j].level,
        i < j ==> states[j].level == if states[i].level >= states[j].lines / 10 {
            states[i].level as int
        } else {
            states[j].lines / 10
        },
    decreases j - i,
{
    if i < j {
        lemma_level_never_falls(states, minos, i, j - 1);
        assert(states[j - 1].places_to(minos[j - 1], states[j]));
        lemma_completes_at_most_four(states[j - 1].board, minos[j - 1]);
    }
}

/// Placing a piece into a state gives one state and no other.
pub proof fn lemma_places_once(before: State, m: Mino, a: State, b: State)
    requires
        before.places_to(m, a),
        before.places_to(m, b),
    ensures
        a == b,
{
    lemma_settles_once(before.board, m, a.board, b.board);
}

/// A piece that is dropped comes to rest after one number of rows and no
/// other.
pub proof fn lemma_falls_once(state: State, m: Mino, d1: int, d2: int)
    requires
        state.falls(m, d1),
        state.falls(m, d2),
    ensures
        d1 == d2,
{
    if d1 < d2 {
        assert(state.board.fits(m.spec_translated(0, d1 + 1)));
    } else if d2 < d1 {
        assert(state.board.fits(m.spec_translated(0, d2 + 1)));
    }
}

} // verus!
