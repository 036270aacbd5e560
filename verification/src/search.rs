//! Enumerating placements: a breadth-first search over the positions a
//! piece can reach by single moves, which collects those where it rests.

use crate::board::{lemma_fits_pivot, Board};
use crate::piece::{
    lemma_mino_ext, lemma_rotated, lemma_translated, lemma_wf_bounds, Mino, MinoShape,
};
use crate::state::State;
use std::collections::VecDeque;
use vstd::prelude::*;
use vstd::set_lib::{lemma_int_range, lemma_len_subset, set_int_range};

verus! {

/// Number of positions the search tells apart: columns, rows and rotation states.
pub const SEARCH_SPACE: usize = 800;

/// Whether `b` comes from `a` by a single move: one row down, one column
/// left or right, or one turn either way.
pub open spec fn steps_to(a: Mino, b: Mino) -> bool {
    ||| b == a.spec_translated(0, 1)
    ||| b == a.spec_translated(-1, 0)
    ||| b == a.spec_translated(1, 0)
    ||| b == a.spec_rotated(-1)
    ||| b == a.spec_rotated(1)
}

/// Whether `path` is a walk on the board: a sequence of pieces that all
/// fit, each a single move from the one before.
pub open spec fn is_walk(board: Board, path: Seq<Mino>) -> bool {
    &&& path.len() > 0
    &&& forall|i: int| 0 <= i < path.len() ==> (#[trigger] path[i]).wf() && board.fits(path[i])
    &&& forall|i: int| 0 <= i < path.len() - 1 ==> steps_to(#[trigger] path[i], path[i + 1])
}

/// Whether the piece `m` can be reached from `start` by single moves
/// through positions that fit.
pub open spec fn reaches(board: Board, start: Mino, m: Mino) -> bool {
    exists|path: Seq<Mino>| #[trigger] is_walk(board, path) && path[0] == start && path.last() == m
}

impl State {
    /// Whether `found` lists the placements of a piece that starts at
    /// `start`: each entry is a position where the piece rests and that it
    /// can reach, with the state that placing it there gives; no position
    /// comes twice; and no such position is left out.
    pub open spec fn enumerates(self, start: Mino, found: Seq<(State, Mino)>) -> bool {
        &&& forall|i: int|
            0 <= i < found.len() ==> {
                let (state, mino) = #[trigger] found[i];
                &&& mino.wf()
                &&& reaches(self.board, start, mino)
                &&& self.board.rests(mino)
                &&& self.places_to(mino, state)
                &&& state.valid()
            }
        &&& forall|i: int, j: int|
            0 <= i < j < found.len() ==> (#[trigger] found[i]).1 != (#[trigger] found[j]).1
        &&& forall|m: Mino|
            m.wf() && #[trigger] reaches(self.board, start, m) && self.board.rests(m) ==> exists|
                i: int,
            |
                0 <= i < found.len() && (#[trigger] found[i]).1 == m
    }
}

/// The marks of the search, by column, row and rotation state.
type Marks = [[[bool; 4]; 20]; 10];

/// Whether the piece is of the shape searched for, at a position that the
/// marks cover, and marked.
spec fn marked(marks: Marks, shape: MinoShape, m: Mino) -> bool {
    &&& m.wf()
    &&& m.spec_shape() == shape
    &&& 0 <= m.spec_x() < 10
    &&& 0 <= m.spec_y() < 20
    &&& 0 <= m.spec_rotation() < 4
    &&& marks[m.spec_x()][m.spec_y()][m.spec_rotation()]
}

/// The number that stands for a position among the marks.
spec fn key(x: int, y: int, r: int) -> int {
    (x * 20 + y) * 4 + r
}

/// Whether `after` has the marks of `before` and that of the piece `q`.
spec fn marks_with(before: Marks, after: Marks, q: Mino) -> bool {
    forall|x: int, y: int, r: int|
        0 <= x < 10 && 0 <= y < 20 && 0 <= r < 4 ==> #[trigger] after[x][y][r] == (before[x][y][r]
            || (x == q.spec_x() && y == q.spec_y() && r == q.spec_rotation()))
}

/// Every piece that waits in the queue is of the shape searched for, not
/// above the top row, and reachable if it fits.
spec fn queue_ok(board: Board, start: Mino, queue: Seq<Mino>) -> bool {
    forall|i: int|
        0 <= i < queue.len() ==> {
            let q = #[trigger] queue[i];
            &&& q.wf()
            &&& q.spec_shape() == start.spec_shape()
            &&& q.spec_y() >= 0
            &&& board.fits(q) ==> reaches(board, start, q)
        }
}

/// Every marked piece fits and is reachable.
spec fn marks_sound(marks: Marks, board: Board, start: Mino) -> bool {
    forall|m: Mino| #[trigger]
        marked(marks, start.spec_shape(), m) ==> board.fits(m) && reaches(board, start, m)
}

/// Every fitting piece one move from a marked one is marked or waits in
/// the queue.
spec fn frontier_ok(marks: Marks, board: Board, start: Mino, queue: Seq<Mino>) -> bool {
    forall|m: Mino, n: Mino|
        #![trigger steps_to(m, n)]
        marked(marks, start.spec_shape(), m) && steps_to(m, n) && n.wf() && board.fits(n)
            ==> marked(marks, start.spec_shape(), n) || queue.contains(n)
}

/// The start piece, if it fits, is marked or waits in the queue.
spec fn start_ok(marks: Marks, board: Board, start: Mino, queue: Seq<Mino>) -> bool {
    board.fits(start) ==> marked(marks, start.spec_shape(), start) || queue.contains(start)
}

/// The placements found are those of the marked pieces that rest, each once.
spec fn found_ok(state: State, marks: Marks, start: Mino, found: Seq<(State, Mino)>) -> bool {
    &&& forall|i: int|
        0 <= i < found.len() ==> {
            let (after, mino) = #[trigger] found[i];
            &&& marked(marks, start.spec_shape(), mino)
            &&& state.board.rests(mino)
            &&& state.places_to(mino, after)
            &&& after.valid()
        }
    &&& forall|i: int, j: int|
        0 <= i < j < found.len() ==> (#[trigger] found[i]).1 != (#[trigger] found[j]).1
    &&& forall|m: Mino| #[trigger]
        marked(marks, start.spec_shape(), m) && state.board.rests(m) ==> exists|i: int|
            0 <= i < found.len() && (#[trigger] found[i]).1 == m
}

/// The set `seen` holds the keys of the marked positions.
spec fn seen_ok(marks: Marks, seen: Set<int>) -> bool {
    &&& seen.finite()
    &&& forall|k: int| seen.contains(k) ==> 0 <= k < 800
    &&& forall|x: int, y: int, r: int|
        0 <= x < 10 && 0 <= y < 20 && 0 <= r < 4 ==> (#[trigger] marks[x][y][r] <==> seen.contains(
            key(x, y, r),
        ))
}

/// A piece that fits is reached from itself.
proof fn lemma_reaches_self(board: Board, start: Mino)
    requires
        start.wf(),
        board.fits(start),
    ensures
        reaches(board, start, start),
{
    let path = seq![start];
    assert(is_walk(board, path));
    assert(path[0] == start && path.last() == start);
}

/// A fitting piece one move from a reached one is reached.
proof fn lemma_walk_extend(board: Board, start: Mino, a: Mino, b: Mino)
    requires
        reaches(board, start, a),
        steps_to(a, b),
        b.wf(),
        board.fits(b),
    ensures
        reaches(board, start, b),
{
    let path = choose|path: Seq<Mino>| #[trigger]
        is_walk(board, path) && path[0] == start && path.last() == a;
    let longer = path.push(b);
    assert forall|i: int| 0 <= i < longer.len() implies (#[trigger] longer[i]).wf() && board.fits(
        longer[i],
    ) by {
        if i < path.len() {
            assert(longer[i] == path[i]);
        }
    }
    assert forall|i: int| 0 <= i < longer.len() - 1 implies steps_to(
        #[trigger] longer[i],
        longer[i + 1],
    ) by {
        if i < path.len() - 1 {
            assert(longer[i] == path[i]);
            assert(longer[i + 1] == path[i + 1]);
        } else {
            assert(longer[i] == a);
            assert(longer[i + 1] == b);
        }
    }
    assert(is_walk(board, longer));
    assert(longer[0] == path[0]);
    assert(longer.last() == b);
}

/// Once the queue is empty, every piece on a walk from the start is marked.
proof fn lemma_walk_marked(marks: Marks, board: Board, start: Mino, path: Seq<Mino>, i: int)
    requires
        is_walk(board, path),
        path[0] == start,
        start_ok(marks, board, start, Seq::<Mino>::empty()),
        frontier_ok(marks, board, start, Seq::<Mino>::empty()),
        0 <= i < path.len(),
    ensures
        marked(marks, start.spec_shape(), path[i]),
    decreases i,
{
    if i == 0 {
        assert(board.fits(path[0]));
    } else {
        lemma_walk_marked(marks, board, start, path, i - 1);
        assert(steps_to(path[i - 1], path[i]));
        assert(path[i].wf() && board.fits(path[i]));
    }
}

/// With the mark of `q` added, the marked pieces are those marked before
/// and `q`.
proof fn lemma_marked_with(before: Marks, after: Marks, shape: MinoShape, q: Mino, m: Mino)
    requires
        marks_with(before, after, q),
        q.wf(),
        q.spec_shape() == shape,
        0 <= q.spec_x() < 10,
        0 <= q.spec_y() < 20,
        0 <= q.spec_rotation() < 4,
    ensures
        marked(after, shape, m) <==> (marked(before, shape, m) || m == q),
{
    if marked(after, shape, m) && !marked(before, shape, m) {
        assert(after[m.spec_x()][m.spec_y()][m.spec_rotation()]);
        lemma_mino_ext(m, q);
    }
    if m == q {
        assert(after[q.spec_x()][q.spec_y()][q.spec_rotation()]);
    }
    if marked(before, shape, m) {
        assert(after[m.spec_x()][m.spec_y()][m.spec_rotation()]);
    }
}

/// Taking the first piece off the queue keeps the frontier in order when
/// that piece does not fit or is marked.
proof fn lemma_after_pop(marks: Marks, board: Board, start: Mino, queue: Seq<Mino>)
    requires
        queue.len() > 0,
        queue_ok(board, start, queue),
        frontier_ok(marks, board, start, queue),
        start_ok(marks, board, start, queue),
        !board.fits(queue[0]) || marked(marks, start.spec_shape(), queue[0]),
    ensures
        queue_ok(board, start, queue.subrange(1, queue.len() as int)),
        frontier_ok(marks, board, start, queue.subrange(1, queue.len() as int)),
        start_ok(marks, board, start, queue.subrange(1, queue.len() as int)),
{
    let rest = queue.subrange(1, queue.len() as int);
    let shape = start.spec_shape();
    assert forall|i: int| 0 <= i < rest.len() implies {
        let q = #[trigger] rest[i];
        &&& q.wf()
        &&& q.spec_shape() == start.spec_shape()
        &&& q.spec_y() >= 0
        &&& board.fits(q) ==> reaches(board, start, q)
    } by {
        assert(rest[i] == queue[i + 1]);
    }
    assert forall|n: Mino| queue.contains(n) && n != queue[0] implies rest.contains(n) by {
        let i = choose|i: int| 0 <= i < queue.len() && queue[i] == n;
        assert(rest[i - 1] == n);
    }
    assert forall|m: Mino, n: Mino|
        #![trigger steps_to(m, n)]
        marked(marks, shape, m) && steps_to(m, n) && n.wf() && board.fits(n) implies marked(
        marks,
        shape,
        n,
    ) || rest.contains(n) by {
        if !marked(marks, shape, n) {
            assert(queue.contains(n));
            assert(n != queue[0]);
        }
    }
}

/// Marking the first piece of the queue and queueing its five neighbours
/// keeps the search in order.
proof fn lemma_after_visit(
    state: State,
    before: Marks,
    after: Marks,
    start: Mino,
    queue: Seq<Mino>,
    grown: Seq<Mino>,
    found: Seq<(State, Mino)>,
)
    requires
        queue.len() > 0,
        queue[0].wf(),
        state.board.fits(queue[0]),
        !marked(before, start.spec_shape(), queue[0]),
        marks_with(before, after, queue[0]),
        grown == queue.subrange(1, queue.len() as int).push(
            queue[0].spec_translated(0, 1),
        ).push(queue[0].spec_translated(-1, 0)).push(queue[0].spec_translated(1, 0)).push(
            queue[0].spec_rotated(-1),
        ).push(queue[0].spec_rotated(1)),
        queue_ok(state.board, start, queue),
        marks_sound(before, state.board, start),
        frontier_ok(before, state.board, start, queue),
        start_ok(before, state.board, start, queue),
        found_ok(state, before, start, found),
    ensures
        queue_ok(state.board, start, grown),
        marks_sound(after, state.board, start),
        frontier_ok(after, state.board, start, grown),
        start_ok(after, state.board, start, grown),
        forall|i: int|
            0 <= i < found.len() ==> marked(after, start.spec_shape(), (#[trigger] found[i]).1)
                && found[i].1 != queue[0],
        forall|m: Mino| #[trigger]
            marked(after, start.spec_shape(), m) && state.board.rests(m) && m != queue[0]
                ==> exists|i: int| 0 <= i < found.len() && (#[trigger] found[i]).1 == m,
        marked(after, start.spec_shape(), queue[0]),
{
    let board = state.board;
    let shape = start.spec_shape();
    let q = queue[0];
    let rest = queue.subrange(1, queue.len() as int);
    let base = rest.len() as int;
    let down = q.spec_translated(0, 1);
    let left = q.spec_translated(-1, 0);
    let right = q.spec_translated(1, 0);
    let ccw = q.spec_rotated(-1);
    let cw = q.spec_rotated(1);
    lemma_fits_pivot(board, q);
    lemma_wf_bounds(q);
    lemma_translated(q, 0, 1);
    lemma_translated(q, -1, 0);
    lemma_translated(q, 1, 0);
    lemma_rotated(q, -1);
    lemma_rotated(q, 1);
    assert(reaches(board, start, q));
    assert(grown.len() == rest.len() + 5);
    assert forall|i: int| 0 <= i < rest.len() implies grown[i] == queue[i + 1] by {
        assert(rest[i] == queue[i + 1]);
    }
    assert(grown[base] == down);
    assert(grown[base + 1] == left);
    assert(grown[base + 2] == right);
    assert(grown[base + 3] == ccw);
    assert(grown[base + 4] == cw);
    assert forall|n: Mino| queue.contains(n) && n != q implies grown.contains(n) by {
        let i = choose|i: int| 0 <= i < queue.len() && queue[i] == n;
        assert(grown[i - 1] == n);
    }
    assert forall|i: int| 0 <= i < grown.len() implies {
        let p = #[trigger] grown[i];
        &&& p.wf()
        &&& p.spec_shape() == start.spec_shape()
        &&& p.spec_y() >= 0
        &&& board.fits(p) ==> reaches(board, start, p)
    } by {
        let p = grown[i];
        if i < rest.len() {
            assert(p == queue[i + 1]);
        } else {
            assert(steps_to(q, p));
            if board.fits(p) {
                lemma_walk_extend(board, start, q, p);
            }
        }
    }
    assert forall|m: Mino| #[trigger] marked(after, shape, m) implies board.fits(m) && reaches(
        board,
        start,
        m,
    ) by {
        lemma_marked_with(before, after, shape, q, m);
    }
    assert forall|m: Mino, n: Mino|
        #![trigger steps_to(m, n)]
        marked(after, shape, m) && steps_to(m, n) && n.wf() && board.fits(n) implies marked(
        after,
        shape,
        n,
    ) || grown.contains(n) by {
        lemma_marked_with(before, after, shape, q, m);
        lemma_marked_with(before, after, shape, q, n);
        if m == q {
            if n == down {
                assert(grown[base] == n);
            } else if n == left {
                assert(grown[base + 1] == n);
            } else if n == right {
                assert(grown[base + 2] == n);
            } else if n == ccw {
                assert(grown[base + 3] == n);
            } else {
                assert(grown[base + 4] == n);
            }
        } else if !marked(before, shape, n) && n != q {
            assert(queue.contains(n));
        }
    }
    lemma_marked_with(before, after, shape, q, start);
    lemma_marked_with(before, after, shape, q, q);
    assert forall|i: int| 0 <= i < found.len() implies marked(
        after,
        shape,
        (#[trigger] found[i]).1,
    ) && found[i].1 != q by {
        lemma_marked_with(before, after, shape, q, found[i].1);
    }
    assert forall|m: Mino| #[trigger]
        marked(after, shape, m) && board.rests(m) && m != q implies exists|i: int|
        0 <= i < found.len() && (#[trigger] found[i]).1 == m by {
        lemma_marked_with(before, after, shape, q, m);
    }
}

/// Adding the key of a position not marked so far keeps the set of keys
/// in step with the marks, and makes it larger by one.
proof fn lemma_seen_grows(before: Marks, after: Marks, q: Mino, seen: Set<int>)
    requires
        seen_ok(before, seen),
        marks_with(before, after, q),
        0 <= q.spec_x() < 10,
        0 <= q.spec_y() < 20,
        0 <= q.spec_rotation() < 4,
        !before[q.spec_x()][q.spec_y()][q.spec_rotation()],
    ensures
        seen_ok(after, seen.insert(key(q.spec_x(), q.spec_y(), q.spec_rotation()))),
        seen.insert(key(q.spec_x(), q.spec_y(), q.spec_rotation())).len() == seen.len() + 1,
        seen.len() < 800,
{
    let k = key(q.spec_x(), q.spec_y(), q.spec_rotation());
    let grown = seen.insert(k);
    assert(!seen.contains(k));
    assert forall|x: int, y: int, r: int| 0 <= x < 10 && 0 <= y < 20 && 0 <= r < 4 implies (
    #[trigger] after[x][y][r] <==> grown.contains(key(x, y, r))) by {
        assert(before[x][y][r] <==> seen.contains(key(x, y, r)));
    }
    lemma_int_range(0, 800);
    assert(grown.subset_of(set_int_range(0, 800)));
    lemma_len_subset(grown, set_int_range(0, 800));
}

impl State {
    /// Get all possible future board states and the minos that cause them,
    /// for a piece that starts at `start`: every position where the piece
    /// rests and that it can reach from there by moving one row down, one
    /// column left or right, or by one turn either way, through positions
    /// where it fits.
    pub fn possibilities_from(&self, start: Mino) -> (found: Vec<(State, Mino)>)
        requires
            self.valid(),
            self.has_headroom(),
            start.spec_y() >= 0,
        ensures
            self.enumerates(start, found@),
            found.len() <= SEARCH_SPACE,
    {
        let ghost shape = start.spec_shape();
        let mut visited: Marks = [[[false;4];20];10];
        let mut queue: VecDeque<Mino> = VecDeque::new();
        queue.push_back(start);
        let mut found: Vec<(State, Mino)> = Vec::new();
        let ghost mut seen: Set<int> = Set::empty();
        proof {
            use_type_invariant(&start);
            assert(queue@ =~= seq![start]);
            if self.board.fits(start) {
                lemma_reaches_self(self.board, start);
            }
            assert(queue@[0] == start);
            assert(queue@.contains(start));
        }
        while queue.len() > 0
            invariant
                self.valid(),
                self.has_headroom(),
                shape == start.spec_shape(),
                queue_ok(self.board, start, queue@),
                marks_sound(visited, self.board, start),
                frontier_ok(visited, self.board, start, queue@),
                start_ok(visited, self.board, start, queue@),
                found_ok(*self, visited, start, found@),
                seen_ok(visited, seen),
                found.len() <= seen.len() <= 800,
            decreases 5 * (800 - seen.len()) + queue.len(),
        {
            let ghost waiting = queue@;
            let ghost marks = visited;
            let mino = queue.pop_front().unwrap();
            assert(mino == waiting[0]);
            let ghost rest = waiting.subrange(1, waiting.len() as int);
            if self.board.can_place(mino) {
                proof {
                    lemma_fits_pivot(self.board, mino);
                    lemma_wf_bounds(mino);
                }
                let xi = mino.x() as usize;
                let yi = mino.y() as usize;
                let ri = mino.rotation() as usize;
                if !visited[xi][yi][ri] {
                    visited[xi][yi][ri] = true;
                    assert(marks_with(marks, visited, mino));
                    let down = mino.translated(0, 1);
                    queue.push_back(down);
                    queue.push_back(mino.translated(-1, 0));
                    queue.push_back(mino.translated(1, 0));
                    queue.push_back(mino.rotated(-1));
                    queue.push_back(mino.rotated(1));
                    proof {
                        lemma_after_visit(*self, marks, visited, start, waiting, queue@, found@);
                        lemma_seen_grows(marks, visited, mino, seen);
                        seen = seen.insert(key(xi as int, yi as int, ri as int));
                    }
                    if !self.board.can_place(down) {
                        let ghost earlier = found@;
                        let placed = self.place(mino).unwrap();
                        found.push((placed, mino));
                        proof {
                            assert forall|i: int| 0 <= i < found@.len() implies {
                                let (after, m) = #[trigger] found@[i];
                                &&& marked(visited, shape, m)
                                &&& self.board.rests(m)
                                &&& self.places_to(m, after)
                                &&& after.valid()
                            } by {
                                if i < earlier.len() {
                                    assert(found@[i] == earlier[i]);
                                }
                            }
                            assert forall|i: int, j: int|
                                0 <= i < j < found@.len() implies (#[trigger] found@[i]).1 != (
                            #[trigger] found@[j]).1 by {
                                assert(found@[i] == earlier[i]);
                                if j < earlier.len() {
                                    assert(found@[j] == earlier[j]);
                                }
                            }
                            assert forall|m: Mino| #[trigger]
                                marked(visited, shape, m) && self.board.rests(
                                    m,
                                ) implies exists|i: int|
                                0 <= i < found@.len() && (#[trigger] found@[i]).1 == m by {
                                if m == mino {
                                    assert(found@[earlier.len() as int].1 == m);
                                } else {
                                    let i = choose|i: int|
                                        0 <= i < earlier.len() && (#[trigger] earlier[i]).1 == m;
                                    assert(found@[i] == earlier[i]);
                                }
                            }
                        }
                    } else {
                        proof {
                            assert forall|m: Mino| #[trigger]
                                marked(visited, shape, m) && self.board.rests(
                                    m,
                                ) implies exists|i: int|
                                0 <= i < found@.len() && (#[trigger] found@[i]).1 == m by {
                                assert(m != mino);
                            }
                        }
                    }
                } else {
                    proof {
                        lemma_after_pop(visited, self.board, start, waiting);
                    }
                }
            } else {
                proof {
                    lemma_after_pop(visited, self.board, start, waiting);
                }
            }
        }
        proof {
            assert(queue@ =~= Seq::<Mino>::empty());
            assert forall|m: Mino|
                m.wf() && #[trigger] reaches(self.board, start, m) && self.board.rests(
                    m,
                ) implies exists|i: int| 0 <= i < found@.len() && (#[trigger] found@[i]).1 == m by {
                let path = choose|path: Seq<Mino>| #[trigger]
                    is_walk(self.board, path) && path[0] == start && path.last() == m;
                lemma_walk_marked(visited, self.board, start, path, path.len() - 1);
            }
        }
        found
    }

    /// Get all possible future board states and the minos that cause them,
    /// for a new piece of shape `next`.
    pub fn possibilities(&self, next: MinoShape) -> (found: Vec<(State, Mino)>)
        requires
            self.valid(),
            self.has_headroom(),
        ensures
            self.enumerates(Mino::spawn(next), found@),
            found.len() <= SEARCH_SPACE,
    {
        self.possibilities_from(Mino::new(next))
    }
}

/// Along a walk a piece keeps its shape and never rises.
pub proof fn lemma_walk_sinks(board: Board, path: Seq<Mino>, i: int)
    requires
        is_walk(board, path),
        0 <= i < path.len(),
    ensures
        path[i].spec_shape() == path[0].spec_shape(),
        path[i].spec_y() >= path[0].spec_y(),
    decreases i,
{
    if i > 0 {
        lemma_walk_sinks(board, path, i - 1);
        let a = path[i - 1];
        assert(a.wf() && board.fits(a));
        assert(steps_to(a, path[i]));
        lemma_fits_pivot(board, a);
        lemma_wf_bounds(a);
        lemma_translated(a, 0, 1);
        lemma_translated(a, -1, 0);
        lemma_translated(a, 1, 0);
        lemma_rotated(a, -1);
        lemma_rotated(a, 1);
    }
}

/// A piece reached from `start` has the shape of `start`, fits, and is not
/// above it.
pub proof fn lemma_reached_sinks(board: Board, start: Mino, m: Mino)
    requires
        reaches(board, start, m),
    ensures
        m.wf(),
        board.fits(m),
        m.spec_shape() == start.spec_shape(),
        m.spec_y() >= start.spec_y(),
{
    let path = choose|path: Seq<Mino>| #[trigger]
        is_walk(board, path) && path[0] == start && path.last() == m;
    lemma_walk_sinks(board, path, path.len() - 1);
}

} // verus!
