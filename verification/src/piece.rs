//! Piece geometry: the seven shapes, their rotation states and the cells a
//! piece covers.

use vstd::prelude::*;

verus! {

/// Smallest pivot coordinate a piece may have. Offsets reach two cells
/// towards the origin, so every covered cell stays representable.
pub const COORD_MIN: i32 = -2147483646;

/// Largest pivot coordinate a piece may have. Offsets reach one cell away
/// from the origin, so every covered cell stays representable.
pub const COORD_MAX: i32 = 2147483646;

/// Column in which a new piece appears.
pub const SPAWN_COLUMN: i32 = 5;

/// The shape a tetromino can have.
#[derive(Clone, Copy, Debug, PartialEq, Eq, Structural)]
pub enum MinoShape {
    T,
    J,
    Z,
    O,
    S,
    L,
    I,
}

impl MinoShape {
    /// Number of distinct rotation states of the shape.
    pub open spec fn spec_n_rotations(self) -> int {
        match self {
            MinoShape::T => 4,
            MinoShape::J => 4,
            MinoShape::Z => 2,
            MinoShape::O => 1,
            MinoShape::S => 2,
            MinoShape::L => 4,
            MinoShape::I => 2,
        }
    }

    /// Rotation state in which a new piece of the shape appears.
    pub open spec fn spawn_rotation(self) -> int {
        match self {
            MinoShape::T => 2,
            MinoShape::J => 3,
            MinoShape::Z => 0,
            MinoShape::O => 0,
            MinoShape::S => 0,
            MinoShape::L => 1,
            MinoShape::I => 1,
        }
    }

    /// The four (dx, dy) offsets from the pivot that the shape covers in
    /// rotation state `rot`. Meaningful for `0 <= rot < spec_n_rotations()`.
    pub open spec fn offsets(self, rot: int) -> Seq<(int, int)> {
        match self {
            MinoShape::T => if rot == 0 {
                seq![(-1, 0), (0, 0), (1, 0), (0, -1)]
            } else if rot == 1 {
                seq![(0, -1), (0, 0), (1, 0), (0, 1)]
            } else if rot == 2 {
                seq![(-1, 0), (0, 0), (1, 0), (0, 1)]
            } else {
                seq![(0, -1), (-1, 0), (0, 0), (0, 1)]
            },
            MinoShape::J => if rot == 0 {
                seq![(0, -1), (0, 0), (-1, 1), (0, 1)]
            } else if rot == 1 {
                seq![(-1, -1), (-1, 0), (0, 0), (1, 0)]
            } else if rot == 2 {
                seq![(0, -1), (1, -1), (0, 0), (0, 1)]
            } else {
                seq![(-1, 0), (0, 0), (1, 0), (1, 1)]
            },
            MinoShape::Z => if rot == 0 {
                seq![(-1, 0), (0, 0), (0, 1), (1, 1)]
            } else {
                seq![(1, -1), (0, 0), (1, 0), (0, 1)]
            },
            MinoShape::O => seq![(-1, 0), (0, 0), (-1, 1), (0, 1)],
            MinoShape::S => if rot == 0 {
                seq![(0, 0), (1, 0), (-1, 1), (0, 1)]
            } else {
                seq![(0, -1), (0, 0), (1, 0), (1, 1)]
            },
            MinoShape::L => if rot == 0 {
                seq![(0, -1), (0, 0), (0, 1), (1, 1)]
            } else if rot == 1 {
                seq![(-1, 0), (0, 0), (1, 0), (-1, 1)]
            } else if rot == 2 {
                seq![(-1, -1), (0, -1), (0, 0), (0, 1)]
            } else {
                seq![(1, -1), (-1, 0), (0, 0), (1, 0)]
            },
            MinoShape::I => if rot == 0 {
                seq![(0, -2), (0, -1), (0, 0), (0, 1)]
            } else {
                seq![(-2, 0), (-1, 0), (0, 0), (1, 0)]
            },
        }
    }

    /// Number of distinct rotation states of the shape.
    pub fn n_rotations(&self) -> (n: i32)
        ensures
            n == self.spec_n_rotations(),
    {
        match self {
            MinoShape::T => 4,
            MinoShape::J => 4,
            MinoShape::Z => 2,
            MinoShape::O => 1,
            MinoShape::S => 2,
            MinoShape::L => 4,
            MinoShape::I => 2,
        }
    }
}

/// Every rotation state of every shape covers its own pivot.
pub proof fn lemma_offsets_cover_pivot(shape: MinoShape, rot: int)
    ensures
        exists|i: int| 0 <= i < 4 && #[trigger] shape.offsets(rot)[i] == (0int, 0int),
{
    let s = shape.offsets(rot);
    if s[0] == (0int, 0int) {
    } else if s[1] == (0int, 0int) {
    } else if s[2] == (0int, 0int) {
    } else {
        assert(s[3] == (0int, 0int));
    }
}

/// The four offsets of a rotation state are pairwise different.
pub proof fn lemma_offsets_distinct(shape: MinoShape, rot: int)
    ensures
        forall|i: int, j: int|
            0 <= i < j < 4 ==> #[trigger] shape.offsets(rot)[i] != #[trigger] shape.offsets(rot)[j],
{
    let s = shape.offsets(rot);
    assert(s[0] != s[1] && s[0] != s[2] && s[0] != s[3] && s[1] != s[2] && s[1] != s[3] && s[2]
        != s[3]);
}

/// Mino (short for tetromino), the building block of the game: a shape in
/// one of its rotation states, with its pivot at column `x` and row `y`.
#[derive(Clone, Copy, Debug, PartialEq, Eq, Structural)]
pub struct Mino {
    shape: MinoShape,
    rot: i32,
    x: i32,
    y: i32,
}

impl Mino {
    /// The rotation state exists for the shape and the pivot lies where all
    /// four covered cells have representable coordinates.
    #[verifier::type_invariant]
    pub closed spec fn wf(self) -> bool {
        &&& 0 <= self.rot < self.shape.spec_n_rotations()
        &&& COORD_MIN <= self.x <= COORD_MAX
        &&& COORD_MIN <= self.y <= COORD_MAX
    }

    /// The shape of the piece.
    pub closed spec fn spec_shape(self) -> MinoShape {
        self.shape
    }

    /// The rotation state of the piece.
    pub closed spec fn spec_rotation(self) -> int {
        self.rot as int
    }

    /// The column of the pivot.
    pub closed spec fn spec_x(self) -> int {
        self.x as int
    }

    /// The row of the pivot.
    pub closed spec fn spec_y(self) -> int {
        self.y as int
    }

    /// The four cells, as (column, row), that the piece covers.
    pub open spec fn cells(self) -> Seq<(int, int)> {
        Seq::new(
            4,
            |i: int|
                (
                    self.spec_x() + self.spec_shape().offsets(self.spec_rotation())[i].0,
                    self.spec_y() + self.spec_shape().offsets(self.spec_rotation())[i].1,
                ),
        )
    }

    /// Whether the piece covers the cell in column `x` of row `y`.
    pub open spec fn covers(self, x: int, y: int) -> bool {
        exists|i: int| 0 <= i < 4 && #[trigger] self.cells()[i] == (x, y)
    }

    /// Whether the piece covers some cell of row `y`.
    pub open spec fn touches_row(self, y: int) -> bool {
        exists|i: int| 0 <= i < 4 && (#[trigger] self.cells()[i]).1 == y
    }

    /// The piece of shape `shape` as it appears on the board.
    pub closed spec fn spawn(shape: MinoShape) -> Mino {
        Mino { shape, rot: shape.spawn_rotation() as i32, x: SPAWN_COLUMN, y: 0 }
    }

    /// The piece turned `n` times clockwise (counter-clockwise for negative `n`).
    pub closed spec fn spec_rotated(self, n: int) -> Mino {
        Mino {
            rot: ((self.rot + n) % self.shape.spec_n_rotations()) as i32,
            ..self
        }
    }

    /// The piece moved `dx` columns to the right and `dy` rows down.
    pub closed spec fn spec_translated(self, dx: int, dy: int) -> Mino {
        Mino { x: (self.x + dx) as i32, y: (self.y + dy) as i32, ..self }
    }

    /// Whether moving by (`dx`, `dy`) keeps the pivot within the coordinate range.
    pub open spec fn can_shift(self, dx: int, dy: int) -> bool {
        &&& COORD_MIN <= self.spec_x() + dx <= COORD_MAX
        &&& COORD_MIN <= self.spec_y() + dy <= COORD_MAX
    }

    /// Create a mino with shape `shape`, in its spawn rotation and position.
    pub fn new(shape: MinoShape) -> (m: Mino)
        ensures
            m == Mino::spawn(shape),
            m.wf(),
            m.spec_shape() == shape,
            m.spec_rotation() == shape.spawn_rotation(),
            m.spec_x() == SPAWN_COLUMN,
            m.spec_y() == 0,
    {
        let rot: i32 = match shape {
            MinoShape::T => 2,
            MinoShape::J => 3,
            MinoShape::Z => 0,
            MinoShape::O => 0,
            MinoShape::S => 0,
            MinoShape::L => 1,
            MinoShape::I => 1,
        };
        Mino { shape, rot, x: SPAWN_COLUMN, y: 0 }
    }

    /// The shape of the piece.
    pub fn shape(&self) -> (s: MinoShape)
        ensures
            s == self.spec_shape(),
    {
        self.shape
    }

    /// The rotation state of the piece.
    pub fn rotation(&self) -> (r: i32)
        ensures
            r == self.spec_rotation(),
            self.wf(),
    {
        proof {
            use_type_invariant(self);
        }
        self.rot
    }

    /// The column of the pivot.
    pub fn x(&self) -> (x: i32)
        ensures
            x == self.spec_x(),
            self.wf(),
    {
        proof {
            use_type_invariant(self);
        }
        self.x
    }

    /// The row of the pivot.
    pub fn y(&self) -> (y: i32)
        ensures
            y == self.spec_y(),
            self.wf(),
    {
        proof {
            use_type_invariant(self);
        }
        self.y
    }

    /// Get the points corresponding to this mino.
    pub fn points(&self) -> (p: [(i32, i32); 4])
        ensures
            self.wf(),
            forall|i: int|
                0 <= i < 4 ==> (#[trigger] p[i]).0 == self.cells()[i].0 && p[i].1
                    == self.cells()[i].1,
            forall|i: int, j: int| 0 <= i < j < 4 ==> #[trigger] p[i] != #[trigger] p[j],
    {
        proof {
            use_type_invariant(self);
            lemma_offsets_distinct(self.shape, self.rot as int);
        }
        let x = self.x;
        let y = self.y;
        let p = match self.shape {
            MinoShape::T => if self.rot == 0 {
                [(x - 1, y), (x, y), (x + 1, y), (x, y - 1)]
            } else if self.rot == 1 {
                [(x, y - 1), (x, y), (x + 1, y), (x, y + 1)]
            } else if self.rot == 2 {
                [(x - 1, y), (x, y), (x + 1, y), (x, y + 1)]
            } else {
                [(x, y - 1), (x - 1, y), (x, y), (x, y + 1)]
            },
            MinoShape::J => if self.rot == 0 {
                [(x, y - 1), (x, y), (x - 1, y + 1), (x, y + 1)]
            } else if self.rot == 1 {
                [(x - 1, y - 1), (x - 1, y), (x, y), (x + 1, y)]
            } else if self.rot == 2 {
                [(x, y - 1), (x + 1, y - 1), (x, y), (x, y + 1)]
            } else {
                [(x - 1, y), (x, y), (x + 1, y), (x + 1, y + 1)]
            },
            MinoShape::Z => if self.rot == 0 {
                [(x - 1, y), (x, y), (x, y + 1), (x + 1, y + 1)]
            } else {
                [(x + 1, y - 1), (x, y), (x + 1, y), (x, y + 1)]
            },
            MinoShape::O => [(x - 1, y), (x, y), (x - 1, y + 1), (x, y + 1)],
            MinoShape::S => if self.rot == 0 {
                [(x, y), (x + 1, y), (x - 1, y + 1), (x, y + 1)]
            } else {
                [(x, y - 1), (x, y), (x + 1, y), (x + 1, y + 1)]
            },
            MinoShape::L => if self.rot == 0 {
                [(x, y - 1), (x, y), (x, y + 1), (x + 1, y + 1)]
            } else if self.rot == 1 {
                [(x - 1, y), (x, y), (x + 1, y), (x - 1, y + 1)]
            } else if self.rot == 2 {
                [(x - 1, y - 1), (x, y - 1), (x, y), (x, y + 1)]
            } else {
                [(x + 1, y - 1), (x - 1, y), (x, y), (x + 1, y)]
            },
            MinoShape::I => if self.rot == 0 {
                [(x, y - 2), (x, y - 1), (x, y), (x, y + 1)]
            } else {
                [(x - 2, y), (x - 1, y), (x, y), (x + 1, y)]
            },
        };
        p
    }

    /// Produce a mino that has been rotated `n` times clockwise.
    pub fn rotated(&self, n: i32) -> (m: Mino)
        ensures
            m == self.spec_rotated(n as int),
            m.wf(),
            m.spec_shape() == self.spec_shape(),
            m.spec_rotation() == (self.spec_rotation() + n) % self.spec_shape().spec_n_rotations(),
            m.spec_x() == self.spec_x(),
            m.spec_y() == self.spec_y(),
    {
        proof {
            use_type_invariant(self);
        }
        let r = self.shape.n_rotations();
        // Bring `n` into [0, r) first, whatever its sign.
        let n = (n % r) + r;
        Mino { shape: self.shape, rot: (self.rot + n) % r, x: self.x, y: self.y }
    }

    /// Whether the piece can be moved `dx` units horizontally and `dy` units
    /// vertically without its pivot leaving the coordinate range.
    pub fn can_translate(&self, dx: i32, dy: i32) -> (ok: bool)
        ensures
            ok == self.can_shift(dx as int, dy as int),
    {
        let x = self.x as i64 + dx as i64;
        let y = self.y as i64 + dy as i64;
        COORD_MIN as i64 <= x && x <= COORD_MAX as i64 && COORD_MIN as i64 <= y && y
            <= COORD_MAX as i64
    }

    /// Produce a mino that has been moved `dx` units horizontally and `dy`
    /// units vertically.
    pub fn translated(&self, dx: i32, dy: i32) -> (m: Mino)
        requires
            self.can_shift(dx as int, dy as int),
        ensures
            m == self.spec_translated(dx as int, dy as int),
            m.wf(),
            m.spec_shape() == self.spec_shape(),
            m.spec_rotation() == self.spec_rotation(),
            m.spec_x() == self.spec_x() + dx,
            m.spec_y() == self.spec_y() + dy,
    {
        proof {
            use_type_invariant(self);
        }
        Mino { shape: self.shape, rot: self.rot, x: self.x + dx, y: self.y + dy }
    }
}

/// What well-formedness says of a piece: its rotation state exists for its
/// shape and its pivot lies within the coordinate range.
pub proof fn lemma_wf_bounds(m: Mino)
    requires
        m.wf(),
    ensures
        0 <= m.spec_rotation() < m.spec_shape().spec_n_rotations(),
        COORD_MIN <= m.spec_x() <= COORD_MAX,
        COORD_MIN <= m.spec_y() <= COORD_MAX,
{
}

/// Two pieces with the same shape, rotation state and pivot are the same piece.
pub proof fn lemma_mino_ext(a: Mino, b: Mino)
    requires
        a.spec_shape() == b.spec_shape(),
        a.spec_rotation() == b.spec_rotation(),
        a.spec_x() == b.spec_x(),
        a.spec_y() == b.spec_y(),
    ensures
        a == b,
{
}

/// The spawn piece of a shape: its spawn rotation, at the spawn column, in
/// the top row.
pub proof fn lemma_spawn(shape: MinoShape)
    ensures
        Mino::spawn(shape).wf(),
        Mino::spawn(shape).spec_shape() == shape,
        Mino::spawn(shape).spec_rotation() == shape.spawn_rotation(),
        Mino::spawn(shape).spec_x() == SPAWN_COLUMN,
        Mino::spawn(shape).spec_y() == 0,
{
}

/// Rotating changes the rotation state alone, and wraps it round the number
/// of states of the shape.
pub proof fn lemma_rotated(m: Mino, n: int)
    requires
        m.wf(),
    ensures
        m.spec_rotated(n).wf(),
        m.spec_rotated(n).spec_shape() == m.spec_shape(),
        m.spec_rotated(n).spec_rotation() == (m.spec_rotation() + n)
            % m.spec_shape().spec_n_rotations(),
        m.spec_rotated(n).spec_x() == m.spec_x(),
        m.spec_rotated(n).spec_y() == m.spec_y(),
{
}

/// Translating moves the pivot alone.
pub proof fn lemma_translated(m: Mino, dx: int, dy: int)
    requires
        m.wf(),
        m.can_shift(dx, dy),
    ensures
        m.spec_translated(dx, dy).wf(),
        m.spec_translated(dx, dy).spec_shape() == m.spec_shape(),
        m.spec_translated(dx, dy).spec_rotation() == m.spec_rotation(),
        m.spec_translated(dx, dy).spec_x() == m.spec_x() + dx,
        m.spec_translated(dx, dy).spec_y() == m.spec_y() + dy,
{
}

/// Rotation is cyclic: turning a piece `n` times and then as many times as
/// are left of a full turn gives the piece back.
pub proof fn lemma_rotation_is_cyclic(m: Mino, n: int)
    requires
        m.wf(),
    ensures
        m.spec_rotated(n).spec_rotated(m.spec_shape().spec_n_rotations() - n) == m,
        m.spec_rotated(n).spec_rotated(m.spec_shape().spec_n_rotations() - n).spec_rotation()
            == m.spec_rotation(),
{
    let r = m.spec_shape().spec_n_rotations();
    let a = m.spec_rotation();
    let b = (a + n) % r;
    lemma_rotated(m, n);
    lemma_rotated(m.spec_rotated(n), r - n);
    assert((b + (r - n)) % r == a) by {
        let q = (a + n) / r;
        vstd::arithmetic::div_mod::lemma_fundamental_div_mod(a + n, r);
        assert(b + (r - n) == (1 - q) * r + a) by (nonlinear_arith)
            requires
                a + n == r * q + b,
        ;
        vstd::arithmetic::div_mod::lemma_fundamental_div_mod_converse(b + (r - n), r, 1 - q, a);
    }
    lemma_mino_ext(m.spec_rotated(n).spec_rotated(r - n), m);
}

/// A piece covers exactly four cells, no two of them the same.
pub proof fn lemma_cells_distinct(m: Mino)
    requires
        m.wf(),
    ensures
        m.cells().len() == 4,
        forall|i: int, j: int|
            0 <= i < 4 && 0 <= j < 4 && i != j ==> #[trigger] m.cells()[i] != #[trigger] m.cells()[j],
{
    lemma_offsets_distinct(m.spec_shape(), m.spec_rotation());
    let o = m.spec_shape().offsets(m.spec_rotation());
    assert forall|i: int, j: int| 0 <= i < 4 && 0 <= j < 4 && i != j implies #[trigger] m.cells()[i]
        != #[trigger] m.cells()[j] by {
        if i < j {
            assert(o[i] != o[j]);
        } else {
            assert(o[j] != o[i]);
        }
    }
}

/// A piece covers its own pivot.
pub proof fn lemma_covers_pivot(m: Mino)
    ensures
        m.covers(m.spec_x(), m.spec_y()),
        m.touches_row(m.spec_y()),
{
    lemma_offsets_cover_pivot(m.spec_shape(), m.spec_rotation());
    let o = m.spec_shape().offsets(m.spec_rotation());
    let i = choose|i: int| 0 <= i < 4 && #[trigger] o[i] == (0int, 0int);
    assert(m.cells()[i] == (m.spec_x(), m.spec_y()));
}

/// Two moves in a row amount to one move by the sum.
pub proof fn lemma_translated_twice(m: Mino, dx1: int, dy1: int, dx2: int, dy2: int)
    requires
        m.wf(),
        m.can_shift(dx1, dy1),
        m.can_shift(dx1 + dx2, dy1 + dy2),
    ensures
        m.spec_translated(dx1, dy1).spec_translated(dx2, dy2) == m.spec_translated(
            dx1 + dx2,
            dy1 + dy2,
        ),
{
}

/// Moving by nothing leaves the piece as it is.
pub proof fn lemma_translated_zero(m: Mino)
    requires
        m.wf(),
    ensures
        m.spec_translated(0, 0) == m,
{
}

} // verus!
