use tetris::{Mino, MinoShape};

const SHAPES: [MinoShape; 7] = [
    MinoShape::T,
    MinoShape::J,
    MinoShape::Z,
    MinoShape::O,
    MinoShape::S,
    MinoShape::L,
    MinoShape::I,
];

#[test]
fn rotation_counts_per_shape() {
    assert_eq!(MinoShape::T.n_rotations(), 4);
    assert_eq!(MinoShape::J.n_rotations(), 4);
    assert_eq!(MinoShape::L.n_rotations(), 4);
    assert_eq!(MinoShape::Z.n_rotations(), 2);
    assert_eq!(MinoShape::S.n_rotations(), 2);
    assert_eq!(MinoShape::I.n_rotations(), 2);
    assert_eq!(MinoShape::O.n_rotations(), 1);
}

#[test]
fn new_piece_spawns_in_column_five_on_the_top_row() {
    let rotations = [2, 3, 0, 0, 0, 1, 1];
    for (shape, rot) in SHAPES.iter().zip(rotations.iter()) {
        let mino = Mino::new(*shape);
        assert_eq!(mino.shape(), *shape);
        assert_eq!(mino.rotation(), *rot);
        assert_eq!(mino.x(), 5);
        assert_eq!(mino.y(), 0);
    }
}

#[test]
fn points_of_spawned_pieces() {
    assert_eq!(Mino::new(MinoShape::T).points(), [(4, 0), (5, 0), (6, 0), (5, 1)]);
    assert_eq!(Mino::new(MinoShape::J).points(), [(4, 0), (5, 0), (6, 0), (6, 1)]);
    assert_eq!(Mino::new(MinoShape::Z).points(), [(4, 0), (5, 0), (5, 1), (6, 1)]);
    assert_eq!(Mino::new(MinoShape::O).points(), [(4, 0), (5, 0), (4, 1), (5, 1)]);
    assert_eq!(Mino::new(MinoShape::S).points(), [(5, 0), (6, 0), (4, 1), (5, 1)]);
    assert_eq!(Mino::new(MinoShape::L).points(), [(4, 0), (5, 0), (6, 0), (4, 1)]);
    assert_eq!(Mino::new(MinoShape::I).points(), [(3, 0), (4, 0), (5, 0), (6, 0)]);
}

#[test]
fn points_follow_the_offset_table() {
    // I turned upright reaches two rows above its pivot.
    let upright = Mino::new(MinoShape::I).rotated(1);
    assert_eq!(upright.rotation(), 0);
    assert_eq!(upright.points(), [(5, -2), (5, -1), (5, 0), (5, 1)]);

    // L in its last rotation state.
    let l = Mino::new(MinoShape::L).rotated(2);
    assert_eq!(l.rotation(), 3);
    assert_eq!(l.points(), [(6, -1), (4, 0), (5, 0), (6, 0)]);

    // T pointing up, moved.
    let t = Mino::new(MinoShape::T).rotated(2).translated(-3, 7);
    assert_eq!(t.rotation(), 0);
    assert_eq!(t.points(), [(1, 7), (2, 7), (3, 7), (2, 6)]);

    // J through all its states.
    let j = Mino::new(MinoShape::J).rotated(1);
    assert_eq!(j.rotation(), 0);
    assert_eq!(j.points(), [(5, -1), (5, 0), (4, 1), (5, 1)]);
    assert_eq!(j.rotated(1).points(), [(4, -1), (4, 0), (5, 0), (6, 0)]);
    assert_eq!(j.rotated(2).points(), [(5, -1), (6, -1), (5, 0), (5, 1)]);

    // S and Z turned.
    assert_eq!(Mino::new(MinoShape::S).rotated(1).points(), [(5, -1), (5, 0), (6, 0), (6, 1)]);
    assert_eq!(Mino::new(MinoShape::Z).rotated(1).points(), [(6, -1), (5, 0), (6, 0), (5, 1)]);
}

#[test]
fn points_are_four_distinct_cells() {
    for shape in SHAPES.iter() {
        for n in 0..shape.n_rotations() {
            let points = Mino::new(*shape).rotated(n).translated(-2, 9).points();
            assert_eq!(points.len(), 4);
            for a in 0..4 {
                for b in (a + 1)..4 {
                    assert_ne!(points[a], points[b]);
                }
            }
        }
    }
}

#[test]
fn rotation_is_cyclic() {
    for shape in SHAPES.iter() {
        let r = shape.n_rotations();
        for start in 0..r {
            let mino = Mino::new(*shape).rotated(start);
            for n in -9..=9 {
                let back = mino.rotated(n).rotated(r - n);
                assert_eq!(back, mino);
                assert_eq!(back.rotation(), mino.rotation());
            }
            assert_eq!(mino.rotated(r), mino);
        }
    }
}

#[test]
fn rotation_wraps_in_both_directions() {
    let t = Mino::new(MinoShape::T);
    assert_eq!(t.rotated(1).rotation(), 3);
    assert_eq!(t.rotated(2).rotation(), 0);
    assert_eq!(t.rotated(-1).rotation(), 1);
    assert_eq!(t.rotated(-3).rotation(), 3);
    assert_eq!(t.rotated(-4).rotation(), 2);
    assert_eq!(t.rotated(i32::MAX).rotation(), 1);
    assert_eq!(t.rotated(i32::MIN).rotation(), 2);

    let z = Mino::new(MinoShape::Z);
    assert_eq!(z.rotated(-1).rotation(), 1);
    assert_eq!(z.rotated(3).rotation(), 1);

    let o = Mino::new(MinoShape::O);
    assert_eq!(o.rotated(5).rotation(), 0);
    assert_eq!(o.rotated(-7).rotation(), 0);
}

#[test]
fn rotating_keeps_shape_and_position() {
    let mino = Mino::new(MinoShape::L).translated(2, 6).rotated(3);
    assert_eq!(mino.shape(), MinoShape::L);
    assert_eq!(mino.x(), 7);
    assert_eq!(mino.y(), 6);
}

#[test]
fn translating_moves_the_pivot_alone() {
    let mino = Mino::new(MinoShape::S).translated(-2, 3);
    assert_eq!(mino.shape(), MinoShape::S);
    assert_eq!(mino.rotation(), 0);
    assert_eq!(mino.x(), 3);
    assert_eq!(mino.y(), 3);
    assert_eq!(mino.translated(2, -3), Mino::new(MinoShape::S));
    assert_eq!(mino.translated(0, 0), mino);
}

#[test]
fn moves_within_the_coordinate_range_are_allowed() {
    let mino = Mino::new(MinoShape::T);
    assert!(mino.can_translate(0, 0));
    assert!(mino.can_translate(-5, 19));
    assert!(mino.can_translate(i32::MAX - 6, i32::MAX - 1));
    assert!(!mino.can_translate(i32::MAX - 5, 0));
    assert!(!mino.can_translate(0, i32::MAX));
    assert!(mino.can_translate(i32::MIN, i32::MIN + 2));
    assert!(!mino.can_translate(0, i32::MIN + 1));
    let far = mino.translated(i32::MAX - 6, i32::MIN + 2);
    assert_eq!(far.x(), i32::MAX - 1);
    assert_eq!(far.y(), i32::MIN + 2);
    assert_eq!(far.points(), [
        (i32::MAX - 2, i32::MIN + 2),
        (i32::MAX - 1, i32::MIN + 2),
        (i32::MAX, i32::MIN + 2),
        (i32::MAX - 1, i32::MIN + 3),
    ]);
    assert!(!far.can_translate(1, 0));
    assert!(far.can_translate(-1, 0));
}
