use tetris::{Mino, MinoShape, State};

fn count_for(shape: MinoShape) -> usize {
    State::new().possibilities(shape).len()
}

#[test]
fn placements_on_a_blank_board_per_shape() {
    // One resting row for every column and rotation state in which the
    // piece is within the board.
    assert_eq!(count_for(MinoShape::T), 34);
    assert_eq!(count_for(MinoShape::J), 34);
    assert_eq!(count_for(MinoShape::L), 34);
    assert_eq!(count_for(MinoShape::S), 17);
    assert_eq!(count_for(MinoShape::Z), 17);
    assert_eq!(count_for(MinoShape::I), 17);
    assert_eq!(count_for(MinoShape::O), 9);
}

#[test]
fn placements_rest_and_come_once_each() {
    let mut state = State::new();
    state = state.drop(Mino::new(MinoShape::T).translated(-3, 0)).unwrap();
    state = state.drop(Mino::new(MinoShape::Z).translated(2, 0)).unwrap();
    for shape in [MinoShape::J, MinoShape::I, MinoShape::O].iter() {
        let found = state.possibilities(*shape);
        assert!(!found.is_empty());
        for (i, (after, mino)) in found.iter().enumerate() {
            assert_eq!(mino.shape(), *shape);
            assert!(state.board.can_place(*mino));
            assert!(!state.board.can_place(mino.translated(0, 1)));
            let placed = state.place(*mino).unwrap();
            assert_eq!(after.board.grid, placed.board.grid);
            assert_eq!(after.score, placed.score);
            assert_eq!(after.level, placed.level);
            assert_eq!(after.lines, placed.lines);
            for (_, other) in found[..i].iter() {
                assert_ne!(other, mino);
            }
        }
    }
}

#[test]
fn placements_include_every_straight_drop() {
    let state = State::new().drop(Mino::new(MinoShape::L).translated(1, 0)).unwrap();
    let found = state.possibilities(MinoShape::T);
    for n in 0..4 {
        for dx in -5..5 {
            let mut mino = Mino::new(MinoShape::T).rotated(n).translated(dx, 0);
            if !state.board.can_place(mino) {
                continue;
            }
            while state.board.can_place(mino.translated(0, 1)) {
                mino = mino.translated(0, 1);
            }
            assert!(found.iter().any(|(_, m)| *m == mino));
        }
    }
}

#[test]
fn placements_include_a_tuck_under_an_overhang() {
    let state = State::new();
    let s = Mino::new(MinoShape::S).translated(0, 18);
    let state = state.place(s).unwrap();
    // The S leaves the cell left of its lower half covered from above by
    // nothing, and the cell right of its lower half covered by its upper half.
    assert!(state.cell(5, 18) && state.cell(6, 18) && state.cell(4, 19) && state.cell(5, 19));
    let found = state.possibilities(MinoShape::J);
    let under = found
        .iter()
        .filter(|(_, m)| m.points().iter().any(|p| *p == (6, 19)))
        .count();
    assert!(under >= 1);
}

#[test]
fn nothing_can_be_placed_where_the_new_piece_does_not_fit() {
    let mut state = State::new();
    state.board.grid[0][5] = true;
    for shape in [
        MinoShape::T,
        MinoShape::J,
        MinoShape::Z,
        MinoShape::O,
        MinoShape::S,
        MinoShape::L,
        MinoShape::I,
    ]
    .iter()
    {
        assert!(state.possibilities(*shape).is_empty());
    }
}

#[test]
fn search_from_another_start() {
    let state = State::new();
    let start = Mino::new(MinoShape::O).translated(-4, 5);
    let found = state.possibilities_from(start);
    assert_eq!(found.len(), 9);

    // Walled in between two columns of taken cells, the piece can only fall.
    let mut state = State::new();
    for y in 0..20 {
        state.board.grid[y][3] = true;
        state.board.grid[y][6] = true;
    }
    let found = state.possibilities_from(Mino::new(MinoShape::O));
    assert_eq!(found.len(), 1);
    assert_eq!(found[0].1, Mino::new(MinoShape::O).translated(0, 18));
}
