use tetris::board::Board;
use tetris::{Mino, MinoShape, State};

/// A state whose rows `rows` are taken in every column but column 0.
fn with_gap_in_column_zero(level: i32, rows: &[usize]) -> State {
    let mut state = State::with_start(level);
    for y in rows.iter() {
        for x in 1..10 {
            state.board.grid[*y][x] = true;
        }
    }
    state
}

/// The I piece standing upright in column 0, its lowest cell on the bottom row.
fn upright_in_column_zero() -> Mino {
    Mino::new(MinoShape::I).rotated(1).translated(-5, 18)
}

fn taken_cells(state: &State) -> Vec<(usize, usize)> {
    let mut cells = Vec::new();
    for y in 0..20 {
        for x in 0..10 {
            if state.board.grid[y][x] {
                cells.push((x, y));
            }
        }
    }
    cells
}

#[test]
fn new_state_is_blank_with_zero_counters() {
    let state = State::new();
    assert!(taken_cells(&state).is_empty());
    assert_eq!(state.score, 0);
    assert_eq!(state.level, 0);
    assert_eq!(state.lines, 0);
}

#[test]
fn with_start_sets_the_level_alone() {
    let state = State::with_start(7);
    assert!(taken_cells(&state).is_empty());
    assert_eq!(state.score, 0);
    assert_eq!(state.level, 7);
    assert_eq!(state.lines, 0);
}

#[test]
fn blank_board_has_no_taken_cell() {
    let board = Board::blank();
    for y in 0..20 {
        for x in 0..10 {
            assert!(!board.grid[y][x]);
        }
    }
}

#[test]
fn cannot_place_left_of_the_board() {
    let board = Board::blank();
    let t = Mino::new(MinoShape::T);
    assert!(board.can_place(t.translated(-4, 0)));
    assert!(!board.can_place(t.translated(-5, 0)));
    assert!(!board.can_place(t.translated(-50, 0)));
}

#[test]
fn cannot_place_right_of_the_board() {
    let board = Board::blank();
    let t = Mino::new(MinoShape::T);
    assert!(board.can_place(t.translated(3, 0)));
    assert!(!board.can_place(t.translated(4, 0)));
}

#[test]
fn cannot_place_below_the_board() {
    let board = Board::blank();
    let t = Mino::new(MinoShape::T);
    assert!(board.can_place(t.translated(0, 18)));
    assert!(!board.can_place(t.translated(0, 19)));
    assert!(!board.can_place(t.translated(0, 1000)));
}

#[test]
fn cannot_place_on_a_taken_cell() {
    let mut board = Board::blank();
    board.grid[1][5] = true;
    let t = Mino::new(MinoShape::T);
    assert!(!board.can_place(t));
    assert!(board.can_place(t.translated(2, 0)));
    assert!(board.can_place(t.translated(0, 2)));
}

#[test]
fn cells_above_the_board_are_allowed() {
    let board = Board::blank();
    let upright = Mino::new(MinoShape::I).rotated(1);
    assert_eq!(upright.points(), [(5, -2), (5, -1), (5, 0), (5, 1)]);
    assert!(board.can_place(upright));
    assert!(board.can_place(upright.translated(0, -30)));
    // Still not outside the columns.
    assert!(!board.can_place(upright.translated(5, -30)));
}

#[test]
fn place_locks_the_cells_of_the_piece() {
    let state = State::new();
    let placed = state.place(Mino::new(MinoShape::O).translated(0, 18)).unwrap();
    assert_eq!(taken_cells(&placed), vec![(4, 18), (5, 18), (4, 19), (5, 19)]);
    assert_eq!(placed.score, 0);
    assert_eq!(placed.lines, 0);
    assert_eq!(placed.level, 0);
    // The state placed into is left as it was.
    assert!(taken_cells(&state).is_empty());
}

#[test]
fn place_locks_only_the_cells_on_the_board() {
    let state = State::new();
    let placed = state.place(Mino::new(MinoShape::I).rotated(1)).unwrap();
    assert_eq!(taken_cells(&placed), vec![(5, 0), (5, 1)]);
}

#[test]
fn place_fails_where_the_piece_does_not_fit() {
    let state = State::new();
    assert!(state.place(Mino::new(MinoShape::T).translated(-5, 0)).is_none());
    assert!(state.place(Mino::new(MinoShape::T).translated(0, 19)).is_none());
    let mut state = State::new();
    state.board.grid[0][5] = true;
    assert!(state.place(Mino::new(MinoShape::T)).is_none());
}

#[test]
fn completing_no_row_scores_nothing() {
    let state = with_gap_in_column_zero(3, &[19]);
    let placed = state.place(Mino::new(MinoShape::O).translated(0, 17)).unwrap();
    assert_eq!(placed.score, 0);
    assert_eq!(placed.lines, 0);
    assert_eq!(placed.level, 3);
}

#[test]
fn completing_one_row_scores_forty_per_level() {
    let placed = with_gap_in_column_zero(0, &[19]).place(upright_in_column_zero()).unwrap();
    assert_eq!(placed.score, 40);
    assert_eq!(placed.lines, 1);
    assert_eq!(taken_cells(&placed), vec![(0, 17), (0, 18), (0, 19)]);

    let placed = with_gap_in_column_zero(2, &[19]).place(upright_in_column_zero()).unwrap();
    assert_eq!(placed.score, 120);
    assert_eq!(placed.lines, 1);
    assert_eq!(placed.level, 2);
}

#[test]
fn completing_two_rows_scores_a_hundred_per_level() {
    let placed = with_gap_in_column_zero(0, &[18, 19]).place(upright_in_column_zero()).unwrap();
    assert_eq!(placed.score, 100);
    assert_eq!(placed.lines, 2);
    assert_eq!(taken_cells(&placed), vec![(0, 18), (0, 19)]);

    let placed = with_gap_in_column_zero(4, &[18, 19]).place(upright_in_column_zero()).unwrap();
    assert_eq!(placed.score, 500);
}

#[test]
fn completing_three_rows_scores_three_hundred_per_level() {
    let placed =
        with_gap_in_column_zero(0, &[17, 18, 19]).place(upright_in_column_zero()).unwrap();
    assert_eq!(placed.score, 300);
    assert_eq!(placed.lines, 3);
    assert_eq!(taken_cells(&placed), vec![(0, 19)]);

    let placed =
        with_gap_in_column_zero(1, &[17, 18, 19]).place(upright_in_column_zero()).unwrap();
    assert_eq!(placed.score, 600);
}

#[test]
fn completing_four_rows_scores_twelve_hundred_per_level() {
    let placed =
        with_gap_in_column_zero(0, &[16, 17, 18, 19]).place(upright_in_column_zero()).unwrap();
    assert_eq!(placed.score, 1200);
    assert_eq!(placed.lines, 4);
    assert!(taken_cells(&placed).is_empty());

    let placed =
        with_gap_in_column_zero(9, &[16, 17, 18, 19]).place(upright_in_column_zero()).unwrap();
    assert_eq!(placed.score, 12000);
    assert_eq!(placed.lines, 4);
    assert_eq!(placed.level, 9);
}

#[test]
fn score_is_added_to_what_was_there() {
    let mut state = with_gap_in_column_zero(1, &[19]);
    state.score = 1000;
    state.lines = 3;
    let placed = state.place(upright_in_column_zero()).unwrap();
    assert_eq!(placed.score, 1080);
    assert_eq!(placed.lines, 4);
}

#[test]
fn level_rises_to_a_tenth_of_the_lines() {
    let mut state = with_gap_in_column_zero(0, &[19]);
    state.lines = 9;
    let placed = state.place(upright_in_column_zero()).unwrap();
    assert_eq!(placed.lines, 10);
    assert_eq!(placed.level, 1);

    let mut state = with_gap_in_column_zero(1, &[16, 17, 18, 19]);
    state.lines = 18;
    let placed = state.place(upright_in_column_zero()).unwrap();
    assert_eq!(placed.lines, 22);
    assert_eq!(placed.level, 2);
    // The reward goes by the level before.
    assert_eq!(placed.score, 2400);
}

#[test]
fn level_never_falls() {
    let mut state = with_gap_in_column_zero(5, &[19]);
    state.lines = 9;
    let placed = state.place(upright_in_column_zero()).unwrap();
    assert_eq!(placed.lines, 10);
    assert_eq!(placed.level, 5);

    let mut state = State::with_start(3);
    let mut level = state.level;
    for _ in 0..4 {
        state = state.drop(Mino::new(MinoShape::O).translated(-4, 0)).unwrap();
        assert!(state.level >= level);
        level = state.level;
    }
    assert_eq!(state.level, 3);
}

#[test]
fn rows_above_completed_rows_sink_past_them() {
    // Rows 17 and 19 are to be completed, row 18 between them is not.
    let mut state = with_gap_in_column_zero(0, &[17, 19]);
    state.board.grid[18][3] = true;
    state.board.grid[15][7] = true;
    let placed = state.place(upright_in_column_zero()).unwrap();
    assert_eq!(placed.lines, 2);
    assert_eq!(placed.score, 100);
    // Row 18 sinks by one, rows 16 and 15 by two; two blank rows come in on top.
    assert_eq!(taken_cells(&placed), vec![(7, 17), (0, 18), (0, 19), (3, 19)]);
}

#[test]
fn a_full_row_that_the_piece_does_not_touch_stays() {
    let mut state = State::new();
    for x in 0..10 {
        state.board.grid[19][x] = true;
    }
    let placed = state.place(Mino::new(MinoShape::O).translated(0, 17)).unwrap();
    assert_eq!(placed.lines, 0);
    assert_eq!(placed.score, 0);
    assert_eq!(placed.row(19), [true; 10]);
    assert_eq!(taken_cells(&placed).len(), 14);
}

#[test]
fn drop_lets_the_piece_fall_to_the_floor() {
    let state = State::new();
    let dropped = state.drop(Mino::new(MinoShape::O)).unwrap();
    assert_eq!(taken_cells(&dropped), vec![(4, 18), (5, 18), (4, 19), (5, 19)]);
}

#[test]
fn drop_stops_on_what_lies_below() {
    let state = State::new();
    let state = state.drop(Mino::new(MinoShape::O)).unwrap();
    let state = state.drop(Mino::new(MinoShape::I)).unwrap();
    assert_eq!(
        taken_cells(&state),
        vec![(3, 17), (4, 17), (5, 17), (6, 17), (4, 18), (5, 18), (4, 19), (5, 19)]
    );
}

#[test]
fn drop_is_place_at_the_resting_row() {
    let state = State::new().drop(Mino::new(MinoShape::T).translated(3, 0)).unwrap();
    let mino = Mino::new(MinoShape::L).translated(2, 0);
    let dropped = state.drop(mino).unwrap();
    let mut resting = mino;
    while state.board.can_place(resting.translated(0, 1)) {
        resting = resting.translated(0, 1);
    }
    let placed = state.place(resting).unwrap();
    assert_eq!(dropped.board.grid, placed.board.grid);
    assert_eq!(dropped.score, placed.score);
    assert_eq!(dropped.lines, placed.lines);
}

#[test]
fn drop_fails_where_the_piece_does_not_fit_at_first() {
    let state = State::new();
    assert!(state.drop(Mino::new(MinoShape::T).translated(-10, 0)).is_none());

    // The piece would fit one row further up, but it does not fit where it is.
    let mut state = State::new();
    state.board.grid[1][6] = true;
    let j = Mino::new(MinoShape::J);
    assert_eq!(j.points(), [(4, 0), (5, 0), (6, 0), (6, 1)]);
    assert!(state.board.can_place(j.translated(0, -1)));
    assert!(state.drop(j).is_none());
}

#[test]
fn accessors_read_the_board() {
    let mut state = State::new();
    state.board.grid[7][2] = true;
    state.board.grid[12][2] = true;
    state.board.grid[7][9] = true;

    assert!(state.cell(2, 7));
    assert!(state.cell(9, 7));
    assert!(!state.cell(7, 2));
    assert!(!state.cell(0, 0));

    let mut row = [false; 10];
    row[2] = true;
    row[9] = true;
    assert_eq!(state.row(7), row);
    assert_eq!(state.row(8), [false; 10]);

    let mut column = [false; 20];
    column[7] = true;
    column[12] = true;
    assert_eq!(state.column(2), column);
    assert_eq!(state.column(3), [false; 20]);
}

#[test]
fn column_depth_is_the_row_of_the_topmost_taken_cell() {
    let mut state = State::new();
    for x in 0..10 {
        assert_eq!(state.column_depth(x), 20);
    }
    state.board.grid[7][2] = true;
    state.board.grid[12][2] = true;
    state.board.grid[0][4] = true;
    state.board.grid[19][5] = true;
    assert_eq!(state.column_depth(2), 7);
    assert_eq!(state.column_depth(4), 0);
    assert_eq!(state.column_depth(5), 19);
    assert_eq!(state.column_depth(3), 20);
}

#[test]
fn full_rows_are_told_from_others() {
    let mut state = State::new();
    for x in 0..10 {
        state.board.grid[19][x] = true;
        state.board.grid[4][x] = x != 9;
    }
    assert!(state.board.row_is_full(19));
    assert!(!state.board.row_is_full(4));
    assert!(!state.board.row_is_full(0));
}

#[test]
fn playable_states_have_sound_counters_with_room() {
    assert!(State::new().is_playable());
    assert!(State::with_start(29).is_playable());
    assert!(!State::with_start(-1).is_playable());

    let mut state = State::new();
    state.lines = 10;
    // The level lags behind the lines.
    assert!(!state.is_playable());
    state.level = 1;
    assert!(state.is_playable());
    state.score = -1;
    assert!(!state.is_playable());

    // Room for the largest reward: 1200 times one more than the level.
    let mut state = State::with_start(9);
    state.score = i32::MAX - 12000;
    assert!(state.is_playable());
    state.score = i32::MAX - 11999;
    assert!(!state.is_playable());

    let mut state = State::with_start(i32::MAX);
    assert!(!state.is_playable());
    state.level = i32::MAX / 10;
    state.lines = i32::MAX - 4;
    assert!(!state.is_playable());
    state.level = 1_000_000;
    state.lines = 9_999_999;
    assert!(state.is_playable());
}
