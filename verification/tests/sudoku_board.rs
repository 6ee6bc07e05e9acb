use sudoku::sudoku_board::SudokuBoard;
use sudoku::sudoku_board::SudokuError;

const PUZZLE: &str = ".5..83.17...1..4..3.4..56.8....3...9.9.8245....6....7...9....5...729..861.36.72.4";

#[test]
fn sudoku_values() {
    assert_eq!(SudokuBoard::get_sudoku_value(&0), 0);
    assert_eq!(SudokuBoard::get_sudoku_value(&1), 1);
    assert_eq!(SudokuBoard::get_sudoku_value(&2), 2);
    assert_eq!(SudokuBoard::get_sudoku_value(&4), 3);
    assert_eq!(SudokuBoard::get_sudoku_value(&8), 4);
    assert_eq!(SudokuBoard::get_sudoku_value(&16), 5);
    assert_eq!(SudokuBoard::get_sudoku_value(&32), 6);
    assert_eq!(SudokuBoard::get_sudoku_value(&64), 7);
    assert_eq!(SudokuBoard::get_sudoku_value(&128), 8);
    assert_eq!(SudokuBoard::get_sudoku_value(&256), 9);
    assert_eq!(SudokuBoard::get_sudoku_value(&511), 0);
    assert_eq!(SudokuBoard::get_sudoku_value(&3), 0);
    assert_eq!(SudokuBoard::get_sudoku_value(&5), 0);
    assert_eq!(SudokuBoard::get_sudoku_value(&10), 0);
    assert_eq!(SudokuBoard::get_sudoku_value(&30), 0);
}

#[test]
fn filled_mask() {
    let cells: Vec<u16> = vec![
        0, 1, 0, 4, 0, 16, 0, 64, 0, 0, 2, 3, 4, 5, 6, 8, 9, 0, 0, 0, 0, 0, 0, 0, 0, 0, 0, 0, 0,
        0, 0, 0, 0, 0, 0, 0, 0, 0, 0, 0, 0, 0, 0, 0, 0, 0, 0, 0, 0, 0, 0, 0, 0, 0, 0, 0, 0, 0, 0,
        0, 0, 0, 0, 0, 0, 0, 0, 0, 0, 0, 0, 0, 0, 0, 0, 0, 0, 0, 0, 0, 0,
    ];
    let board = SudokuBoard::from_cells(cells);

    assert_eq!(board.get_cell_row_filled_mask(50), 0b000_000_000);
    assert_eq!(board.get_cell_row_filled_mask(0), 0b001_010_101);
}

#[test]
fn penned_values() {
    assert_eq!(SudokuBoard::get_penned_cell_value(&0), 0);
    assert_eq!(SudokuBoard::get_penned_cell_value(&1), 1);
    assert_eq!(SudokuBoard::get_penned_cell_value(&4), 4);
    assert_eq!(SudokuBoard::get_penned_cell_value(&256), 256);
    assert_eq!(SudokuBoard::get_penned_cell_value(&3), 0);
    assert_eq!(SudokuBoard::get_penned_cell_value(&511), 0);
}

#[test]
fn blank_board_is_unconstrained() {
    let board = SudokuBoard::blank();
    let mut i: usize = 0;
    while i < 81 {
        assert_eq!(board.get_cell(i), 0b111_111_111);
        i += 1;
    }
    assert!(!board.is_solved());
}

#[test]
fn from_cells_round_trip() {
    let mut cells: Vec<u16> = Vec::new();
    let mut i: u16 = 0;
    while i < 81 {
        cells.push(i % 512);
        i += 1;
    }
    let board = SudokuBoard::from_cells(cells.clone());
    let mut j: usize = 0;
    while j < 81 {
        assert_eq!(board.get_cell(j), cells[j]);
        j += 1;
    }
}

#[test]
fn from_str_parses_cells() {
    let board = match SudokuBoard::from_str(PUZZLE) {
        Ok(b) => b,
        Err(_) => panic!("the 81-character puzzle must parse"),
    };
    // '.' keeps every candidate open; a digit d becomes the single bit 2^(d-1).
    assert_eq!(board.get_cell(0), 0b111_111_111);
    assert_eq!(board.get_cell(1), 16); // '5'
    assert_eq!(board.get_cell(4), 128); // '8'
    assert_eq!(board.get_cell(5), 4); // '3'
    assert_eq!(board.get_cell(7), 1); // '1'
    assert_eq!(board.get_cell(8), 64); // '7'
    assert_eq!(board.get_cell(80), 8); // '4'
    assert_eq!(board.get_cell(79), 0b111_111_111);
}

#[test]
fn length_validation_rejects_short_text() {
    let short = &PUZZLE[..80];
    match SudokuBoard::from_str(short) {
        Ok(_) => panic!("an 80-character text must be rejected"),
        Err(e) => assert_eq!(e, SudokuError::InvalidPuzzleLength),
    }
    match SudokuBoard::from_str("") {
        Ok(_) => panic!("an empty text must be rejected"),
        Err(e) => assert_eq!(e, SudokuError::InvalidPuzzleLength),
    }
}

#[test]
fn length_validation_rejects_long_text() {
    let long = format!("{}5", PUZZLE);
    match SudokuBoard::from_str(&long) {
        Ok(_) => panic!("an 82-character text must be rejected"),
        Err(e) => assert_eq!(e, SudokuError::InvalidPuzzleLength),
    }
}

#[test]
fn neighbor_extraction() {
    // Cells seeded with their own position, so an OR identifies the set of
    // positions a scan visited.
    let mut cells: Vec<u16> = Vec::new();
    let mut i: u16 = 0;
    while i < 81 {
        cells.push(i);
        i += 1;
    }
    let board = SudokuBoard::from_cells(cells);

    // Row peers of 7: 0 | 1 | 2 | 3 | 4 | 5 | 6 | 8.
    assert_eq!(board.get_cell_row_neighbor_mask(7), 15);
    // Column peers of 20: 2 | 11 | 29 | 38 | 47 | 56 | 65 | 74.
    assert_eq!(board.get_cell_col_neighbor_mask(20), 127);
    // Box peers of 10: 0 | 1 | 2 | 9 | 11 | 18 | 19 | 20.
    assert_eq!(board.get_cell_box_neighbor_mask(10), 31);
}

#[test]
fn solve_end_to_end() {
    let expected: [u16; 81] = [
        6, 5, 2, 4, 8, 3, 9, 1, 7, 9, 7, 8, 1, 6, 2, 4, 3, 5, 3, 1, 4, 9, 7, 5, 6, 2, 8, 8, 2, 5,
        7, 3, 6, 1, 4, 9, 7, 9, 1, 8, 2, 4, 5, 6, 3, 4, 3, 6, 5, 1, 9, 8, 7, 2, 2, 6, 9, 3, 4, 8,
        7, 5, 1, 5, 4, 7, 2, 9, 1, 3, 8, 6, 1, 8, 3, 6, 5, 7, 2, 9, 4,
    ];
    let mut board = match SudokuBoard::from_str(PUZZLE) {
        Ok(b) => b,
        Err(_) => panic!("the 81-character puzzle must parse"),
    };
    board.solve();
    assert!(board.is_solved());
    let mut i: usize = 0;
    while i < 81 {
        let cell = board.get_cell(i);
        assert_eq!(SudokuBoard::get_sudoku_value(&cell), expected[i]);
        i += 1;
    }
}

#[test]
fn pass_after_fixed_point_reports_no_change() {
    let mut board = match SudokuBoard::from_str(PUZZLE) {
        Ok(b) => b,
        Err(_) => panic!("the 81-character puzzle must parse"),
    };
    board.solve();
    let mut before: Vec<u16> = Vec::new();
    let mut i: usize = 0;
    while i < 81 {
        before.push(board.get_cell(i));
        i += 1;
    }
    assert!(!board.update_cells());
    let mut j: usize = 0;
    while j < 81 {
        assert_eq!(board.get_cell(j), before[j]);
        j += 1;
    }
}

#[test]
fn masks_stay_within_nine_bits() {
    let mut board = match SudokuBoard::from_str(PUZZLE) {
        Ok(b) => b,
        Err(_) => panic!("the 81-character puzzle must parse"),
    };
    let mut pass: usize = 0;
    loop {
        let mut i: usize = 0;
        while i < 81 {
            assert!(board.get_cell(i) <= 0b111_111_111);
            i += 1;
        }
        if pass >= 20 || !board.update_cells() {
            break;
        }
        pass += 1;
    }
}

#[test]
fn resolved_cells_never_regress() {
    let mut board = match SudokuBoard::from_str(PUZZLE) {
        Ok(b) => b,
        Err(_) => panic!("the 81-character puzzle must parse"),
    };
    let mut pass: usize = 0;
    while pass < 20 {
        let mut resolved: Vec<(usize, u16)> = Vec::new();
        let mut i: usize = 0;
        while i < 81 {
            let cell = board.get_cell(i);
            if cell != 0 && cell & (cell - 1) == 0 {
                resolved.push((i, cell));
            }
            i += 1;
        }
        let changed = board.update_cells();
        for (pos, mask) in &resolved {
            assert_eq!(board.get_cell(*pos), *mask);
        }
        if !changed {
            break;
        }
        pass += 1;
    }
}

#[test]
fn from_str_treats_non_digits_as_unknown() {
    // Any placeholder character works, not only '.'; '0' is no Sudoku digit
    // and also leaves the cell unknown.
    let mut text = String::new();
    let mut i: usize = 0;
    while i < 81 {
        text.push(if i % 2 == 0 { 'x' } else { '0' });
        i += 1;
    }
    let board = match SudokuBoard::from_str(&text) {
        Ok(b) => b,
        Err(_) => panic!("an 81-character text must parse"),
    };
    let mut j: usize = 0;
    while j < 81 {
        assert_eq!(board.get_cell(j), 0b111_111_111);
        j += 1;
    }
}

#[test]
fn pass_on_open_board_oscillates() {
    // On the all-open board the aggressive neighbor filter first empties
    // every cell (every digit is some peer's candidate), then restores every
    // candidate (no peer holds anything): both passes report a change.
    let mut board = SudokuBoard::blank();
    assert!(board.update_cells());
    let mut i: usize = 0;
    while i < 81 {
        assert_eq!(board.get_cell(i), 0);
        i += 1;
    }
    assert!(board.update_cells());
    let mut j: usize = 0;
    while j < 81 {
        assert_eq!(board.get_cell(j), 0b111_111_111);
        j += 1;
    }
}

#[test]
fn is_solved_on_partial_board() {
    let mut cells: Vec<u16> = Vec::new();
    let mut i: u16 = 0;
    while i < 81 {
        cells.push(1u16 << (i % 9));
        i += 1;
    }
    let solved = SudokuBoard::from_cells(cells.clone());
    assert!(solved.is_solved());

    cells[40] = 0b11;
    let ambiguous = SudokuBoard::from_cells(cells.clone());
    assert!(!ambiguous.is_solved());

    cells[40] = 0;
    let empty = SudokuBoard::from_cells(cells);
    assert!(!empty.is_solved());
}
