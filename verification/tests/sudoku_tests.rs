use sudoku::checker::{BoardState, GroupState};
use sudoku::grid::{Block, ListOfNine, Sudoku};
use sudoku::solver::{solve, SolveResult};
use sudoku::generator::{count_filled_cells, generate_puzzle, generate_solved};
use sudoku::SudokuError;

/// The canonical completed board: row `r` holds `1..=9` rotated left by
/// `3 * (r % 3) + r / 3`.
fn canonical_grid() -> [[u8; 9]; 9] {
    let mut grid = [[0u8; 9]; 9];
    for r in 0..9 {
        let shift = 3 * (r % 3) + r / 3;
        for c in 0..9 {
            grid[r][c] = (((shift + c) % 9) + 1) as u8;
        }
    }
    grid
}

#[test]
fn classify_group_complete_for_distinct_digits() {
    let g = ListOfNine { arr: [1, 2, 3, 4, 5, 6, 7, 8, 9], is_column: false };
    assert!(matches!(sudoku::checker::classify_group(&g), GroupState::CompleteValid));
    let g2 = ListOfNine { arr: [9, 4, 2, 7, 1, 3, 8, 6, 5], is_column: true };
    assert!(matches!(sudoku::checker::classify_group(&g2), GroupState::CompleteValid));
}

#[test]
fn classify_group_partial_when_zero_present() {
    let g = ListOfNine { arr: [1, 0, 3, 4, 5, 6, 7, 8, 9], is_column: false };
    assert!(matches!(sudoku::checker::classify_group(&g), GroupState::PartialValid));
}

#[test]
fn classify_group_invalid_on_repeat_whatever_the_zeros() {
    let g = ListOfNine { arr: [5, 5, 0, 0, 0, 0, 0, 0, 0], is_column: false };
    assert!(matches!(sudoku::checker::classify_group(&g), GroupState::Invalid));
    let g2 = ListOfNine { arr: [1, 2, 3, 4, 5, 6, 7, 9, 9], is_column: false };
    assert!(matches!(sudoku::checker::classify_group(&g2), GroupState::Invalid));
}

#[test]
fn list_is_valid_ignores_zeros_and_spots_repeats() {
    let ok = ListOfNine { arr: [1, 0, 3, 0, 5, 0, 7, 0, 9], is_column: false };
    assert!(ok.is_valid());
    let bad = ListOfNine { arr: [1, 0, 3, 0, 5, 0, 7, 1, 9], is_column: false };
    assert!(!bad.is_valid());
}

#[test]
fn set_boundary_values() {
    let mut s = Sudoku::new_empty(false);
    assert_eq!(s.set(4, 4, 10), Err(SudokuError::InvalidValue));
    assert_eq!(s.set(4, 4, 255), Err(SudokuError::InvalidValue));
    assert_eq!(s.get(4, 4), 0);
    assert_eq!(s.set(4, 4, 9), Ok(()));
    assert_eq!(s.get(4, 4), 9);
    assert_eq!(s.set(4, 4, 0), Ok(()));
    assert_eq!(s.get(4, 4), 0);
}

#[test]
fn groups_come_in_a_stable_order() {
    let s = Sudoku::new_from_grid(canonical_grid(), false);
    let row = s.row_group(1);
    assert_eq!(row.arr, [4, 5, 6, 7, 8, 9, 1, 2, 3]);
    assert!(!row.is_column);
    let col = s.column_group(0);
    assert_eq!(col.arr, [1, 4, 7, 2, 5, 8, 3, 6, 9]);
    assert!(col.is_column);
    let block = s.block_group(0, 1);
    assert_eq!(block.arr, [4, 5, 6, 7, 8, 9, 1, 2, 3]);
    let all = s.all_groups();
    assert_eq!(all.len(), 27);
    assert_eq!(all[1].arr, row.arr);
    assert_eq!(all[9].arr, col.arr);
    assert_eq!(all[19].arr, block.arr);
}

#[test]
fn take_block_reads_the_right_cells() {
    let s = Sudoku::new_from_grid(canonical_grid(), false);
    let b = s.take_block(3, 0);
    assert_eq!(b.grid, [[4, 5, 6], [7, 8, 9], [1, 2, 3]]);
    assert!(b.solved());
    let unsolved = Block { grid: [[1, 2, 3], [4, 5, 6], [7, 8, 1]] };
    assert!(!unsolved.solved());
    let partial = Block { grid: [[1, 2, 3], [4, 0, 6], [7, 8, 9]] };
    assert!(!partial.solved());
}

#[test]
fn solved_accepts_the_canonical_board_and_rejects_a_dent() {
    let s = Sudoku::new_from_grid(canonical_grid(), false);
    assert!(s.solved());
    assert!(matches!(s.classify_board(), BoardState::Solved));
    let mut dented = Sudoku::new_from_grid(canonical_grid(), false);
    dented.set(0, 0, 0).unwrap();
    assert!(!dented.solved());
    assert!(matches!(dented.classify_board(), BoardState::InProgress));
    let mut broken = Sudoku::new_from_grid(canonical_grid(), false);
    let twin: u8 = broken.get(0, 1);
    broken.set(0, 0, twin).unwrap();
    assert!(matches!(broken.classify_board(), BoardState::Invalid));
}

#[test]
fn classify_board_is_idempotent() {
    let mut s = Sudoku::new_empty(false);
    s.set(3, 3, 7).unwrap();
    let first = s.classify_board();
    let second = s.classify_board();
    assert_eq!(first, second);
    let solved = Sudoku::new_from_grid(canonical_grid(), false);
    assert_eq!(solved.classify_board(), solved.classify_board());
}

#[test]
fn placement_legality_checks_row_column_and_block() {
    let mut s = Sudoku::new_empty(false);
    s.set(0, 0, 5).unwrap();
    assert!(!s.is_placement_legal(0, 8, 5));
    assert!(!s.is_placement_legal(8, 0, 5));
    assert!(!s.is_placement_legal(2, 2, 5));
    assert!(s.is_placement_legal(3, 3, 5));
    assert!(s.is_placement_legal(0, 8, 6));
}

#[test]
fn solver_completes_the_empty_board() {
    let empty = Sudoku::new_empty(false);
    match solve(&empty) {
        SolveResult::Solved(s) => {
            assert!(s.solved());
            assert!(matches!(s.classify_board(), BoardState::Solved));
        }
        _ => panic!("an empty board must be satisfiable"),
    }
}

#[test]
fn solver_rejects_two_fives_in_one_row() {
    let mut s = Sudoku::new_empty(false);
    s.set(0, 0, 5).unwrap();
    s.set(0, 1, 5).unwrap();
    assert!(matches!(solve(&s), SolveResult::Invalid));
}

#[test]
fn solver_keeps_the_clues() {
    let mut s = Sudoku::new_empty(false);
    s.set(0, 0, 1).unwrap();
    s.set(1, 4, 2).unwrap();
    s.set(4, 8, 3).unwrap();
    s.set(8, 2, 9).unwrap();
    match solve(&s) {
        SolveResult::Solved(done) => {
            assert!(done.solved());
            for r in 0..9 {
                for c in 0..9 {
                    if s.get(r, c) != 0 {
                        assert_eq!(done.get(r, c), s.get(r, c));
                    }
                }
            }
        }
        _ => panic!("these four clues admit a completion"),
    }
}

#[test]
fn solver_reports_an_unsatisfiable_corner() {
    // Box (0,0) and row constraints leave no digit for cell (0,2):
    // row 0 already holds 1..=6 elsewhere, and 7, 8, 9 sit in the box.
    let mut s = Sudoku::new_empty(false);
    s.set(0, 0, 1).unwrap();
    s.set(0, 1, 2).unwrap();
    s.set(0, 3, 3).unwrap();
    s.set(0, 4, 4).unwrap();
    s.set(0, 5, 5).unwrap();
    s.set(0, 6, 6).unwrap();
    s.set(1, 0, 7).unwrap();
    s.set(1, 1, 8).unwrap();
    s.set(2, 0, 9).unwrap();
    assert!(matches!(solve(&s), SolveResult::Unsatisfiable));
}

#[test]
fn random_board_holds_only_digits() {
    let s = Sudoku::new(false);
    for r in 0..9 {
        for c in 0..9 {
            let v = s.get(r, c);
            assert!((1..=9).contains(&v));
        }
    }
    assert!(s.is_verbose() == false);
    assert!(Sudoku::new(true).is_verbose());
}

#[test]
fn generate_solved_yields_a_solved_board() {
    let s = generate_solved();
    assert!(s.solved());
    assert_eq!(count_filled_cells(&s), 81);
}

#[test]
fn generate_puzzle_rejects_senseless_targets() {
    assert!(matches!(generate_puzzle(16), Err(SudokuError::InvalidConfiguration)));
    assert!(matches!(generate_puzzle(0), Err(SudokuError::InvalidConfiguration)));
    assert!(matches!(generate_puzzle(82), Err(SudokuError::InvalidConfiguration)));
}

#[test]
fn generate_puzzle_thirty_clues_and_a_consistent_resolve() {
    let p = generate_puzzle(30).expect("carving to 30 clues is reachable");
    assert_eq!(count_filled_cells(&p), 30);
    let mut nonzero: usize = 0;
    for r in 0..9 {
        for c in 0..9 {
            if p.get(r, c) != 0 {
                nonzero += 1;
            }
        }
    }
    assert_eq!(nonzero, 30);
    match solve(&p) {
        SolveResult::Solved(s) => {
            assert!(s.solved());
            for r in 0..9 {
                for c in 0..9 {
                    if p.get(r, c) != 0 {
                        assert_eq!(s.get(r, c), p.get(r, c));
                    }
                }
            }
        }
        _ => panic!("a carved puzzle keeps its completion"),
    }
}

#[test]
fn from_rows_parses_digits_and_rejects_malformed_input() {
    let mut rows: Vec<Vec<u8>> = Vec::new();
    for _ in 0..9 {
        rows.push(b"000000000".to_vec());
    }
    rows[0] = b"123456789".to_vec();
    let s = Sudoku::from_rows(&rows, false).expect("well-shaped input parses");
    assert_eq!(s.get(0, 0), 1);
    assert_eq!(s.get(0, 8), 9);
    assert_eq!(s.get(5, 5), 0);

    let short: Vec<Vec<u8>> = rows[..8].to_vec();
    assert!(matches!(Sudoku::from_rows(&short, false), Err(SudokuError::MalformedGrid)));

    let mut ragged = rows.clone();
    ragged[3] = b"12345678".to_vec();
    assert!(matches!(Sudoku::from_rows(&ragged, false), Err(SudokuError::MalformedGrid)));

    let mut lettered = rows.clone();
    lettered[2] = b"12x456789".to_vec();
    assert!(matches!(Sudoku::from_rows(&lettered, false), Err(SudokuError::MalformedGrid)));
}

#[test]
fn new_from_grid_stores_what_it_was_given() {
    let mut grid = [[0u8; 9]; 9];
    grid[2][7] = 4;
    grid[8][8] = 9;
    let s = Sudoku::new_from_grid(grid, true);
    assert_eq!(s.get(2, 7), 4);
    assert_eq!(s.get(8, 8), 9);
    assert_eq!(s.get(0, 0), 0);
    assert!(s.is_verbose());
}
