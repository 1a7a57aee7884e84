use sudoku::Board;
use sudoku::Cell;
use sudoku::Position;
use sudoku::first_empty_cell;
use sudoku::is_digit_valid_here;
use sudoku::solve_sudoku;

/// The 17-clue puzzle, row-major, 0 for a blank.
fn puzzle() -> Vec<u8> {
    vec![
        0, 0, 5, 0, 2, 0, 6, 0, 0, //
        0, 9, 0, 6, 0, 4, 0, 1, 0, //
        2, 0, 0, 5, 0, 0, 0, 0, 3, //
        0, 0, 6, 0, 3, 0, 0, 0, 0, //
        0, 0, 0, 8, 0, 1, 0, 0, 0, //
        0, 0, 0, 0, 9, 0, 4, 0, 0, //
        3, 0, 0, 0, 0, 2, 0, 0, 7, //
        0, 1, 0, 9, 0, 0, 0, 5, 0, //
        0, 0, 4, 0, 6, 0, 8, 0, 0, //
    ]
}

/// The unique completion of `puzzle` under standard Sudoku rules.
fn solution() -> Vec<u8> {
    vec![
        1, 4, 5, 3, 2, 7, 6, 9, 8, //
        7, 9, 3, 6, 8, 4, 5, 1, 2, //
        2, 6, 8, 5, 1, 9, 7, 4, 3, //
        4, 2, 6, 7, 3, 5, 9, 8, 1, //
        9, 5, 7, 8, 4, 1, 2, 3, 6, //
        8, 3, 1, 2, 9, 6, 4, 7, 5, //
        3, 8, 9, 4, 5, 2, 1, 6, 7, //
        6, 1, 2, 9, 7, 8, 3, 5, 4, //
        5, 7, 4, 1, 6, 3, 8, 2, 9, //
    ]
}

fn boards_equal(a: &Board, b: &Board) -> bool {
    for row in 0..9 {
        for column in 0..9 {
            let position = Position::new(row, column);
            if a.get(position) != b.get(position) {
                return false;
            }
        }
    }
    true
}

#[test]
fn validity_checker_rejects_row_duplicate() {
    let mut board = Board::new();
    board.set(Position::new(0, 3), 5).unwrap();
    for column in 0..9 {
        if column != 3 {
            assert!(!is_digit_valid_here(&board, 5, Position::new(0, column)));
        }
    }
    assert!(is_digit_valid_here(&board, 4, Position::new(0, 7)));
    assert!(is_digit_valid_here(&board, 5, Position::new(5, 7)));
}

#[test]
fn validity_checker_rejects_column_duplicate() {
    let mut board = Board::new();
    board.set(Position::new(2, 0), 5).unwrap();
    for row in 0..9 {
        if row != 2 {
            assert!(!is_digit_valid_here(&board, 5, Position::new(row, 0)));
        }
    }
    assert!(is_digit_valid_here(&board, 6, Position::new(6, 0)));
}

#[test]
fn validity_checker_rejects_box_duplicate() {
    let mut board = Board::new();
    board.set(Position::new(4, 4), 5).unwrap();
    for row in 3..6 {
        for column in 3..6 {
            if (row, column) != (4, 4) {
                assert!(!is_digit_valid_here(&board, 5, Position::new(row, column)));
            }
        }
    }
    assert!(is_digit_valid_here(&board, 5, Position::new(2, 2)));
}

#[test]
fn first_empty_cell_scans_row_major() {
    let mut board = Board::new();
    let first = first_empty_cell(&board).unwrap();
    assert_eq!((first.row(), first.column()), (0, 0));
    board.set(Position::new(0, 0), 1).unwrap();
    board.set(Position::new(0, 1), 2).unwrap();
    let next = first_empty_cell(&board).unwrap();
    assert_eq!((next.row(), next.column()), (0, 2));
}

#[test]
fn first_empty_cell_none_on_full_board() {
    let board = Board::from_sequence(&solution()).unwrap();
    assert!(first_empty_cell(&board).is_none());
}

#[test]
fn full_valid_board_succeeds_with_zero_backtracks() {
    let mut board = Board::from_sequence(&solution()).unwrap();
    let (solved, backtracks) = solve_sudoku(&mut board, 0);
    assert!(solved);
    assert_eq!(backtracks, 0);
    let template = Board::from_sequence(&solution()).unwrap();
    assert!(boards_equal(&board, &template));
}

#[test]
fn board_with_conflicting_clues_fails() {
    // The completed grid with one cell blanked and another clue changed so
    // that it duplicates a digit in its column: the blank admits no digit.
    let mut values = solution();
    values[0] = 0;
    values[8] = 1;
    let mut board = Board::from_sequence(&values).unwrap();
    let (solved, backtracks) = solve_sudoku(&mut board, 0);
    assert!(!solved);
    assert_eq!(backtracks, 1);
    // a failed search puts every tentative digit back
    let template = Board::from_sequence(&values).unwrap();
    assert!(boards_equal(&board, &template));
}

#[test]
fn solving_twice_gives_identical_results() {
    let mut first = Board::from_sequence(&puzzle()).unwrap();
    let mut second = Board::from_sequence(&puzzle()).unwrap();
    let (solved_first, backtracks_first) = solve_sudoku(&mut first, 0);
    let (solved_second, backtracks_second) = solve_sudoku(&mut second, 0);
    assert_eq!(solved_first, solved_second);
    assert_eq!(backtracks_first, backtracks_second);
    assert!(boards_equal(&first, &second));
}

#[test]
fn reset_then_solve_matches_fresh_solve() {
    let template = Board::from_sequence(&puzzle()).unwrap();
    let mut reused = Board::new();
    reused.reset_from(&template);
    let (solved_reused, backtracks_reused) = solve_sudoku(&mut reused, 0);

    let mut fresh = Board::from_sequence(&puzzle()).unwrap();
    let (solved_fresh, backtracks_fresh) = solve_sudoku(&mut fresh, 0);

    assert_eq!(solved_reused, solved_fresh);
    assert_eq!(backtracks_reused, backtracks_fresh);
    assert!(boards_equal(&reused, &fresh));
}

#[test]
fn seventeen_clue_puzzle_end_to_end() {
    let mut board = Board::from_sequence(&puzzle()).unwrap();
    let (solved, backtracks) = solve_sudoku(&mut board, 0);
    assert!(solved);
    assert_eq!(backtracks, 3176);
    let expected = solution();
    for row in 0..9 {
        for column in 0..9 {
            let cell = board.get(Position::new(row, column));
            assert_eq!(cell, Cell::Digit(expected[row * 9 + column]));
        }
    }
}

#[test]
fn solved_board_keeps_the_given_clues() {
    let given = puzzle();
    let mut board = Board::from_sequence(&given).unwrap();
    let (solved, _) = solve_sudoku(&mut board, 0);
    assert!(solved);
    for row in 0..9 {
        for column in 0..9 {
            let v = given[row * 9 + column];
            if v != 0 {
                assert_eq!(board.get(Position::new(row, column)), Cell::Digit(v));
            }
        }
    }
}

#[test]
fn empty_board_is_solvable() {
    let mut board = Board::new();
    let (solved, backtracks) = solve_sudoku(&mut board, 0);
    assert!(solved);
    assert_eq!(backtracks, 310);
    assert!(first_empty_cell(&board).is_none());
}

#[test]
fn backtrack_count_threads_through() {
    let mut board = Board::from_sequence(&solution()).unwrap();
    let (solved, backtracks) = solve_sudoku(&mut board, 17);
    assert!(solved);
    assert_eq!(backtracks, 17);
}
