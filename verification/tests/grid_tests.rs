use sudoku::Board;
use sudoku::Cell;
use sudoku::Position;

#[test]
fn cell_new_zero_gives_empty() {
    let cell = Cell::new(0).unwrap();
    assert!(cell.is_empty());
    assert_eq!(cell, Cell::Empty);
}

#[test]
fn cell_new_digit_holds_it() {
    let cell = Cell::new(5).unwrap();
    assert!(!cell.is_empty());
    assert_eq!(cell, Cell::Digit(5));
}

#[test]
fn cell_new_rejects_values_above_nine() {
    let err = Cell::new(10).unwrap_err();
    assert!(err.contains("10"));
    assert!(Cell::new(255).is_err());
}

#[test]
fn cell_set_places_clears_and_rejects() {
    let mut cell = Cell::Empty;
    assert!(cell.set(3).is_ok());
    assert_eq!(cell, Cell::Digit(3));
    assert!(cell.set(0).is_ok());
    assert_eq!(cell, Cell::Empty);
    cell.set(7).unwrap();
    let err = cell.set(12).unwrap_err();
    assert!(err.contains("12"));
    assert_eq!(cell, Cell::Digit(7));
}

#[test]
fn cell_clear_empties() {
    let mut cell = Cell::Digit(9);
    cell.clear();
    assert!(cell.is_empty());
}

#[test]
fn position_row_and_column_round_trip() {
    for row in 0..9 {
        for column in 0..9 {
            let position = Position::new(row, column);
            assert_eq!(position.row(), row);
            assert_eq!(position.column(), column);
        }
    }
}

#[test]
fn board_new_is_all_empty() {
    let board = Board::new();
    for row in 0..9 {
        for column in 0..9 {
            assert!(board.get(Position::new(row, column)).is_empty());
        }
    }
}

#[test]
fn board_from_sequence_maps_values_to_cells() {
    let mut values: Vec<u8> = vec![0; 81];
    values[0] = 4;
    values[80] = 9;
    let board = Board::from_sequence(&values).unwrap();
    assert_eq!(board.get(Position::new(0, 0)), Cell::Digit(4));
    assert_eq!(board.get(Position::new(8, 8)), Cell::Digit(9));
    assert!(board.get(Position::new(0, 1)).is_empty());
}

#[test]
fn board_from_sequence_rejects_wrong_length() {
    let values: Vec<u8> = vec![0; 80];
    let err = Board::from_sequence(&values).unwrap_err();
    assert!(err.contains("80"));
    let values: Vec<u8> = vec![0; 82];
    assert!(Board::from_sequence(&values).is_err());
}

#[test]
fn board_from_sequence_rejects_values_above_nine() {
    let mut values: Vec<u8> = vec![0; 81];
    values[40] = 10;
    let err = Board::from_sequence(&values).unwrap_err();
    assert!(err.contains("10"));
}

#[test]
fn board_set_get_and_clear() {
    let mut board = Board::new();
    let position = Position::new(3, 5);
    board.set(position, 8).unwrap();
    assert_eq!(board.get(position), Cell::Digit(8));
    board.set(position, 0).unwrap();
    assert!(board.get(position).is_empty());
    board.set(position, 2).unwrap();
    board.clear(position);
    assert!(board.get(position).is_empty());
}

#[test]
fn board_set_rejects_values_above_nine() {
    let mut board = Board::new();
    let position = Position::new(0, 0);
    board.set(position, 6).unwrap();
    assert!(board.set(position, 10).is_err());
    assert_eq!(board.get(position), Cell::Digit(6));
}

#[test]
fn board_reset_from_copies_every_cell() {
    let mut values: Vec<u8> = vec![0; 81];
    for (i, v) in values.iter_mut().enumerate() {
        *v = ((i * 5 + 2) % 10) as u8;
    }
    let template = Board::from_sequence(&values).unwrap();
    let mut board = Board::new();
    board.reset_from(&template);
    for row in 0..9 {
        for column in 0..9 {
            let position = Position::new(row, column);
            assert_eq!(board.get(position), template.get(position));
        }
    }
}
