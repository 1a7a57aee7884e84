//! The validity checker and the backtracking search engine.

use vstd::prelude::*;

use crate::grid::Board;
use crate::grid::Cell;
use crate::grid::Position;

verus! {

/// The cell of the flat grid b at (row, column), both in 0 to 8.
pub open spec fn at(b: Seq<Cell>, row: int, column: int) -> Cell {
    b[row * 9 + column]
}

/// The top (or left) edge of the 3x3 box that row (or column) x lies in.
pub open spec fn box_origin(x: int) -> int {
    x - x % 3
}

/// Some cell of the given row already holds this digit.
pub open spec fn row_has(b: Seq<Cell>, row: int, digit: u8) -> bool {
    exists|c: int| 0 <= c < 9 && #[trigger] at(b, row, c) == Cell::Digit(digit)
}

/// Some cell of the given column already holds this digit.
pub open spec fn column_has(b: Seq<Cell>, column: int, digit: u8) -> bool {
    exists|r: int| 0 <= r < 9 && #[trigger] at(b, r, column) == Cell::Digit(digit)
}

/// Some cell of the 3x3 box around (row, column) already holds this digit.
pub open spec fn box_has(b: Seq<Cell>, row: int, column: int, digit: u8) -> bool {
    exists|r: int, c: int|
        box_origin(row) <= r < box_origin(row) + 3 && box_origin(column) <= c < box_origin(column)
            + 3 && #[trigger] at(b, r, c) == Cell::Digit(digit)
}

/// Placing this digit at (row, column) breaks no row, column, or box
/// uniqueness constraint.
pub open spec fn placement_allowed(b: Seq<Cell>, digit: u8, row: int, column: int) -> bool {
    &&& !row_has(b, row, digit)
    &&& !column_has(b, column, digit)
    &&& !box_has(b, row, column, digit)
}

/// Whether placing `digit` at `position` keeps the digit unique in the
/// position's row, column, and 3x3 box. Pure: the board is only read.
pub fn is_digit_valid_here(board: &Board, digit: u8, position: Position) -> (r: bool)
    requires
        board@.len() == 81,
        position.wf(),
    ensures
        r == placement_allowed(board@, digit, position.spec_row(), position.spec_column()),
{
    // Check row
    let row_to_check = position.row();
    let mut column: usize = 0;
    while column < 9
        invariant
            board@.len() == 81,
            position.wf(),
            row_to_check == position.spec_row(),
            column <= 9,
            forall|c: int| 0 <= c < column ==> #[trigger] at(board@, row_to_check as int, c)
                != Cell::Digit(digit),
        decreases 9 - column,
    {
        if let Cell::Digit(found_digit) = board.get(Position::new(row_to_check, column)) {
            if found_digit == digit {
                proof {
                    assert(at(board@, position.spec_row(), column as int) == Cell::Digit(digit));
                }
                return false;
            }
        }
        column += 1;
    }

    // Check column
    let column_to_check = position.column();
    let mut row: usize = 0;
    while row < 9
        invariant
            board@.len() == 81,
            position.wf(),
            column_to_check == position.spec_column(),
            row <= 9,
            !row_has(board@, position.spec_row(), digit),
            forall|r: int| 0 <= r < row ==> #[trigger] at(board@, r, column_to_check as int)
                != Cell::Digit(digit),
        decreases 9 - row,
    {
        if let Cell::Digit(found_digit) = board.get(Position::new(row, column_to_check)) {
            if found_digit == digit {
                proof {
                    assert(at(board@, row as int, position.spec_column()) == Cell::Digit(digit));
                }
                return false;
            }
        }
        row += 1;
    }

    // Check 3x3 box
    let first_row_to_check = position.row() - position.row() % 3;
    let last_row_to_check = first_row_to_check + 3;
    let first_column_to_check = position.column() - position.column() % 3;
    let last_column_to_check = first_column_to_check + 3;

    let mut r: usize = first_row_to_check;
    while r < last_row_to_check
        invariant
            board@.len() == 81,
            position.wf(),
            first_row_to_check == box_origin(position.spec_row()),
            last_row_to_check == first_row_to_check + 3,
            first_column_to_check == box_origin(position.spec_column()),
            last_column_to_check == first_column_to_check + 3,
            first_row_to_check <= r <= last_row_to_check,
            last_row_to_check <= 9,
            last_column_to_check <= 9,
            !row_has(board@, position.spec_row(), digit),
            !column_has(board@, position.spec_column(), digit),
            forall|rr: int, cc: int|
                first_row_to_check <= rr < r && first_column_to_check <= cc
                    < last_column_to_check ==> #[trigger] at(board@, rr, cc) != Cell::Digit(digit),
        decreases last_row_to_check - r,
    {
        let mut c: usize = first_column_to_check;
        while c < last_column_to_check
            invariant
                board@.len() == 81,
                position.wf(),
                first_row_to_check == box_origin(position.spec_row()),
                last_row_to_check == first_row_to_check + 3,
                first_column_to_check == box_origin(position.spec_column()),
                last_column_to_check == first_column_to_check + 3,
                first_row_to_check <= r < last_row_to_check,
                first_column_to_check <= c <= last_column_to_check,
                last_row_to_check <= 9,
                last_column_to_check <= 9,
                forall|rr: int, cc: int|
                    first_row_to_check <= rr < r && first_column_to_check <= cc
                        < last_column_to_check ==> #[trigger] at(board@, rr, cc) != Cell::Digit(
                        digit,
                    ),
                forall|cc: int| first_column_to_check <= cc < c ==> #[trigger] at(
                    board@,
                    r as int,
                    cc,
                ) != Cell::Digit(digit),
            decreases last_column_to_check - c,
        {
            if let Cell::Digit(found_digit) = board.get(Position::new(r, c)) {
                if found_digit == digit {
                    proof {
                        assert(at(board@, r as int, c as int) == Cell::Digit(digit));
                        assert(box_has(
                            board@,
                            position.spec_row(),
                            position.spec_column(),
                            digit,
                        ));
                    }
                    return false;
                }
            }
            c += 1;
        }
        r += 1;
    }

    true
}

/// The linear index of the first empty cell of b at or after index i,
/// or 81 when none remains.
pub open spec fn first_empty_from(b: Seq<Cell>, i: int) -> int
    decreases 81 - i,
{
    if i < 0 || i >= 81 {
        81
    } else if b[i] is Empty {
        i
    } else {
        first_empty_from(b, i + 1)
    }
}

/// The linear index of the first empty cell of b in row-major order,
/// or 81 when the board is full.
pub open spec fn first_empty(b: Seq<Cell>) -> int {
    first_empty_from(b, 0)
}

/// No cell of the board is empty.
pub open spec fn board_full(b: Seq<Cell>) -> bool {
    forall|i: int| 0 <= i < 81 ==> !((#[trigger] b[i]) is Empty)
}

proof fn lemma_first_empty_from(b: Seq<Cell>, i: int)
    requires
        0 <= i <= 81,
    ensures
        i <= first_empty_from(b, i) <= 81,
        first_empty_from(b, i) < 81 ==> b[first_empty_from(b, i)] is Empty,
        forall|j: int| i <= j < first_empty_from(b, i) ==> !((#[trigger] b[j]) is Empty),
    decreases 81 - i,
{
    if i < 81 && !(b[i] is Empty) {
        lemma_first_empty_from(b, i + 1);
    }
}

/// The position of the first empty cell in row-major scan order
/// (topmost row first, leftmost column first), or None when the board is full.
pub fn first_empty_cell(board: &Board) -> (r: Option<Position>)
    requires
        board@.len() == 81,
    ensures
        r is Some <==> first_empty(board@) < 81,
        r matches Some(p) ==> p.wf() && p.idx() == first_empty(board@),
        r is None <==> board_full(board@),
{
    proof {
        lemma_first_empty_from(board@, 0);
    }
    let mut row: usize = 0;
    while row < 9
        invariant
            board@.len() == 81,
            row <= 9,
            forall|j: int| 0 <= j < row * 9 ==> !((#[trigger] board@[j]) is Empty),
        decreases 9 - row,
    {
        let mut column: usize = 0;
        while column < 9
            invariant
                board@.len() == 81,
                row < 9,
                column <= 9,
                forall|j: int| 0 <= j < row * 9 + column ==> !((#[trigger] board@[j]) is Empty),
            decreases 9 - column,
        {
            let position = Position::new(row, column);
            if board.get(position).is_empty() {
                proof {
                    lemma_first_empty_from(board@, 0);
                }
                return Some(position);
            }
            column += 1;
        }
        row += 1;
    }
    None
}

/// The count of empty cells of b at or after index i.
pub open spec fn empties_from(b: Seq<Cell>, i: int) -> nat
    decreases 81 - i,
{
    if i < 0 || i >= 81 {
        0
    } else {
        (if b[i] is Empty {
            1nat
        } else {
            0nat
        }) + empties_from(b, i + 1)
    }
}

/// The count of empty cells of the board.
pub open spec fn empties(b: Seq<Cell>) -> nat {
    empties_from(b, 0)
}

proof fn lemma_empties_from_update(b: Seq<Cell>, k: int, v: Cell, i: int)
    requires
        b.len() == 81,
        0 <= k < 81,
        b[k] is Empty,
        !(v is Empty),
        0 <= i <= 81,
    ensures
        i <= k ==> empties_from(b.update(k, v), i) + 1 == empties_from(b, i),
        i > k ==> empties_from(b.update(k, v), i) == empties_from(b, i),
    decreases 81 - i,
{
    if i < 81 {
        lemma_empties_from_update(b, k, v, i + 1);
    }
}

proof fn lemma_empties_place(b: Seq<Cell>, k: int, v: Cell)
    requires
        b.len() == 81,
        0 <= k < 81,
        b[k] is Empty,
        !(v is Empty),
    ensures
        empties(b.update(k, v)) + 1 == empties(b),
        empties(b.update(k, v)) < empties(b),
{
    lemma_empties_from_update(b, k, v, 0);
}

/// The backtrack counter after one more dead end: it sticks at the machine
/// maximum instead of wrapping.
pub open spec fn bump(count: int) -> int {
    if count < usize::MAX {
        count + 1
    } else {
        count
    }
}

/// The outcome of the whole backtracking search on board b with the counter
/// at count: whether a solution was found, the board the search leaves
/// behind, and the new counter.
pub open spec fn search(b: Seq<Cell>, count: int) -> (bool, Seq<Cell>, int)
    decreases empties(b), 10int,
{
    if first_empty(b) == 81 {
        (true, b, count)
    } else {
        search_digits(b, first_empty(b), 1, count)
    }
}

/// The outcome of trying the digits d through 9, in ascending order, in the
/// empty cell at index i of board b.
pub open spec fn search_digits(b: Seq<Cell>, i: int, d: int, count: int) -> (bool, Seq<Cell>, int)
    decreases empties(b), 10 - d,
        via search_digits_decreases
{
    if d < 1 || d > 9 {
        (false, b, bump(count))
    } else if b.len() == 81 && 0 <= i < 81 && b[i] is Empty && placement_allowed(
        b,
        d as u8,
        i / 9,
        i % 9,
    ) {
        let rec = search(b.update(i, Cell::Digit(d as u8)), count);
        if rec.0 {
            rec
        } else {
            search_digits(b, i, d + 1, rec.2)
        }
    } else {
        search_digits(b, i, d + 1, count)
    }
}

#[via_fn]
proof fn search_digits_decreases(b: Seq<Cell>, i: int, d: int, count: int) {
    if 1 <= d <= 9 && b.len() == 81 && 0 <= i < 81 && b[i] is Empty && placement_allowed(
        b,
        d as u8,
        i / 9,
        i % 9,
    ) {
        lemma_empties_place(b, i, Cell::Digit(d as u8));
    }
}

/// Two cells do not hold the same digit (an empty cell conflicts with nothing).
pub open spec fn cells_differ(x: Cell, y: Cell) -> bool {
    !(x is Digit && x == y)
}

/// The linear indices i and j share a row, a column, or a 3x3 box.
pub open spec fn same_group(i: int, j: int) -> bool {
    ||| i / 9 == j / 9
    ||| i % 9 == j % 9
    ||| (box_origin(i / 9) == box_origin(j / 9) && box_origin(i % 9) == box_origin(j % 9))
}

/// No digit occurs twice within any row, column, or 3x3 box.
pub open spec fn board_valid(b: Seq<Cell>) -> bool {
    forall|i: int, j: int|
        #![trigger b[i], b[j]]
        0 <= i < 81 && 0 <= j < 81 && i != j && same_group(i, j) ==> cells_differ(b[i], b[j])
}

proof fn lemma_place_preserves_valid(b: Seq<Cell>, i: int, d: u8)
    requires
        b.len() == 81,
        0 <= i < 81,
        b[i] is Empty,
        board_valid(b),
        placement_allowed(b, d, i / 9, i % 9),
    ensures
        board_valid(b.update(i, Cell::Digit(d))),
{
    let b2 = b.update(i, Cell::Digit(d));
    assert forall|p: int, q: int|
        0 <= p < 81 && 0 <= q < 81 && p != q && same_group(p, q) implies cells_differ(
        b2[p],
        b2[q],
    ) by {
        if p == i || q == i {
            let o = if p == i {
                q
            } else {
                p
            };
            assert(b2[o] == b[o]);
            if b[o] == Cell::Digit(d) {
                assert(o == (o / 9) * 9 + o % 9);
                if o / 9 == i / 9 {
                    assert(at(b, i / 9, o % 9) == Cell::Digit(d));
                    assert(row_has(b, i / 9, d));
                } else if o % 9 == i % 9 {
                    assert(at(b, o / 9, i % 9) == Cell::Digit(d));
                    assert(column_has(b, i % 9, d));
                } else {
                    assert(at(b, o / 9, o % 9) == Cell::Digit(d));
                    assert(box_has(b, i / 9, i % 9, d));
                }
                assert(false);
            }
        } else {
            assert(b2[p] == b[p]);
            assert(b2[q] == b[q]);
        }
    }
}

/// What the search guarantees, by induction over its recursion: the board it
/// leaves keeps all 81 cells and every given clue; on success the board is
/// full, and stays free of duplicates if the clues were; on failure the board
/// is exactly the input; the counter never shrinks; and a full board succeeds
/// at once with nothing changed.
pub proof fn lemma_search_props(b: Seq<Cell>, count: int)
    requires
        b.len() == 81,
    ensures
        ({
            let (s, b2, c2) = search(b, count);
            &&& b2.len() == 81
            &&& c2 >= count
            &&& (s ==> board_full(b2))
            &&& (!s ==> b2 == b && c2 >= count)
            &&& (forall|j: int|
                0 <= j < 81 && !((#[trigger] b[j]) is Empty) ==> b2[j] == b[j])
            &&& (board_valid(b) && s ==> board_valid(b2))
            &&& ((forall|j: int| 0 <= j < 81 ==> (#[trigger] b[j]).wf()) ==> (forall|j: int|
                0 <= j < 81 ==> (#[trigger] b2[j]).wf()))
            &&& (board_full(b) ==> s && b2 == b && c2 == count)
        }),
    decreases empties(b), 10int,
{
    lemma_first_empty_from(b, 0);
    let fe = first_empty(b);
    if fe == 81 {
        assert(board_full(b));
    } else {
        assert(b[fe] is Empty);
        assert(!board_full(b));
        lemma_search_digits_props(b, fe, 1, count);
    }
}

proof fn lemma_search_digits_props(b: Seq<Cell>, i: int, d: int, count: int)
    requires
        b.len() == 81,
        0 <= i < 81,
        b[i] is Empty,
        1 <= d <= 10,
    ensures
        ({
            let (s, b2, c2) = search_digits(b, i, d, count);
            &&& b2.len() == 81
            &&& c2 >= count
            &&& (s ==> board_full(b2))
            &&& (!s ==> b2 == b)
            &&& (forall|j: int|
                0 <= j < 81 && !((#[trigger] b[j]) is Empty) ==> b2[j] == b[j])
            &&& (board_valid(b) && s ==> board_valid(b2))
            &&& ((forall|j: int| 0 <= j < 81 ==> (#[trigger] b[j]).wf()) ==> (forall|j: int|
                0 <= j < 81 ==> (#[trigger] b2[j]).wf()))
        }),
    decreases empties(b), 10 - d,
{
    if d > 9 {
        // dead end: nothing changed, one more backtrack
    } else if placement_allowed(b, d as u8, i / 9, i % 9) {
        let b1 = b.update(i, Cell::Digit(d as u8));
        lemma_empties_place(b, i, Cell::Digit(d as u8));
        lemma_search_props(b1, count);
        let rec = search(b1, count);
        if board_valid(b) {
            lemma_place_preserves_valid(b, i, d as u8);
        }
        if forall|j: int| 0 <= j < 81 ==> (#[trigger] b[j]).wf() {
            assert forall|j: int| 0 <= j < 81 implies (#[trigger] b1[j]).wf() by {
                if j != i {
                    assert(b1[j] == b[j]);
                }
            }
        }
        if rec.0 {
            let (s, b2, c2) = search_digits(b, i, d, count);
            assert(b2 == rec.1);
            assert forall|j: int|
                0 <= j < 81 && !((#[trigger] b[j]) is Empty) implies b2[j] == b[j] by {
                assert(b1[j] == b[j]);
                assert(!(b1[j] is Empty));
            }
        } else {
            lemma_search_digits_props(b, i, d + 1, rec.2);
        }
    } else {
        lemma_search_digits_props(b, i, d + 1, count);
    }
}

/// Solves the board in place by exhaustive depth-first backtracking: the
/// first empty cell in row-major order is tried with the digits 1 through 9
/// ascending, each placement is checked against the row, column, and box
/// constraints, and a placement that leads nowhere is undone. The result says
/// whether a solution was found, and carries the backtrack counter, increased
/// by one per dead end (held at the machine maximum rather than wrapping).
///
/// The outcome, board and counter alike, is exactly `search` applied to the
/// starting board: identical inputs give identical results.
#[verifier::loop_isolation(false)]
pub fn solve_sudoku(board: &mut Board, backtrack_count: usize) -> (r: (bool, usize))
    requires
        old(board).wf(),
    ensures
        r.0 == search(old(board)@, backtrack_count as int).0,
        final(board)@ == search(old(board)@, backtrack_count as int).1,
        r.1 as int == search(old(board)@, backtrack_count as int).2,
        final(board).wf(),
        r.0 ==> board_full(final(board)@),
        !r.0 ==> final(board)@ == old(board)@,
        r.1 >= backtrack_count,
        forall|j: int|
            0 <= j < 81 && !((#[trigger] old(board)@[j]) is Empty) ==> final(board)@[j] == old(
                board,
            )@[j],
        board_valid(old(board)@) && r.0 ==> board_valid(final(board)@),
        board_full(old(board)@) ==> r.0 && r.1 == backtrack_count && final(board)@ == old(board)@,
    decreases empties(old(board)@),
{
    proof {
        lemma_search_props(old(board)@, backtrack_count as int);
    }
    if let Some(position) = first_empty_cell(board) {
        let ghost b0 = board@;
        let ghost i = position.idx();
        proof {
            lemma_first_empty_from(b0, 0);
        }
        let ghost count0 = backtrack_count as int;
        let mut count = backtrack_count;
        let mut digit: u8 = 1;
        while digit <= 9
            invariant
                board@ == b0,
                1 <= digit <= 10,
                count >= backtrack_count,
                search_digits(b0, i, digit as int, count as int) == search_digits(
                    b0,
                    i,
                    1,
                    count0,
                ),
            decreases 10 - digit,
        {
            if is_digit_valid_here(board, digit, position) {
                let ghost count_before = count as int;
                board.set(position, digit).unwrap();
                proof {
                    assert(board@ == b0.update(i, Cell::Digit(digit)));
                    lemma_empties_place(b0, i, Cell::Digit(digit));
                    assert forall|j: int| 0 <= j < 81 implies (#[trigger] board@[j]).wf() by {
                        if j != i {
                            assert(board@[j] == b0[j]);
                        }
                    }
                }
                let (solved, new_backtrack_count) = solve_sudoku(board, count);
                proof {
                    let d = digit as int;
                    assert(d as u8 == digit);
                    let b1 = b0.update(i, Cell::Digit(digit));
                    let rec = search(b1, count_before);
                    assert(rec.0 == solved && rec.1 == board@ && rec.2
                        == new_backtrack_count as int);
                    if rec.0 {
                        assert(search_digits(b0, i, d, count_before) == rec);
                    } else {
                        assert(search_digits(b0, i, d, count_before) == search_digits(
                            b0,
                            i,
                            d + 1,
                            rec.2,
                        ));
                    }
                    assert(search(b0, count0) == search_digits(b0, i, 1, count0));
                }
                if solved {
                    return (true, new_backtrack_count);
                }
                count = new_backtrack_count;
                board.clear(position);
                proof {
                    assert(board@ =~= b0);
                }
            }
            digit += 1;
        }
        let result_count = if count < usize::MAX {
            count + 1
        } else {
            count
        };
        proof {
            assert(search_digits(b0, i, 10, count as int) == (false, b0, bump(count as int)));
            assert(search(b0, count0) == search_digits(b0, i, 1, count0));
        }
        (false, result_count)
    } else {
        (true, backtrack_count)
    }
}

/// Law: the search outcome is a function of the 81 cell values alone, so a
/// board reset from a template and a board freshly built from the same values
/// solve to the same result, board contents and backtrack count alike.
pub proof fn lemma_restart_matches_fresh(
    reset_board: Seq<Cell>,
    fresh_board: Seq<Cell>,
    count: int,
)
    requires
        reset_board.len() == 81,
        fresh_board.len() == 81,
        forall|j: int| 0 <= j < 81 ==> #[trigger] reset_board[j] == fresh_board[j],
    ensures
        search(reset_board, count) == search(fresh_board, count),
{
    assert(reset_board =~= fresh_board);
}

/// Law: a digit already present somewhere in a row is rejected at every
/// position of that row.
pub proof fn lemma_duplicate_in_row_rejected(b: Seq<Cell>, digit: u8, row: int, c0: int, c: int)
    requires
        0 <= row < 9,
        0 <= c0 < 9,
        0 <= c < 9,
        at(b, row, c0) == Cell::Digit(digit),
    ensures
        !placement_allowed(b, digit, row, c),
{
    assert(row_has(b, row, digit));
}

/// Law: a digit already present somewhere in a column is rejected at every
/// position of that column.
pub proof fn lemma_duplicate_in_column_rejected(
    b: Seq<Cell>,
    digit: u8,
    column: int,
    r0: int,
    r: int,
)
    requires
        0 <= column < 9,
        0 <= r0 < 9,
        0 <= r < 9,
        at(b, r0, column) == Cell::Digit(digit),
    ensures
        !placement_allowed(b, digit, r, column),
{
    assert(column_has(b, column, digit));
}

/// Law: a digit already present somewhere in a 3x3 box is rejected at every
/// position of that box.
pub proof fn lemma_duplicate_in_box_rejected(
    b: Seq<Cell>,
    digit: u8,
    r0: int,
    c0: int,
    r: int,
    c: int,
)
    requires
        0 <= r0 < 9,
        0 <= c0 < 9,
        0 <= r < 9,
        0 <= c < 9,
        box_origin(r0) == box_origin(r),
        box_origin(c0) == box_origin(c),
        at(b, r0, c0) == Cell::Digit(digit),
    ensures
        !placement_allowed(b, digit, r, c),
{
    assert(box_has(b, r, c, digit));
}

proof fn lemma_no_candidate_digits(b: Seq<Cell>, i: int, d: int, count: int)
    requires
        b.len() == 81,
        0 <= i < 81,
        b[i] is Empty,
        1 <= d <= 10,
        forall|e: u8| d <= e <= 9 ==> !(#[trigger] placement_allowed(b, e, i / 9, i % 9)),
    ensures
        search_digits(b, i, d, count) == (false, b, bump(count)),
    decreases 10 - d,
{
    if d <= 9 {
        assert(!placement_allowed(b, d as u8, i / 9, i % 9));
        lemma_no_candidate_digits(b, i, d + 1, count);
    }
}

/// Law: when no digit at all may go into the first empty cell, the search
/// fails at once, leaves the board unchanged, and counts exactly one
/// backtrack.
pub proof fn lemma_blocked_board_fails(b: Seq<Cell>, count: int)
    requires
        b.len() == 81,
        first_empty(b) < 81,
        forall|e: u8|
            1 <= e <= 9 ==> !(#[trigger] placement_allowed(
                b,
                e,
                first_empty(b) / 9,
                first_empty(b) % 9,
            )),
    ensures
        search(b, count) == (false, b, bump(count)),
{
    lemma_first_empty_from(b, 0);
    lemma_no_candidate_digits(b, first_empty(b), 1, count);
}

} // verus!
