//! The board model: a `Cell` holds nothing or a digit 1 to 9, a `Position`
//! names one of the 81 slots, and a `Board` owns the full grid.

use vstd::prelude::*;

verus! {

/// One grid slot: either no value or a digit 1 to 9.
#[derive(Clone, Copy, Debug, PartialEq, Eq, Structural)]
pub enum Cell {
    Digit(u8),
    Empty,
}

impl Cell {
    /// A cell is well formed when a held digit lies in 1 to 9.
    pub open spec fn wf(self) -> bool {
        match self {
            Cell::Digit(d) => 1 <= d && d <= 9,
            Cell::Empty => true,
        }
    }

    /// The cell a raw value in 0 to 9 denotes: 0 means empty, 1 to 9 hold the digit.
    pub open spec fn of_value(value: u8) -> Cell {
        if value == 0 {
            Cell::Empty
        } else {
            Cell::Digit(value)
        }
    }

    pub fn new(digit: u8) -> (r: Result<Cell, String>)
        ensures
            r is Ok <==> digit <= 9,
            r matches Ok(c) ==> c == Cell::of_value(digit) && c.wf(),
    {
        let mut cell: Cell = Cell::Empty;
        match cell.set(digit) {
            Ok(()) => Ok(cell),
            Err(e) => Err(e),
        }
    }

    pub fn is_empty(&self) -> (r: bool)
        ensures
            r <==> (*self is Empty),
    {
        matches!(self, Cell::Empty)
    }

    pub fn set(&mut self, digit: u8) -> (r: Result<(), String>)
        ensures
            r is Ok <==> digit <= 9,
            digit <= 9 ==> *final(self) == Cell::of_value(digit),
            digit > 9 ==> *final(self) == *old(self),
            old(self).wf() ==> final(self).wf(),
    {
        if digit > 9 {
            return Err(invalid_digit_message(digit));
        }
        *self = if digit == 0 {
            Cell::Empty
        } else {
            Cell::Digit(digit)
        };
        Ok(())
    }

    pub fn clear(&mut self)
        ensures
            *final(self) == Cell::Empty,
    {
        *self = Cell::Empty;
    }
}

/// Relies on std's format! only to render the rejected value into the error text.
#[verifier::external_body]
fn invalid_digit_message(digit: u8) -> String {
    format!(
        "A non-empty Cell can only contain the values from 1 to 9 (inclusive).  You tried to make a Cell from {}.",
        digit,
    )
}

/// Relies on std's format! only to render the wrong length into the error text.
#[verifier::external_body]
fn board_length_message(length: usize) -> String {
    format!("A Board must have 81 Cells.  You supplied {}.", length)
}

/// A (row, column) coordinate, stored as the linear index row * 9 + column.
#[derive(Clone, Copy, Debug)]
pub struct Position(usize);

impl Position {
    /// The linear index into the 81-slot grid.
    pub closed spec fn idx(self) -> int {
        self.0 as int
    }

    pub open spec fn wf(self) -> bool {
        0 <= self.idx() < 81
    }

    /// The row this position lies in.
    pub open spec fn spec_row(self) -> int {
        self.idx() / 9
    }

    /// The column this position lies in.
    pub open spec fn spec_column(self) -> int {
        self.idx() % 9
    }

    pub fn new(row: usize, column: usize) -> (r: Position)
        requires
            row < 9,
            column < 9,
        ensures
            r.idx() == row * 9 + column,
            r.spec_row() == row,
            r.spec_column() == column,
            r.wf(),
    {
        Position(row * 9 + column)
    }

    pub fn row(self) -> (r: usize)
        ensures
            r == self.spec_row(),
    {
        self.0 / 9
    }

    pub fn column(self) -> (r: usize)
        ensures
            r == self.spec_column(),
    {
        self.0 % 9
    }

    fn value(self) -> (r: usize)
        ensures
            r == self.idx(),
    {
        self.0
    }
}

/// The full 81-cell puzzle state, indexed by `Position`.
#[derive(Clone, Debug)]
pub struct Board(Vec<Cell>);

impl View for Board {
    type V = Seq<Cell>;

    closed spec fn view(&self) -> Seq<Cell> {
        self.0@
    }
}

impl Board {
    /// A board is well formed when it holds exactly 81 well-formed cells.
    pub open spec fn wf(&self) -> bool {
        &&& self@.len() == 81
        &&& forall|i: int| 0 <= i < 81 ==> (#[trigger] self@[i]).wf()
    }

    /// A fully empty board.
    pub fn new() -> (r: Board)
        ensures
            r@.len() == 81,
            forall|i: int| 0 <= i < 81 ==> #[trigger] r@[i] == Cell::Empty,
            r.wf(),
    {
        let mut cells: Vec<Cell> = Vec::new();
        while cells.len() < 81
            invariant
                cells@.len() <= 81,
                forall|i: int| 0 <= i < cells@.len() ==> #[trigger] cells@[i] == Cell::Empty,
            decreases 81 - cells@.len(),
        {
            cells.push(Cell::Empty);
        }
        Board(cells)
    }

    /// Builds a board from a flat row-major sequence of exactly 81 values,
    /// each in 0 to 9 (0 marks an empty cell). Any other input is rejected.
    pub fn from_sequence(values: &Vec<u8>) -> (r: Result<Board, String>)
        ensures
            r is Ok <==> (values@.len() == 81 && forall|i: int|
                0 <= i < values@.len() ==> #[trigger] values@[i] <= 9),
            r matches Ok(b) ==> {
                &&& b@.len() == 81
                &&& forall|i: int| 0 <= i < 81 ==> #[trigger] b@[i] == Cell::of_value(values@[i])
                &&& b.wf()
            },
    {
        if values.len() != 81 {
            return Err(board_length_message(values.len()));
        }
        let mut cells: Vec<Cell> = Vec::new();
        let mut i: usize = 0;
        while i < 81
            invariant
                values@.len() == 81,
                i <= 81,
                cells@.len() == i,
                forall|j: int| 0 <= j < i ==> #[trigger] cells@[j] == Cell::of_value(values@[j]),
                forall|j: int| 0 <= j < i ==> #[trigger] values@[j] <= 9,
            decreases 81 - i,
        {
            match Cell::new(values[i]) {
                Ok(c) => cells.push(c),
                Err(e) => return Err(e),
            }
            i += 1;
        }
        Ok(Board(cells))
    }

    /// Overwrites every cell from a template board, so one allocation can be
    /// reused across repeated solves of the same puzzle.
    pub fn reset_from(&mut self, other: &Board)
        requires
            old(self)@.len() == 81,
            other@.len() == 81,
        ensures
            final(self)@ == other@,
    {
        let mut i: usize = 0;
        while i < 81
            invariant
                self@.len() == 81,
                other@.len() == 81,
                i <= 81,
                forall|j: int| 0 <= j < i ==> #[trigger] self@[j] == other@[j],
            decreases 81 - i,
        {
            let c = other.0[i];
            self.0[i] = c;
            i += 1;
        }
        proof {
            assert(self@ =~= other@);
        }
    }

    /// The cell at a position.
    pub fn get(&self, position: Position) -> (r: Cell)
        requires
            position.wf(),
            self@.len() == 81,
        ensures
            r == self@[position.idx()],
    {
        self.0[position.value()]
    }

    /// Writes a raw value at a position: 0 clears the cell, 1 to 9 place the
    /// digit, anything larger is rejected and leaves the board unchanged.
    pub fn set(&mut self, position: Position, digit: u8) -> (r: Result<(), String>)
        requires
            position.wf(),
            old(self)@.len() == 81,
        ensures
            r is Ok <==> digit <= 9,
            digit <= 9 ==> final(self)@ == old(self)@.update(position.idx(), Cell::of_value(digit)),
            digit > 9 ==> final(self)@ == old(self)@,
    {
        let idx = position.value();
        let mut cell = self.0[idx];
        match cell.set(digit) {
            Ok(()) => {
                self.0[idx] = cell;
                Ok(())
            },
            Err(e) => Err(e),
        }
    }

    /// Empties the cell at a position.
    pub fn clear(&mut self, position: Position)
        requires
            position.wf(),
            old(self)@.len() == 81,
        ensures
            final(self)@ == old(self)@.update(position.idx(), Cell::Empty),
    {
        self.0[position.value()] = Cell::Empty;
    }
}

} // verus!
