//! The 9x9 grid and its constructors.

use vstd::prelude::*;
use vstd::slice::slice_subrange;
use vstd::string::StrSliceExecFns;
use crate::geometry::index_of;
use crate::rules::well_formed;

verus! {

/// Number of cells along one side of the grid.
pub const SIDE: usize = 9;

/// Number of cells along one side of a box.
pub const BOX: usize = 3;

/// Number of cells of the grid.
pub const CELLS: usize = 81;

/// Why a text or an array was not accepted as a grid.
#[derive(Clone, Copy, Debug, PartialEq, Eq, Structural)]
pub enum ParseError {
    /// The input does not have 81 characters.
    Length,
    /// The input holds something other than a decimal digit.
    Digit,
}

/// Whether `c` is one of the characters `0` to `9`.
pub open spec fn is_digit_char(c: char) -> bool {
    '0' <= c <= '9'
}

/// The number that the digit character `c` writes.
pub open spec fn digit_of(c: char) -> u8 {
    (c as u8 - '0' as u8) as u8
}

/// Whether `text` writes a grid: 81 characters, each a decimal digit.
pub open spec fn is_grid_text(text: Seq<char>) -> bool {
    &&& text.len() == CELLS
    &&& forall|i: int| 0 <= i < CELLS ==> is_digit_char(#[trigger] text[i])
}

/// The grid that `text` writes, digit by digit in row-major order.
pub open spec fn grid_of_text(text: Seq<char>) -> Seq<u8> {
    Seq::new(CELLS as nat, |i: int| digit_of(text[i]))
}

/// The number that `c` writes if it is a decimal digit.
pub fn digit_value(c: char) -> (value: Option<u8>)
    ensures
        value is Some <==> is_digit_char(c),
        value matches Some(d) ==> d == digit_of(c) && d <= 9,
{
    if '0' <= c && c <= '9' {
        Some(c as u8 - '0' as u8)
    } else {
        None
    }
}

/// A 9x9 grid of digits in row-major order; `0` marks an empty cell.
///
/// Every cell of a `Board` holds a value from 0 to 9: the constructors check
/// it and no method breaks it.
#[derive(Debug, PartialEq, Eq)]
pub struct Board {
    data: [u8; CELLS],
}

impl View for Board {
    type V = Seq<u8>;

    /// The 81 cells in row-major order.
    closed spec fn view(&self) -> Seq<u8> {
        self.data@
    }
}

impl Board {
    /// Holds of every `Board`: its cells form a well-formed grid.
    #[verifier::type_invariant]
    pub open spec fn is_valid(self) -> bool {
        well_formed(self@)
    }

    /// The grid with every cell empty.
    pub fn new() -> (board: Board)
        ensures
            board@ == Seq::new(CELLS as nat, |i: int| 0u8),
    {
        Board { data: [0; CELLS] }
    }

    /// The grid with the given cells, in row-major order. Fails when a cell
    /// holds more than 9.
    pub fn from_cells(cells: [u8; CELLS]) -> (result: Result<Board, ParseError>)
        ensures
            result is Ok <==> well_formed(cells@),
            result matches Ok(board) ==> board@ == cells@,
            result matches Err(e) ==> e == ParseError::Digit,
    {
        let mut i: usize = 0;
        while i < CELLS
            invariant
                i <= CELLS,
                forall|j: int| 0 <= j < i ==> #[trigger] cells@[j] <= 9,
            decreases CELLS - i,
        {
            if cells[i] > 9 {
                return Err(ParseError::Digit);
            }
            i += 1;
        }
        Ok(Board { data: cells })
    }

    /// Reads a grid from 81 decimal digits in row-major order, `0` for an
    /// empty cell. Fails with `Length` when `s` does not have 81 characters,
    /// and with `Digit` when it has 81 and one of them is not a decimal
    /// digit.
    pub fn from_str(s: &str) -> (result: Result<Board, ParseError>)
        ensures
            result is Ok <==> is_grid_text(s@),
            result matches Ok(board) ==> board@ == grid_of_text(s@),
            result matches Err(e) ==> (e == ParseError::Length <==> s@.len() != CELLS),
    {
        if s.unicode_len() != CELLS {
            return Err(ParseError::Length);
        }
        let mut board = Board::new();
        let mut i: usize = 0;
        for c in it: s.chars()
            invariant
                i == it.index(),
                it.seq() == s@,
                s@.len() == CELLS,
                board.data@.len() == CELLS,
                forall|j: int| 0 <= j < CELLS ==> #[trigger] board.data@[j] <= 9,
                forall|j: int|
                    0 <= j < i ==> is_digit_char(#[trigger] s@[j]) && board.data@[j] == digit_of(
                        s@[j],
                    ),
        {
            match digit_value(c) {
                Some(d) => {
                    board.data[i] = d;
                },
                None => {
                    return Err(ParseError::Digit);
                },
            }
            i += 1;
        }
        assert(board@ =~= grid_of_text(s@));
        Ok(board)
    }

    /// The 81 cells in row-major order.
    pub fn cells(&self) -> (cells: [u8; CELLS])
        ensures
            cells@ == self@,
            well_formed(self@),
    {
        proof {
            use_type_invariant(self);
        }
        self.data
    }

    /// The digit at `row`, `col`.
    pub fn get(&self, row: usize, col: usize) -> (digit: u8)
        requires
            row < SIDE,
            col < SIDE,
        ensures
            digit == self@[index_of(row as int, col as int)],
            well_formed(self@),
    {
        proof {
            use_type_invariant(self);
        }
        self.data[row * SIDE + col]
    }

    /// Writes `digit` at `row`, `col` and leaves every other cell as it was.
    pub fn set(&mut self, row: usize, col: usize, digit: u8)
        requires
            row < SIDE,
            col < SIDE,
            digit <= 9,
        ensures
            final(self)@ == old(self)@.update(index_of(row as int, col as int), digit),
            well_formed(final(self)@),
    {
        proof {
            use_type_invariant(&*self);
        }
        self.data[row * SIDE + col] = digit;
    }
}

impl Clone for Board {
    /// A board with the same cells.
    fn clone(&self) -> (copy: Board)
        ensures
            copy@ == self@,
    {
        proof {
            use_type_invariant(self);
        }
        Board { data: self.data }
    }
}

impl core::ops::Index<usize> for Board {
    type Output = [u8];

    /// The nine cells of row `index`, from left to right.
    fn index(&self, index: usize) -> (row: &[u8])
        ensures
            row@ == self@.subrange(index_of(index as int, 0), index_of(index as int, SIDE as int)),
            well_formed(self@),
    {
        proof {
            use_type_invariant(self);
        }
        slice_subrange(self.data.as_slice(), index * SIDE, index * SIDE + SIDE)
    }
}

impl vstd::std_specs::core::IndexSpecImpl<usize> for Board {
    /// A row can be taken when it is one of the nine.
    open spec fn index_req(&self, index: &usize) -> bool {
        *index < SIDE
    }
}

} // verus!
