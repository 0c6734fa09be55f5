//! A grid as text: nine lines of digits, with bars between the boxes.

use vstd::prelude::*;
use vstd::string::StringExecFns;
use crate::board::{Board, BOX, SIDE};
use crate::geometry::index_of;

verus! {

/// The character that writes the digit `d`.
pub open spec fn digit_char(d: u8) -> char {
    ('0' as u8 + d) as char
}

/// The text of the cell at position `i`: its digit and a space.
pub open spec fn cell_text(cells: Seq<u8>, i: int) -> Seq<char> {
    seq![digit_char(cells[i]), ' ']
}

/// The text of the three cells from position `i` on.
pub open spec fn triple_text(cells: Seq<u8>, i: int) -> Seq<char> {
    cell_text(cells, i) + cell_text(cells, i + 1) + cell_text(cells, i + 2)
}

/// The bar drawn between two boxes of a row.
pub open spec fn bar_text() -> Seq<char> {
    seq!['|', ' ']
}

/// The line drawn between two bands of boxes, with the line break after it.
pub open spec fn rule_text() -> Seq<char> {
    "------|-------|------\n"@
}

/// The text of a row: its nine cells, with a bar after the third and the
/// sixth.
pub open spec fn row_text(cells: Seq<u8>, row: int) -> Seq<char> {
    triple_text(cells, index_of(row, 0)) + bar_text() + triple_text(cells, index_of(row, 3))
        + bar_text() + triple_text(cells, index_of(row, 6))
}

/// The text of the three rows from `row` on, with a line break between them.
pub open spec fn band_text(cells: Seq<u8>, row: int) -> Seq<char> {
    row_text(cells, row) + seq!['\n'] + row_text(cells, row + 1) + seq!['\n'] + row_text(
        cells,
        row + 2,
    )
}

/// The text of a grid: its three bands, with a line break and a rule
/// between them and nothing after the last row.
pub open spec fn grid_text(cells: Seq<u8>) -> Seq<char> {
    band_text(cells, 0) + seq!['\n'] + rule_text() + band_text(cells, 3) + seq!['\n'] + rule_text()
        + band_text(cells, 6)
}

/// What is written for the cell at `row`, `col`: the cell, and the bar if
/// a box ends there inside the row.
spec fn cell_part(cells: Seq<u8>, row: int, col: int) -> Seq<char> {
    if col % BOX as int == BOX - 1 && col != SIDE - 1 {
        cell_text(cells, index_of(row, col)) + bar_text()
    } else {
        cell_text(cells, index_of(row, col))
    }
}

/// What is written for the first `n` cells of a row.
spec fn row_part(cells: Seq<u8>, row: int, n: int) -> Seq<char>
    decreases n,
{
    if n <= 0 {
        Seq::empty()
    } else {
        row_part(cells, row, n - 1) + cell_part(cells, row, n - 1)
    }
}

/// What is written for a row and after it: the row, a line break unless it
/// is the last, and the rule if a band ends there inside the grid.
spec fn line_part(cells: Seq<u8>, row: int) -> Seq<char> {
    let line = if row != SIDE - 1 {
        row_text(cells, row) + seq!['\n']
    } else {
        row_text(cells, row)
    };
    if row % BOX as int == BOX - 1 && row != SIDE - 1 {
        line + rule_text()
    } else {
        line
    }
}

/// What is written for the first `n` rows of a grid.
spec fn grid_part(cells: Seq<u8>, n: int) -> Seq<char>
    decreases n,
{
    if n <= 0 {
        Seq::empty()
    } else {
        grid_part(cells, n - 1) + line_part(cells, n - 1)
    }
}

/// The nine cells of a row, written one after the other, are its text.
proof fn lemma_row_part_is_row_text(cells: Seq<u8>, row: int)
    ensures
        row_part(cells, row, SIDE as int) == row_text(cells, row),
{
    reveal_with_fuel(row_part, 10);
    assert(row_part(cells, row, SIDE as int) =~= row_text(cells, row));
}

/// The nine rows of a grid, written one after the other, are its text.
proof fn lemma_grid_part_is_grid_text(cells: Seq<u8>)
    ensures
        grid_part(cells, SIDE as int) == grid_text(cells),
{
    reveal_with_fuel(grid_part, 10);
    assert(grid_part(cells, SIDE as int) =~= grid_text(cells));
}

/// The text that writes the digit `d`.
fn digit_str(d: u8) -> (text: &'static str)
    requires
        d <= 9,
    ensures
        text@ == seq![digit_char(d)],
{
    proof {
        reveal_strlit("0");
        reveal_strlit("1");
        reveal_strlit("2");
        reveal_strlit("3");
        reveal_strlit("4");
        reveal_strlit("5");
        reveal_strlit("6");
        reveal_strlit("7");
        reveal_strlit("8");
        reveal_strlit("9");
    }
    let text = match d {
        0 => "0",
        1 => "1",
        2 => "2",
        3 => "3",
        4 => "4",
        5 => "5",
        6 => "6",
        7 => "7",
        8 => "8",
        _ => "9",
    };
    assert(text@ =~= seq![digit_char(d)]);
    text
}

impl Board {
    /// The grid as text: one line for each row, each digit followed by a
    /// space, a bar between the boxes of a row and a rule between the bands.
    pub fn render(&self) -> (text: String)
        ensures
            text@ == grid_text(self@),
    {
        proof {
            reveal_strlit(" ");
            reveal_strlit("| ");
            reveal_strlit("\n");
        }
        let mut text = String::new();
        let mut r: usize = 0;
        while r < SIDE
            invariant
                r <= SIDE,
                text@ == grid_part(self@, r as int),
                " "@ == seq![' '],
                "| "@ == seq!['|', ' '],
                "\n"@ == seq!['\n'],
            decreases SIDE - r,
        {
            let ghost above = text@;
            let mut c: usize = 0;
            while c < SIDE
                invariant
                    r < SIDE,
                    c <= SIDE,
                    text@ == above + row_part(self@, r as int, c as int),
                    " "@ == seq![' '],
                    "| "@ == seq!['|', ' '],
                decreases SIDE - c,
            {
                let ghost left = text@;
                let d = self.get(r, c);
                text.append(digit_str(d));
                text.append(" ");
                if c % BOX == BOX - 1 && c != SIDE - 1 {
                    text.append("| ");
                }
                assert(text@ =~= left + cell_part(self@, r as int, c as int));
                assert(text@ =~= above + row_part(self@, r as int, c + 1));
                c += 1;
            }
            if r != SIDE - 1 {
                text.append("\n");
            }
            if r % BOX == BOX - 1 && r != SIDE - 1 {
                text.append("------|-------|------\n");
            }
            proof {
                lemma_row_part_is_row_text(self@, r as int);
                assert(text@ =~= above + line_part(self@, r as int));
            }
            r += 1;
        }
        proof {
            lemma_grid_part_is_grid_text(self@);
        }
        text
    }
}

} // verus!
