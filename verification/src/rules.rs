//! The rules of the puzzle, stated over a grid seen as a sequence of 81
//! digits in row-major order, `0` for an empty cell.

use vstd::prelude::*;
use vstd::set_lib::{lemma_int_range, lemma_len_subset, set_int_range};
use crate::board::{CELLS, SIDE};
use crate::geometry::{
    box_cell, in_grid, index_of, lemma_box_cell_in_box, lemma_index_of_in_grid, peers,
};

verus! {

/// A grid has 81 cells, each empty (`0`) or holding a digit from 1 to 9.
pub open spec fn well_formed(cells: Seq<u8>) -> bool {
    &&& cells.len() == CELLS
    &&& forall|i: int| 0 <= i < CELLS ==> #[trigger] cells[i] <= 9
}

/// Digit `d` may be written at position `p`: it is one of 1 to 9 and no
/// cell in the row, column or box of `p` holds it, the cell at `p` included.
pub open spec fn permitted(cells: Seq<u8>, p: int, d: int) -> bool {
    &&& 1 <= d <= 9
    &&& forall|q: int| in_grid(q) && peers(p, q) ==> #[trigger] cells[q] != d
}

/// The digit at position `p` of `g` is one of 1 to 9 and no other cell in
/// the row, column or box of `p` holds it.
pub open spec fn fits(g: Seq<u8>, p: int) -> bool {
    &&& 1 <= g[p] <= 9
    &&& forall|q: int| in_grid(q) && q != p && peers(p, q) ==> #[trigger] g[q] != g[p]
}

/// No digit occurs twice in a row, a column or a box of `cells`.
pub open spec fn consistent(cells: Seq<u8>) -> bool {
    forall|i: int, j: int|
        in_grid(i) && in_grid(j) && i != j && peers(i, j) && #[trigger] cells[i] != 0
            ==> cells[i] != #[trigger] cells[j]
}

/// `g` keeps every digit that `cells` holds.
pub open spec fn extends(cells: Seq<u8>, g: Seq<u8>) -> bool {
    &&& g.len() == cells.len()
    &&& forall|i: int| 0 <= i < cells.len() && cells[i] != 0 ==> #[trigger] g[i] == cells[i]
}

/// Every cell of `g` holds a digit from 1 to 9, and no digit occurs twice
/// in a row, a column or a box.
pub open spec fn is_solved(g: Seq<u8>) -> bool {
    &&& g.len() == CELLS
    &&& forall|i: int| in_grid(i) ==> #[trigger] fits(g, i)
}

/// `g` completes `cells`: it keeps the digits of `cells`, and each cell
/// that `cells` leaves empty holds a digit from 1 to 9 that no other cell of
/// its row, column or box holds.
pub open spec fn is_completion(cells: Seq<u8>, g: Seq<u8>) -> bool {
    &&& g.len() == CELLS
    &&& forall|i: int|
        in_grid(i) ==> if cells[i] != 0 {
            #[trigger] g[i] == cells[i]
        } else {
            fits(g, i)
        }
}

/// `a` and `b` agree before position `i`, where `a` holds the smaller digit.
pub open spec fn differs_first_at(a: Seq<u8>, b: Seq<u8>, i: int) -> bool {
    &&& 0 <= i < a.len()
    &&& i < b.len()
    &&& a[i] < b[i]
    &&& forall|j: int| 0 <= j < i ==> #[trigger] a[j] == b[j]
}

/// `a` comes no later than `b` when grids are read cell by cell in
/// row-major order.
pub open spec fn lex_le(a: Seq<u8>, b: Seq<u8>) -> bool {
    a == b || exists|i: int| differs_first_at(a, b, i)
}

/// Of two grids, each no later than the other, there is only one.
pub proof fn lemma_lex_le_antisymmetric(a: Seq<u8>, b: Seq<u8>)
    requires
        lex_le(a, b),
        lex_le(b, a),
    ensures
        a == b,
{
    if a != b {
        let i = choose|i: int| differs_first_at(a, b, i);
        let j = choose|j: int| differs_first_at(b, a, j);
        if i < j {
            assert(b[i] == a[i]);
        } else if j < i {
            assert(a[j] == b[j]);
        }
    }
}

/// A solved grid that keeps the digits of `cells` completes `cells`.
pub proof fn lemma_solution_is_completion(cells: Seq<u8>, g: Seq<u8>)
    requires
        cells.len() == CELLS,
        is_solved(g),
        extends(cells, g),
    ensures
        is_completion(cells, g),
{
    assert forall|i: int| in_grid(i) implies if cells[i] != 0 {
        #[trigger] g[i] == cells[i]
    } else {
        fits(g, i)
    } by {
        assert(fits(g, i));
    }
}

/// A grid that a solved grid extends holds no digit twice in a row, a
/// column or a box.
pub proof fn lemma_solvable_is_consistent(cells: Seq<u8>, g: Seq<u8>)
    requires
        cells.len() == CELLS,
        is_solved(g),
        extends(cells, g),
    ensures
        consistent(cells),
{
    assert forall|i: int, j: int|
        in_grid(i) && in_grid(j) && i != j && peers(i, j) && #[trigger] cells[i]
            != 0 implies cells[i] != #[trigger] cells[j] by {
        if cells[j] != 0 {
            assert(g[i] == cells[i]);
            assert(g[j] == cells[j]);
            assert(fits(g, i));
        }
    }
}

/// A completion of a grid in which no digit occurs twice in a row, a column
/// or a box is a solved grid that keeps the digits of the grid.
pub proof fn lemma_completion_of_consistent_is_solved(cells: Seq<u8>, g: Seq<u8>)
    requires
        well_formed(cells),
        consistent(cells),
        is_completion(cells, g),
    ensures
        is_solved(g),
        extends(cells, g),
{
    assert forall|i: int| in_grid(i) implies #[trigger] fits(g, i) by {
        assert(g[i] == g[i]);
        if cells[i] != 0 {
            assert(g[i] == cells[i]);
            assert(cells[i] <= 9);
            assert forall|q: int| in_grid(q) && q != i && peers(i, q) implies #[trigger] g[q]
                != g[i] by {
                assert(g[q] == g[q]);
                if cells[q] != 0 {
                    assert(g[q] == cells[q]);
                } else {
                    assert(fits(g, q));
                    assert(peers(q, i));
                }
            }
        }
    }
    assert forall|i: int| 0 <= i < cells.len() && cells[i] != 0 implies #[trigger] g[i]
        == cells[i] by {
        assert(in_grid(i));
    }
}

/// In a solved grid two different cells of one row, column or box hold
/// different digits, each from 1 to 9.
pub proof fn lemma_solved_peers_differ(g: Seq<u8>, i: int, j: int)
    requires
        is_solved(g),
        in_grid(i),
        in_grid(j),
        i != j,
        peers(i, j),
    ensures
        g[i] != g[j],
        1 <= g[i] <= 9,
        1 <= g[j] <= 9,
{
    assert(fits(g, i));
    assert(fits(g, j));
}

/// A solved grid holds no digit twice in a row, a column or a box.
pub proof fn lemma_solved_is_consistent(g: Seq<u8>)
    requires
        is_solved(g),
    ensures
        consistent(g),
{
    assert forall|i: int, j: int|
        in_grid(i) && in_grid(j) && i != j && peers(i, j) && #[trigger] g[i] != 0 implies g[i]
        != #[trigger] g[j] by {
        lemma_solved_peers_differ(g, i, j);
    }
}

/// Nine different digits from 1 to 9 are all of them.
proof fn lemma_nine_digits_are_all(unit: Seq<u8>, d: int)
    requires
        unit.len() == SIDE,
        forall|k: int| 0 <= k < SIDE ==> 1 <= #[trigger] unit[k] <= 9,
        forall|j: int, k: int| 0 <= j < k < SIDE ==> #[trigger] unit[j] != #[trigger] unit[k],
        1 <= d <= 9,
    ensures
        exists|k: int| 0 <= k < SIDE && #[trigger] unit[k] == d,
{
    if !exists|k: int| 0 <= k < SIDE && #[trigger] unit[k] == d {
        let held = Seq::new(SIDE as nat, |k: int| unit[k] as int);
        assert(held.no_duplicates());
        held.unique_seq_to_set();
        let others = set_int_range(1, 10).remove(d);
        lemma_int_range(1, 10);
        assert forall|x: int| held.to_set().contains(x) implies others.contains(x) by {
            let k = choose|k: int| 0 <= k < held.len() && held[k] == x;
            assert(unit[k] != d);
        }
        lemma_len_subset(held.to_set(), others);
    }
}

/// Nine digits of a solved grid, taken from nine different cells of which
/// any two share a row, a column or a box, hold every digit from 1 to 9.
proof fn lemma_unit_holds_every_digit(g: Seq<u8>, unit: Seq<int>, d: int)
    requires
        is_solved(g),
        unit.len() == SIDE,
        forall|k: int| 0 <= k < SIDE ==> in_grid(#[trigger] unit[k]),
        forall|j: int, k: int|
            0 <= j < k < SIDE ==> #[trigger] unit[j] != #[trigger] unit[k] && peers(
                unit[j],
                unit[k],
            ),
        1 <= d <= 9,
    ensures
        exists|k: int| 0 <= k < SIDE && g[#[trigger] unit[k]] == d,
{
    let digits = Seq::new(SIDE as nat, |k: int| g[unit[k]]);
    assert forall|j: int, k: int| 0 <= j < k < SIDE implies #[trigger] digits[j]
        != #[trigger] digits[k] by {
        assert(unit[j] != unit[k]);
        lemma_solved_peers_differ(g, unit[j], unit[k]);
    }
    assert forall|k: int| 0 <= k < SIDE implies 1 <= #[trigger] digits[k] <= 9 by {
        assert(in_grid(unit[k]));
        assert(fits(g, unit[k]));
    }
    lemma_nine_digits_are_all(digits, d);
    let k = choose|k: int| 0 <= k < SIDE && #[trigger] digits[k] == d;
    assert(g[unit[k]] == d);
}

/// In a solved grid every row holds every digit.
pub proof fn lemma_solved_row_holds_every_digit(g: Seq<u8>, row: int, d: int)
    requires
        is_solved(g),
        0 <= row < SIDE,
        1 <= d <= 9,
    ensures
        exists|col: int| 0 <= col < SIDE && #[trigger] g[index_of(row, col)] == d,
{
    let unit = Seq::new(SIDE as nat, |k: int| index_of(row, k));
    assert forall|k: int| 0 <= k < SIDE implies in_grid(#[trigger] unit[k]) by {
        lemma_index_of_in_grid(row, k);
    }
    assert forall|j: int, k: int| 0 <= j < k < SIDE implies #[trigger] unit[j]
        != #[trigger] unit[k] && peers(unit[j], unit[k]) by {
        lemma_index_of_in_grid(row, j);
        lemma_index_of_in_grid(row, k);
    }
    lemma_unit_holds_every_digit(g, unit, d);
    let k = choose|k: int| 0 <= k < SIDE && g[#[trigger] unit[k]] == d;
    assert(g[index_of(row, k)] == d);
}

/// In a solved grid every column holds every digit.
pub proof fn lemma_solved_column_holds_every_digit(g: Seq<u8>, col: int, d: int)
    requires
        is_solved(g),
        0 <= col < SIDE,
        1 <= d <= 9,
    ensures
        exists|row: int| 0 <= row < SIDE && #[trigger] g[index_of(row, col)] == d,
{
    let unit = Seq::new(SIDE as nat, |k: int| index_of(k, col));
    assert forall|k: int| 0 <= k < SIDE implies in_grid(#[trigger] unit[k]) by {
        lemma_index_of_in_grid(k, col);
    }
    assert forall|j: int, k: int| 0 <= j < k < SIDE implies #[trigger] unit[j]
        != #[trigger] unit[k] && peers(unit[j], unit[k]) by {
        lemma_index_of_in_grid(j, col);
        lemma_index_of_in_grid(k, col);
    }
    lemma_unit_holds_every_digit(g, unit, d);
    let k = choose|k: int| 0 <= k < SIDE && g[#[trigger] unit[k]] == d;
    assert(g[index_of(k, col)] == d);
}

/// In a solved grid the box of any cell holds every digit.
pub proof fn lemma_solved_box_holds_every_digit(g: Seq<u8>, row: int, col: int, d: int)
    requires
        is_solved(g),
        0 <= row < SIDE,
        0 <= col < SIDE,
        1 <= d <= 9,
    ensures
        exists|k: int| 0 <= k < SIDE && #[trigger] g[box_cell(row, col, k)] == d,
{
    let unit = Seq::new(SIDE as nat, |k: int| box_cell(row, col, k));
    assert forall|k: int| 0 <= k < SIDE implies in_grid(#[trigger] unit[k]) by {
        lemma_box_cell_in_box(row, col, k);
    }
    assert forall|j: int, k: int| 0 <= j < k < SIDE implies #[trigger] unit[j]
        != #[trigger] unit[k] && peers(unit[j], unit[k]) by {
        lemma_box_cell_in_box(row, col, j);
        lemma_box_cell_in_box(row, col, k);
    }
    lemma_unit_holds_every_digit(g, unit, d);
    let k = choose|k: int| 0 <= k < SIDE && g[#[trigger] unit[k]] == d;
    assert(g[box_cell(row, col, k)] == d);
}

} // verus!
