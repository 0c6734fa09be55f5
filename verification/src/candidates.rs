//! Which digits may still be written at a cell.

use vstd::prelude::*;
use crate::ascending::{lemma_ascending_unique, strictly_ascending};
use crate::board::{Board, BOX, SIDE};
use crate::geometry::{
    box_cell, col_of, in_grid, index_of, lemma_box_cell_in_box, lemma_box_member,
    lemma_index_of_in_grid, lemma_position_has_row_and_column, peers, row_of,
};
use crate::rules::{permitted, well_formed};

verus! {

/// `mask` says of each digit whether it may be written at position `p`.
pub open spec fn marks_candidates(cells: Seq<u8>, p: int, mask: Seq<bool>) -> bool {
    &&& mask.len() == 10
    &&& forall|d: int| 0 <= d < 10 ==> #[trigger] mask[d] == permitted(cells, p, d)
}

/// `digits` are the digits that may be written at position `p`, each once,
/// in ascending order.
pub open spec fn lists_candidates(cells: Seq<u8>, p: int, digits: Seq<u8>) -> bool {
    &&& forall|j: int, k: int|
        0 <= j < k < digits.len() ==> #[trigger] digits[j] < #[trigger] digits[k]
    &&& forall|d: u8| digits.contains(d) <==> permitted(cells, p, d as int)
}

/// The candidates of a cell depend on the grid alone: two masks computed
/// for one position of one grid are equal.
pub proof fn lemma_mask_unique(cells: Seq<u8>, p: int, first: Seq<bool>, second: Seq<bool>)
    requires
        marks_candidates(cells, p, first),
        marks_candidates(cells, p, second),
    ensures
        first == second,
{
    assert(first =~= second);
}

/// The candidates of a cell depend on the grid alone: two lists computed
/// for one position of one grid are equal.
pub proof fn lemma_candidates_unique(cells: Seq<u8>, p: int, first: Seq<u8>, second: Seq<u8>)
    requires
        lists_candidates(cells, p, first),
        lists_candidates(cells, p, second),
    ensures
        first == second,
{
    let a = Seq::new(first.len(), |k: int| first[k] as int);
    let b = Seq::new(second.len(), |k: int| second[k] as int);
    assert forall|x: int| a.contains(x) <==> b.contains(x) by {
        if a.contains(x) {
            let k = choose|k: int| 0 <= k < a.len() && a[k] == x;
            assert(first.contains(first[k]));
            assert(second.contains(first[k]));
            let m = choose|m: int| 0 <= m < second.len() && second[m] == first[k];
            assert(b[m] == x);
        }
        if b.contains(x) {
            let k = choose|k: int| 0 <= k < b.len() && b[k] == x;
            assert(second.contains(second[k]));
            assert(first.contains(second[k]));
            let m = choose|m: int| 0 <= m < first.len() && first[m] == second[k];
            assert(a[m] == x);
        }
    }
    assert(strictly_ascending(a));
    assert(strictly_ascending(b));
    lemma_ascending_unique(a, b);
    assert(first.len() == second.len());
    assert forall|k: int| 0 <= k < first.len() implies first[k] == second[k] by {
        assert(a[k] == b[k]);
    }
    assert(first =~= second);
}

/// None of the first `n` cells of column `col` holds `d`.
spec fn absent_from_col(cells: Seq<u8>, col: int, n: int, d: int) -> bool {
    forall|j: int| 0 <= j < n ==> #[trigger] cells[index_of(j, col)] != d
}

/// None of the first `n` cells of row `row` holds `d`.
spec fn absent_from_row(cells: Seq<u8>, row: int, n: int, d: int) -> bool {
    forall|j: int| 0 <= j < n ==> #[trigger] cells[index_of(row, j)] != d
}

/// None of the first `n` cells of the box of `row`, `col` holds `d`.
spec fn absent_from_box(cells: Seq<u8>, row: int, col: int, n: int, d: int) -> bool {
    forall|k: int| 0 <= k < n ==> #[trigger] cells[box_cell(row, col, k)] != d
}

/// A digit absent from the whole column, row and box of a cell is absent
/// from every peer of the cell, and the other way round.
proof fn lemma_scans_cover_peers(cells: Seq<u8>, row: int, col: int, d: int)
    requires
        0 <= row < SIDE,
        0 <= col < SIDE,
    ensures
        (absent_from_col(cells, col, SIDE as int, d) && absent_from_row(cells, row, SIDE as int, d)
            && absent_from_box(cells, row, col, SIDE as int, d)) <==> (forall|q: int|
            in_grid(q) && peers(index_of(row, col), q) ==> #[trigger] cells[q] != d),
{
    let p = index_of(row, col);
    lemma_index_of_in_grid(row, col);
    if absent_from_col(cells, col, SIDE as int, d) && absent_from_row(cells, row, SIDE as int, d)
        && absent_from_box(cells, row, col, SIDE as int, d) {
        assert forall|q: int| in_grid(q) && peers(p, q) implies #[trigger] cells[q] != d by {
            lemma_position_has_row_and_column(q);
            if col_of(q) == col {
                assert(cells[index_of(row_of(q), col)] != d);
            } else if row_of(q) == row {
                assert(cells[index_of(row, col_of(q))] != d);
            } else {
                let k = lemma_box_member(q, row, col);
                assert(cells[box_cell(row, col, k)] != d);
            }
        }
    }
    if forall|q: int| in_grid(q) && peers(p, q) ==> #[trigger] cells[q] != d {
        assert forall|j: int| 0 <= j < SIDE implies #[trigger] cells[index_of(j, col)] != d by {
            lemma_index_of_in_grid(j, col);
        }
        assert forall|j: int| 0 <= j < SIDE implies #[trigger] cells[index_of(row, j)] != d by {
            lemma_index_of_in_grid(row, j);
        }
        assert forall|k: int| 0 <= k < SIDE implies #[trigger] cells[box_cell(row, col, k)]
            != d by {
            lemma_box_cell_in_box(row, col, k);
        }
    }
}

impl Board {
    /// For each digit, whether it may be written at `r`, `c`: entry `d` of
    /// the result is true when `d` is one of 1 to 9 and no cell in the row,
    /// column or box of the position holds it. Entry 0 is always false.
    pub fn valid_for_position(&self, r: usize, c: usize) -> (valid: [bool; 10])
        requires
            r < SIDE,
            c < SIDE,
        ensures
            marks_candidates(self@, index_of(r as int, c as int), valid@),
    {
        proof {
            use_type_invariant(self);
        }
        let mut valid = [true;10];
        valid[0] = false;

        let mut i: usize = 0;
        while i < SIDE
            invariant
                i <= SIDE,
                c < SIDE,
                well_formed(self@),
                forall|d: int|
                    0 <= d < 10 ==> #[trigger] valid[d] == (1 <= d && absent_from_col(
                        self@,
                        c as int,
                        i as int,
                        d,
                    )),
            decreases SIDE - i,
        {
            let n = self.get(i, c);
            valid[n as usize] = false;
            i += 1;
        }

        let mut j: usize = 0;
        while j < SIDE
            invariant
                j <= SIDE,
                r < SIDE,
                well_formed(self@),
                forall|d: int|
                    0 <= d < 10 ==> #[trigger] valid[d] == (1 <= d && absent_from_col(
                        self@,
                        c as int,
                        SIDE as int,
                        d,
                    ) && absent_from_row(self@, r as int, j as int, d)),
            decreases SIDE - j,
        {
            let n = self.get(r, j);
            valid[n as usize] = false;
            j += 1;
        }

        let mut k: usize = 0;
        while k < SIDE
            invariant
                k <= SIDE,
                r < SIDE,
                c < SIDE,
                well_formed(self@),
                forall|d: int|
                    0 <= d < 10 ==> #[trigger] valid[d] == (1 <= d && absent_from_col(
                        self@,
                        c as int,
                        SIDE as int,
                        d,
                    ) && absent_from_row(self@, r as int, SIDE as int, d) && absent_from_box(
                        self@,
                        r as int,
                        c as int,
                        k as int,
                        d,
                    )),
            decreases SIDE - k,
        {
            let n = self.get((r / BOX) * BOX + k / BOX, (c / BOX) * BOX + k % BOX);
            assert(n == self@[box_cell(r as int, c as int, k as int)]);
            valid[n as usize] = false;
            k += 1;
        }

        proof {
            assert forall|d: int| 0 <= d < 10 implies #[trigger] valid[d] == permitted(
                self@,
                index_of(r as int, c as int),
                d,
            ) by {
                lemma_scans_cover_peers(self@, r as int, c as int, d);
            }
        }
        valid
    }

    /// The digits that may be written at `r`, `c`, in ascending order: the
    /// digits from 1 to 9 that no cell in the row, column or box of the
    /// position holds. The cell itself counts, so a filled cell has its
    /// own digit excluded.
    pub fn candidates(&self, r: usize, c: usize) -> (digits: Vec<u8>)
        requires
            r < SIDE,
            c < SIDE,
        ensures
            lists_candidates(self@, index_of(r as int, c as int), digits@),
    {
        let valid = self.valid_for_position(r, c);
        let ghost p = index_of(r as int, c as int);
        let mut digits: Vec<u8> = Vec::new();
        let mut n: u8 = 1;
        while n <= 9
            invariant
                1 <= n <= 10,
                marks_candidates(self@, p, valid@),
                forall|k: int| 0 <= k < digits@.len() ==> #[trigger] digits@[k] < n,
                forall|j: int, k: int|
                    0 <= j < k < digits@.len() ==> #[trigger] digits@[j] < #[trigger] digits@[k],
                forall|d: u8| digits@.contains(d) <==> d < n && permitted(self@, p, d as int),
            decreases 10 - n,
        {
            let ghost earlier = digits@;
            if valid[n as usize] {
                digits.push(n);
                proof {
                    assert(digits@[earlier.len() as int] == n);
                    assert forall|d: u8| digits@.contains(d) <==> d < n + 1 && permitted(
                        self@,
                        p,
                        d as int,
                    ) by {
                        if digits@.contains(d) {
                            let k = choose|k: int| 0 <= k < digits@.len() && digits@[k] == d;
                            if k < earlier.len() {
                                assert(earlier[k] == d);
                                assert(earlier.contains(d));
                            }
                        }
                        if d < n && permitted(self@, p, d as int) {
                            assert(earlier.contains(d));
                            let k = choose|k: int| 0 <= k < earlier.len() && earlier[k] == d;
                            assert(digits@[k] == d);
                        }
                    }
                }
            } else {
                assert(valid@[n as int] == permitted(self@, p, n as int));
            }
            n += 1;
        }
        digits
    }
}

} // verus!
