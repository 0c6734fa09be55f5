//! Depth-first search with backtracking over the empty cells of a grid.

use vstd::prelude::*;
use vstd::slice::slice_subrange;
use crate::board::{Board, CELLS, SIDE};
use crate::candidates::marks_candidates;
use crate::fill::{
    differs_first_at_slot, is_fill, is_slot, lemma_fill_is_completion, lemma_fill_joins,
    lemma_fill_of_nothing, lemma_fill_splits, lemma_listed_slots_are_open,
    lemma_precedes_antisymmetric, lemma_precedes_extends, lemma_rest_stays_open,
    lemma_search_order_is_lex, lemma_slot_index_injective, lists_empty_cells, open_slots,
    precedes, slot_index,
};
use crate::geometry::in_grid;
use crate::rules::{
    consistent, extends, fits, is_completion, is_solved, lemma_completion_of_consistent_is_solved,
    lemma_lex_le_antisymmetric, lemma_solution_is_completion, lemma_solvable_is_consistent,
    lemma_solved_is_consistent, lex_le, well_formed,
};

verus! {

/// What a search over `slots` leaves behind: it succeeds exactly when a fill
/// exists, then leaves the first fill in search order, and otherwise leaves
/// the grid as it found it.
pub open spec fn search_outcome(
    before: Seq<u8>,
    slots: Seq<(usize, usize)>,
    after: Seq<u8>,
    solved: bool,
) -> bool {
    &&& solved <==> exists|g: Seq<u8>| is_fill(before, slots, g)
    &&& solved ==> is_fill(before, slots, after) && forall|g: Seq<u8>| #[trigger]
        is_fill(before, slots, g) ==> precedes(slots, after, g)
    &&& !solved ==> after == before
}

/// What solving leaves behind: it succeeds exactly when the grid has a
/// completion, then leaves the completion that comes first in row-major
/// order, and otherwise leaves the grid as it found it.
pub open spec fn solve_outcome(before: Seq<u8>, after: Seq<u8>, solved: bool) -> bool {
    &&& solved <==> exists|g: Seq<u8>| is_completion(before, g)
    &&& solved ==> is_completion(before, after) && forall|g: Seq<u8>| #[trigger]
        is_completion(before, g) ==> lex_le(after, g)
    &&& !solved ==> after == before
}

/// A search is deterministic: from one grid and one list of slots, any two
/// runs end with the same answer and the same grid.
pub proof fn lemma_search_deterministic(
    before: Seq<u8>,
    slots: Seq<(usize, usize)>,
    first: Seq<u8>,
    first_solved: bool,
    second: Seq<u8>,
    second_solved: bool,
)
    requires
        search_outcome(before, slots, first, first_solved),
        search_outcome(before, slots, second, second_solved),
    ensures
        first_solved == second_solved,
        first == second,
{
    if first_solved {
        lemma_precedes_antisymmetric(slots, first, second);
    }
}

/// Solving is deterministic: from one grid, any two runs end with the same
/// answer and the same grid.
pub proof fn lemma_solve_deterministic(
    before: Seq<u8>,
    first: Seq<u8>,
    first_solved: bool,
    second: Seq<u8>,
    second_solved: bool,
)
    requires
        solve_outcome(before, first, first_solved),
        solve_outcome(before, second, second_solved),
    ensures
        first_solved == second_solved,
        first == second,
{
    if first_solved {
        lemma_lex_le_antisymmetric(first, second);
    }
}

impl Board {
    /// The empty cells, as pairs of row and column, in row-major order.
    pub fn empty_slots(&self) -> (slots: Vec<(usize, usize)>)
        ensures
            lists_empty_cells(self@, slots@),
    {
        proof {
            use_type_invariant(self);
        }
        let mut slots: Vec<(usize, usize)> = Vec::new();
        let mut i: usize = 0;
        while i < CELLS
            invariant
                i <= CELLS,
                well_formed(self@),
                forall|k: int|
                    0 <= k < slots@.len() ==> {
                        &&& (#[trigger] slots@[k]).0 < SIDE
                        &&& slots@[k].1 < SIDE
                        &&& self@[slot_index(slots@[k])] == 0
                        &&& slot_index(slots@[k]) < i
                    },
                forall|j: int, k: int|
                    0 <= j < k < slots@.len() ==> slot_index(#[trigger] slots@[j]) < slot_index(
                        #[trigger] slots@[k],
                    ),
                forall|q: int| 0 <= q < i && #[trigger] self@[q] == 0 ==> is_slot(slots@, q),
            decreases CELLS - i,
        {
            let r = i / SIDE;
            let c = i % SIDE;
            if self.get(r, c) == 0 {
                let ghost earlier = slots@;
                slots.push((r, c));
                proof {
                    assert(slot_index(slots@[earlier.len() as int]) == i);
                    assert forall|q: int|
                        0 <= q < i + 1 && #[trigger] self@[q] == 0 implies is_slot(slots@, q) by {
                        if q < i {
                            let k = choose|k: int|
                                0 <= k < earlier.len() && #[trigger] slot_index(earlier[k]) == q;
                            assert(slot_index(slots@[k]) == q);
                        }
                    }
                }
            }
            i += 1;
        }
        slots
    }

    /// Solves the grid in place and says whether it could.
    ///
    /// The empty cells are filled in row-major order, each with the smallest
    /// digit that leads to a completion, so of all completions the grid ends
    /// as the first one. When there is none, the grid is left as it was.
    pub fn solve(&mut self) -> (solved: bool)
        ensures
            solve_outcome(old(self)@, final(self)@, solved),
            (exists|g: Seq<u8>| is_solved(g) && #[trigger] extends(old(self)@, g)) ==> solved
                && is_solved(final(self)@),
            solved && consistent(old(self)@) ==> is_solved(final(self)@) && consistent(
                final(self)@,
            ),
            solved ==> extends(old(self)@, final(self)@),
            well_formed(final(self)@),
    {
        let ghost before = self@;
        proof {
            use_type_invariant(&*self);
        }
        let slots = self.empty_slots();
        proof {
            lemma_listed_slots_are_open(before, slots@);
        }
        let solved = self.solve_internal(slots.as_slice());
        proof {
            let after = self@;
            assert forall|g: Seq<u8>| is_fill(before, slots@, g) == is_completion(before, g) by {
                lemma_fill_is_completion(before, slots@, g);
            }
            lemma_fill_is_completion(before, slots@, after);
            if solved {
                assert forall|g: Seq<u8>| #[trigger] is_completion(before, g) implies lex_le(
                    after,
                    g,
                ) by {
                    assert(is_fill(before, slots@, g));
                    lemma_search_order_is_lex(before, slots@, after, g);
                }
                if consistent(before) {
                    lemma_completion_of_consistent_is_solved(before, after);
                    lemma_solved_is_consistent(after);
                }
                assert(extends(before, after)) by {
                    assert forall|i: int|
                        0 <= i < before.len() && before[i] != 0 implies #[trigger] after[i]
                        == before[i] by {
                        assert(in_grid(i));
                    }
                }
            } else {
                assert forall|g: Seq<u8>| !is_completion(before, g) by {
                    assert(!is_fill(before, slots@, g));
                }
            }
            assert forall|g: Seq<u8>| is_solved(g) && #[trigger] extends(before, g) implies solved
                && is_solved(after) by {
                lemma_solution_is_completion(before, g);
                assert(is_fill(before, slots@, g));
                lemma_solvable_is_consistent(before, g);
                lemma_completion_of_consistent_is_solved(before, after);
            }
            use_type_invariant(&*self);
        }
        solved
    }

    /// Fills `slots` in order, each with the smallest digit that leads to a
    /// fill of all of them, and says whether it could. On failure the grid
    /// is left as it was found.
    pub fn solve_internal(&mut self, slots: &[(usize, usize)]) -> (solved: bool)
        requires
            open_slots(old(self)@, slots@),
        ensures
            search_outcome(old(self)@, slots@, final(self)@, solved),
        decreases slots.len(),
    {
        let ghost before = self@;
        proof {
            use_type_invariant(&*self);
        }
        if slots.len() == 0 {
            proof {
                lemma_fill_of_nothing(before, slots@, before);
                assert forall|g: Seq<u8>| #[trigger]
                    is_fill(before, slots@, g) implies precedes(slots@, before, g) by {
                    lemma_fill_of_nothing(before, slots@, g);
                }
            }
            return true;
        }
        let (r, c) = slots[0];
        let rest = slice_subrange(slots, 1, slots.len());
        let ghost p = slot_index(slots@[0]);
        assert(rest@ == slots@.drop_first());
        let valid = self.valid_for_position(r, c);

        let mut n: u8 = 1;
        while n <= 9
            invariant
                1 <= n <= 10,
                slots@.len() > 0,
                slots@[0] == (r, c),
                p == slot_index(slots@[0]),
                rest@ == slots@.drop_first(),
                before == old(self)@,
                before.len() == CELLS,
                open_slots(before, slots@),
                self@.len() == CELLS,
                forall|i: int| in_grid(i) && i != p ==> #[trigger] self@[i] == before[i],
                marks_candidates(before, p, valid@),
                forall|g: Seq<u8>| #[trigger] is_fill(before, slots@, g) ==> g[p] >= n,
            decreases 10 - n,
        {
            if valid[n as usize] {
                self.set(r, c, n);
                let ghost tried = self@;
                proof {
                    lemma_slot_index_injective(slots@[0], slots@[0]);
                    assert(tried =~= before.update(p, n));
                    lemma_rest_stays_open(before, slots@, n);
                }
                if self.solve_internal(rest) {
                    proof {
                        let found = self@;
                        lemma_fill_joins(before, slots@, n, found);
                        assert forall|g: Seq<u8>| #[trigger]
                            is_fill(before, slots@, g) implies precedes(slots@, found, g) by {
                            if g[p] == n {
                                lemma_fill_splits(before, slots@, g);
                                assert(is_fill(tried, rest@, g));
                                lemma_precedes_extends(slots@, found, g);
                            } else {
                                assert(differs_first_at_slot(slots@, found, g, 0));
                            }
                        }
                    }
                    return true;
                }
                proof {
                    assert forall|g: Seq<u8>| #[trigger]
                        is_fill(before, slots@, g) implies g[p] >= n + 1 by {
                        if g[p] == n {
                            lemma_fill_splits(before, slots@, g);
                            assert(is_fill(tried, rest@, g));
                        }
                    }
                }
            } else {
                proof {
                    assert forall|g: Seq<u8>| #[trigger]
                        is_fill(before, slots@, g) implies g[p] >= n + 1 by {
                        lemma_fill_splits(before, slots@, g);
                    }
                }
            }
            n += 1;
        }
        self.set(r, c, 0);
        proof {
            lemma_slot_index_injective(slots@[0], slots@[0]);
            assert(self@ =~= before);
            assert forall|g: Seq<u8>| !is_fill(before, slots@, g) by {
                if is_fill(before, slots@, g) {
                    assert(fits(g, slot_index(slots@[0])));
                }
            }
        }
        false
    }
}

} // verus!
