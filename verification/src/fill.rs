//! Slots, the cells that a search is to fill, and what it is to fill them.

use vstd::prelude::*;
use crate::ascending::{lemma_ascending_unique, strictly_ascending};
use crate::board::{CELLS, SIDE};
use crate::geometry::{in_grid, index_of, peers};
use crate::rules::{differs_first_at, fits, is_completion, lex_le, permitted};

verus! {

/// Position of the cell that a slot names by row and column.
pub open spec fn slot_index(slot: (usize, usize)) -> int {
    index_of(slot.0 as int, slot.1 as int)
}

/// Whether position `i` is named by one of `slots`.
pub open spec fn is_slot(slots: Seq<(usize, usize)>, i: int) -> bool {
    exists|k: int| 0 <= k < slots.len() && #[trigger] slot_index(slots[k]) == i
}

/// `slots` name cells of the grid that are empty in `cells`, each at most once.
pub open spec fn open_slots(cells: Seq<u8>, slots: Seq<(usize, usize)>) -> bool {
    &&& forall|k: int|
        0 <= k < slots.len() ==> {
            &&& (#[trigger] slots[k]).0 < SIDE
            &&& slots[k].1 < SIDE
            &&& cells[slot_index(slots[k])] == 0
        }
    &&& forall|j: int, k: int|
        0 <= j < k < slots.len() ==> #[trigger] slots[j] != #[trigger] slots[k]
}

/// `g` fills the slots of `cells`: it keeps every other cell, and each slot
/// holds a digit from 1 to 9 that no other cell of its row, column or box
/// holds.
pub open spec fn is_fill(cells: Seq<u8>, slots: Seq<(usize, usize)>, g: Seq<u8>) -> bool {
    &&& g.len() == CELLS
    &&& forall|i: int| in_grid(i) && !is_slot(slots, i) ==> #[trigger] g[i] == cells[i]
    &&& forall|k: int| 0 <= k < slots.len() ==> fits(g, #[trigger] slot_index(slots[k]))
}

/// Grid `a` comes no later than grid `b` in the order of the search: they
/// are equal, or at the first slot where they differ `a` holds the smaller
/// digit.
pub open spec fn precedes(slots: Seq<(usize, usize)>, a: Seq<u8>, b: Seq<u8>) -> bool {
    a == b || exists|k: int| differs_first_at_slot(slots, a, b, k)
}

/// `a` and `b` agree on the slots before the `k`-th, where `a` holds the
/// smaller digit.
pub open spec fn differs_first_at_slot(
    slots: Seq<(usize, usize)>,
    a: Seq<u8>,
    b: Seq<u8>,
    k: int,
) -> bool {
    &&& 0 <= k < slots.len()
    &&& a[slot_index(slots[k])] < b[slot_index(slots[k])]
    &&& forall|j: int| 0 <= j < k ==> a[#[trigger] slot_index(slots[j])] == b[slot_index(slots[j])]
}

/// `slots` name the empty cells of `cells`, all of them, in row-major order.
pub open spec fn lists_empty_cells(cells: Seq<u8>, slots: Seq<(usize, usize)>) -> bool {
    &&& forall|k: int|
        0 <= k < slots.len() ==> {
            &&& (#[trigger] slots[k]).0 < SIDE
            &&& slots[k].1 < SIDE
            &&& cells[slot_index(slots[k])] == 0
        }
    &&& forall|j: int, k: int|
        0 <= j < k < slots.len() ==> slot_index(#[trigger] slots[j]) < slot_index(
            #[trigger] slots[k],
        )
    &&& forall|i: int| in_grid(i) && #[trigger] cells[i] == 0 ==> is_slot(slots, i)
}

/// Two slots inside the grid name the same position only if they are equal.
pub proof fn lemma_slot_index_injective(s: (usize, usize), t: (usize, usize))
    requires
        s.0 < SIDE,
        s.1 < SIDE,
        t.0 < SIDE,
        t.1 < SIDE,
        slot_index(s) == slot_index(t),
    ensures
        s == t,
        in_grid(slot_index(s)),
{
}

/// With no slot to fill, the only fill is the grid itself.
pub proof fn lemma_fill_of_nothing(cells: Seq<u8>, slots: Seq<(usize, usize)>, g: Seq<u8>)
    requires
        cells.len() == CELLS,
        slots.len() == 0,
    ensures
        is_fill(cells, slots, g) <==> g == cells,
{
    if is_fill(cells, slots, g) {
        assert(g =~= cells);
    }
}

/// Writing a digit in the first slot leaves the other slots open.
pub proof fn lemma_rest_stays_open(cells: Seq<u8>, slots: Seq<(usize, usize)>, v: u8)
    requires
        cells.len() == CELLS,
        open_slots(cells, slots),
        slots.len() > 0,
    ensures
        open_slots(cells.update(slot_index(slots[0]), v), slots.drop_first()),
{
    let p = slot_index(slots[0]);
    let rest = slots.drop_first();
    let next = cells.update(p, v);
    assert forall|k: int| 0 <= k < rest.len() implies {
        &&& (#[trigger] rest[k]).0 < SIDE
        &&& rest[k].1 < SIDE
        &&& next[slot_index(rest[k])] == 0
    } by {
        assert(rest[k] == slots[k + 1]);
        assert(slots[0] != slots[k + 1]);
        if slot_index(slots[k + 1]) == p {
            lemma_slot_index_injective(slots[k + 1], slots[0]);
        }
    }
    assert forall|j: int, k: int| 0 <= j < k < rest.len() implies #[trigger] rest[j]
        != #[trigger] rest[k] by {
        assert(rest[j] == slots[j + 1]);
        assert(rest[k] == slots[k + 1]);
    }
}

/// A fill of all the slots holds a permitted digit in the first slot, and
/// fills the other slots of the grid that has that digit written in.
pub proof fn lemma_fill_splits(cells: Seq<u8>, slots: Seq<(usize, usize)>, g: Seq<u8>)
    requires
        cells.len() == CELLS,
        open_slots(cells, slots),
        slots.len() > 0,
        is_fill(cells, slots, g),
    ensures
        permitted(cells, slot_index(slots[0]), g[slot_index(slots[0])] as int),
        is_fill(
            cells.update(slot_index(slots[0]), g[slot_index(slots[0])]),
            slots.drop_first(),
            g,
        ),
{
    let p = slot_index(slots[0]);
    let v = g[p];
    let rest = slots.drop_first();
    let next = cells.update(p, v);
    lemma_slot_index_injective(slots[0], slots[0]);
    assert(fits(g, slot_index(slots[0])));
    assert forall|q: int| in_grid(q) && peers(p, q) implies #[trigger] cells[q] != v by {
        if is_slot(slots, q) {
            let k = choose|k: int| 0 <= k < slots.len() && #[trigger] slot_index(slots[k]) == q;
            assert(cells[slot_index(slots[k])] == 0);
        } else {
            assert(g[q] == cells[q]);
            assert(q != p);
        }
    }
    assert forall|i: int| in_grid(i) && !is_slot(rest, i) implies #[trigger] g[i] == next[i] by {
        if i != p {
            if is_slot(slots, i) {
                let k = choose|k: int| 0 <= k < slots.len() && #[trigger] slot_index(slots[k]) == i;
                assert(k != 0);
                assert(rest[k - 1] == slots[k]);
                assert(slot_index(rest[k - 1]) == i);
                assert(false);
            }
            assert(g[i] == cells[i]);
        }
    }
    assert forall|k: int| 0 <= k < rest.len() implies fits(g, #[trigger] slot_index(rest[k])) by {
        assert(rest[k] == slots[k + 1]);
        assert(fits(g, slot_index(slots[k + 1])));
    }
}

/// A permitted digit in the first slot, followed by a fill of the other
/// slots, fills all the slots.
pub proof fn lemma_fill_joins(cells: Seq<u8>, slots: Seq<(usize, usize)>, v: u8, g: Seq<u8>)
    requires
        cells.len() == CELLS,
        open_slots(cells, slots),
        slots.len() > 0,
        permitted(cells, slot_index(slots[0]), v as int),
        is_fill(cells.update(slot_index(slots[0]), v), slots.drop_first(), g),
    ensures
        is_fill(cells, slots, g),
        g[slot_index(slots[0])] == v,
{
    let p = slot_index(slots[0]);
    let rest = slots.drop_first();
    let next = cells.update(p, v);
    lemma_slot_index_injective(slots[0], slots[0]);
    lemma_rest_stays_open(cells, slots, v);
    assert(!is_slot(rest, p)) by {
        if is_slot(rest, p) {
            let k = choose|k: int| 0 <= k < rest.len() && #[trigger] slot_index(rest[k]) == p;
            assert(next[slot_index(rest[k])] == 0);
            assert(next[p] == v);
        }
    }
    assert(g[p] == next[p]);
    assert forall|i: int| in_grid(i) && !is_slot(slots, i) implies #[trigger] g[i] == cells[i] by {
        if is_slot(rest, i) {
            let k = choose|k: int| 0 <= k < rest.len() && #[trigger] slot_index(rest[k]) == i;
            assert(rest[k] == slots[k + 1]);
            assert(slot_index(slots[k + 1]) == i);
            assert(false);
        }
        assert(slot_index(slots[0]) == p);
        assert(i != p);
        assert(g[i] == next[i]);
    }
    assert forall|k: int| 0 <= k < slots.len() implies fits(g, #[trigger] slot_index(slots[k])) by {
        if k == 0 {
            assert forall|q: int| in_grid(q) && q != p && peers(p, q) implies #[trigger] g[q]
                != g[p] by {
                if is_slot(rest, q) {
                    let m = choose|m: int|
                        0 <= m < rest.len() && #[trigger] slot_index(rest[m]) == q;
                    assert(fits(g, slot_index(rest[m])));
                    assert(peers(q, p));
                } else {
                    assert(g[q] == next[q]);
                    assert(cells[q] != v);
                }
            }
        } else {
            assert(rest[k - 1] == slots[k]);
            assert(fits(g, slot_index(rest[k - 1])));
        }
    }
}

/// Grids that agree on the first slot compare over all the slots as they do
/// over the others.
pub proof fn lemma_precedes_extends(slots: Seq<(usize, usize)>, a: Seq<u8>, b: Seq<u8>)
    requires
        slots.len() > 0,
        a[slot_index(slots[0])] == b[slot_index(slots[0])],
        precedes(slots.drop_first(), a, b),
    ensures
        precedes(slots, a, b),
{
    let rest = slots.drop_first();
    if a != b {
        let k = choose|k: int| differs_first_at_slot(rest, a, b, k);
        assert(rest[k] == slots[k + 1]);
        assert forall|j: int| 0 <= j < k + 1 implies a[#[trigger] slot_index(slots[j])]
            == b[slot_index(slots[j])] by {
            if j > 0 {
                assert(rest[j - 1] == slots[j]);
                assert(a[slot_index(rest[j - 1])] == b[slot_index(rest[j - 1])]);
            }
        }
        assert(differs_first_at_slot(slots, a, b, k + 1));
    }
}

/// Of two grids, each no later than the other in the order of a search,
/// there is only one.
pub proof fn lemma_precedes_antisymmetric(slots: Seq<(usize, usize)>, a: Seq<u8>, b: Seq<u8>)
    requires
        precedes(slots, a, b),
        precedes(slots, b, a),
    ensures
        a == b,
{
    if a != b {
        let j = choose|j: int| differs_first_at_slot(slots, a, b, j);
        let k = choose|k: int| differs_first_at_slot(slots, b, a, k);
        if j < k {
            assert(b[slot_index(slots[j])] == a[slot_index(slots[j])]);
        } else if k < j {
            assert(a[slot_index(slots[k])] == b[slot_index(slots[k])]);
        }
    }
}

/// A grid has one list of empty cells.
pub proof fn lemma_empty_slots_unique(
    cells: Seq<u8>,
    first: Seq<(usize, usize)>,
    second: Seq<(usize, usize)>,
)
    requires
        lists_empty_cells(cells, first),
        lists_empty_cells(cells, second),
    ensures
        first == second,
{
    let a = Seq::new(first.len(), |k: int| slot_index(first[k]));
    let b = Seq::new(second.len(), |k: int| slot_index(second[k]));
    assert forall|x: int| a.contains(x) <==> b.contains(x) by {
        if a.contains(x) {
            let k = choose|k: int| 0 <= k < a.len() && a[k] == x;
            lemma_slot_index_injective(first[k], first[k]);
            assert(cells[x] == 0);
            assert(is_slot(second, x));
            let m = choose|m: int| 0 <= m < second.len() && #[trigger] slot_index(second[m]) == x;
            assert(b[m] == x);
        }
        if b.contains(x) {
            let k = choose|k: int| 0 <= k < b.len() && b[k] == x;
            lemma_slot_index_injective(second[k], second[k]);
            assert(cells[x] == 0);
            assert(is_slot(first, x));
            let m = choose|m: int| 0 <= m < first.len() && #[trigger] slot_index(first[m]) == x;
            assert(a[m] == x);
        }
    }
    assert(strictly_ascending(a));
    assert(strictly_ascending(b));
    lemma_ascending_unique(a, b);
    assert(first.len() == second.len());
    assert forall|k: int| 0 <= k < first.len() implies first[k] == second[k] by {
        assert(a[k] == b[k]);
        lemma_slot_index_injective(first[k], second[k]);
    }
    assert(first =~= second);
}

/// The list of the empty cells is a list of open slots.
pub proof fn lemma_listed_slots_are_open(cells: Seq<u8>, slots: Seq<(usize, usize)>)
    requires
        lists_empty_cells(cells, slots),
    ensures
        open_slots(cells, slots),
{
}

/// To fill the empty cells of a grid is to complete it.
pub proof fn lemma_fill_is_completion(cells: Seq<u8>, slots: Seq<(usize, usize)>, g: Seq<u8>)
    requires
        cells.len() == CELLS,
        lists_empty_cells(cells, slots),
    ensures
        is_fill(cells, slots, g) <==> is_completion(cells, g),
{
    if is_fill(cells, slots, g) {
        assert forall|i: int| in_grid(i) implies if cells[i] != 0 {
            #[trigger] g[i] == cells[i]
        } else {
            fits(g, i)
        } by {
            if cells[i] != 0 {
                if is_slot(slots, i) {
                    let k = choose|k: int|
                        0 <= k < slots.len() && #[trigger] slot_index(slots[k]) == i;
                    assert(cells[slot_index(slots[k])] == 0);
                }
            } else {
                let k = choose|k: int| 0 <= k < slots.len() && #[trigger] slot_index(slots[k]) == i;
                assert(fits(g, slot_index(slots[k])));
            }
        }
    }
    if is_completion(cells, g) {
        assert forall|i: int| in_grid(i) && !is_slot(slots, i) implies #[trigger] g[i]
            == cells[i] by {
            assert(cells[i] == cells[i]);
        }
        assert forall|k: int| 0 <= k < slots.len() implies fits(
            g,
            #[trigger] slot_index(slots[k]),
        ) by {
            let i = slot_index(slots[k]);
            lemma_slot_index_injective(slots[k], slots[k]);
            assert(g[i] == g[i]);
        }
    }
}

/// Between completions of one grid, the order of the search over its empty
/// cells is the row-major order of grids.
pub proof fn lemma_search_order_is_lex(
    cells: Seq<u8>,
    slots: Seq<(usize, usize)>,
    a: Seq<u8>,
    b: Seq<u8>,
)
    requires
        cells.len() == CELLS,
        lists_empty_cells(cells, slots),
        is_completion(cells, a),
        is_completion(cells, b),
        precedes(slots, a, b),
    ensures
        lex_le(a, b),
{
    if a != b {
        let k = choose|k: int| differs_first_at_slot(slots, a, b, k);
        let i = slot_index(slots[k]);
        lemma_slot_index_injective(slots[k], slots[k]);
        assert forall|j: int| 0 <= j < i implies #[trigger] a[j] == b[j] by {
            assert(b[j] == b[j]);
            if cells[j] == 0 {
                let m = choose|m: int| 0 <= m < slots.len() && #[trigger] slot_index(slots[m]) == j;
                if m >= k {
                    if m > k {
                        assert(slot_index(slots[k]) < slot_index(slots[m]));
                    }
                    assert(false);
                }
                assert(a[slot_index(slots[m])] == b[slot_index(slots[m])]);
            }
        }
        assert(differs_first_at(a, b, i));
    }
}

} // verus!
