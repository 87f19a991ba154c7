//! The mathematical model of the board: a 9x9 grid of cells, the relation
//! between cells that exclude each other, and what a placement does.

use crate::collection::without_candidate;
use crate::square::{cell_wf, full_set, placed_cell, CellView};
use vstd::prelude::*;

verus! {

/// Nine rows of nine cells.
pub type Grid = Seq<Seq<CellView>>;

/// Whether `(row, col)` names a cell of the grid.
pub open spec fn on_grid(row: int, col: int) -> bool {
    0 <= row < 9 && 0 <= col < 9
}

/// The cell in row `row` and column `col`.
pub open spec fn cell(g: Grid, row: int, col: int) -> CellView {
    g[row][col]
}

/// Whether two cells lie in the same 3x3 block.
pub open spec fn same_block(r1: int, c1: int, r2: int, c2: int) -> bool {
    r1 / 3 == r2 / 3 && c1 / 3 == c2 / 3
}

/// Whether two different cells share a row, a column or a block.
pub open spec fn sees(r1: int, c1: int, r2: int, c2: int) -> bool {
    (r1 != r2 || c1 != c2) && (r1 == r2 || c1 == c2 || same_block(r1, c1, r2, c2))
}

/// The grid has nine rows of nine cells.
pub open spec fn grid_shape(g: Grid) -> bool {
    &&& g.len() == 9
    &&& forall|r: int| 0 <= r < 9 ==> (#[trigger] g[r]).len() == 9
}

/// Every cell is well formed: in particular a cell that holds a value has no
/// candidates.
pub open spec fn cells_wf(g: Grid) -> bool {
    &&& grid_shape(g)
    &&& forall|r: int, c: int| on_grid(r, c) ==> cell_wf(#[trigger] cell(g, r, c))
}

/// No cell has a candidate that a cell it sees already holds.
pub open spec fn candidates_sound(g: Grid) -> bool {
    forall|r: int, c: int, r2: int, c2: int|
        #![trigger cell(g, r, c), cell(g, r2, c2)]
        on_grid(r, c) && on_grid(r2, c2) && sees(r, c, r2, c2) && cell(g, r2, c2).value != 0
            ==> !cell(g, r, c).candidates.contains(cell(g, r2, c2).value)
}

/// No two cells that see each other hold the same value.
pub open spec fn values_distinct(g: Grid) -> bool {
    forall|r: int, c: int, r2: int, c2: int|
        #![trigger cell(g, r, c), cell(g, r2, c2)]
        on_grid(r, c) && on_grid(r2, c2) && sees(r, c, r2, c2) && cell(g, r, c).value != 0
            ==> cell(g, r, c).value != cell(g, r2, c2).value
}

/// What holds of every grid the engine produces.
pub open spec fn grid_wf(g: Grid) -> bool {
    &&& cells_wf(g)
    &&& candidates_sound(g)
    &&& values_distinct(g)
}

/// Whether `value` may be placed at `(row, col)`: the cell is unset and still
/// lists `value` as a candidate.
pub open spec fn may_place(g: Grid, row: int, col: int, value: u32) -> bool {
    cell(g, row, col).value == 0 && cell(g, row, col).candidates.contains(value)
}

/// The grid after `value` was placed at `(row, col)`: that cell holds it, and
/// every cell that sees it has lost it as a candidate.
pub open spec fn grid_place(g: Grid, row: int, col: int, value: u32) -> Grid {
    Seq::new(
        9,
        |r: int|
            Seq::new(
                9,
                |c: int|
                    if r == row && c == col {
                        placed_cell(value)
                    } else if sees(row, col, r, c) {
                        without_candidate(cell(g, r, c), value)
                    } else {
                        cell(g, r, c)
                    },
            ),
    )
}

/// Whether a cell that sees `(row, col)` has `value` as a candidate.
pub open spec fn ripples(g: Grid, row: int, col: int, value: u32) -> bool {
    exists|r: int, c: int|
        on_grid(r, c) && sees(row, col, r, c) && (#[trigger] cell(g, r, c)).candidates.contains(
            value,
        )
}

/// A placement that is allowed keeps the grid well formed.
pub proof fn lemma_place_keeps_wf(g: Grid, row: int, col: int, value: u32)
    requires
        grid_wf(g),
        on_grid(row, col),
        may_place(g, row, col, value),
    ensures
        grid_wf(grid_place(g, row, col, value)),
{
    let h = grid_place(g, row, col, value);
    assert(cell_wf(cell(g, row, col)));
    assert(full_set().contains(value));
    assert forall|r: int, c: int| on_grid(r, c) implies cell_wf(#[trigger] cell(h, r, c)) by {
        assert(cell_wf(cell(g, r, c)));
        if cell(g, r, c).value != 0 {
            assert(cell(g, r, c).candidates.remove(value) =~= Set::<u32>::empty());
        }
    }
    assert forall|r: int, c: int, r2: int, c2: int|
        #![trigger cell(h, r, c), cell(h, r2, c2)]
        on_grid(r, c) && on_grid(r2, c2) && sees(r, c, r2, c2) && cell(h, r2, c2).value
            != 0 implies !cell(h, r, c).candidates.contains(cell(h, r2, c2).value) by {
        if r2 == row && c2 == col {
        } else if r == row && c == col {
        } else {
            assert(cell(g, r2, c2).value == cell(h, r2, c2).value);
            assert(!cell(g, r, c).candidates.contains(cell(g, r2, c2).value));
        }
    }
    assert forall|r: int, c: int, r2: int, c2: int|
        #![trigger cell(h, r, c), cell(h, r2, c2)]
        on_grid(r, c) && on_grid(r2, c2) && sees(r, c, r2, c2) && cell(h, r, c).value
            != 0 implies cell(h, r, c).value != cell(h, r2, c2).value by {
        if r == row && c == col {
            if cell(h, r2, c2).value != 0 {
                assert(cell(g, r2, c2).value == cell(h, r2, c2).value);
                assert(!cell(g, r, c).candidates.contains(cell(g, r2, c2).value));
            }
        } else if r2 == row && c2 == col {
            assert(cell(g, r, c).value == cell(h, r, c).value);
            assert(sees(r2, c2, r, c));
            assert(!cell(g, r2, c2).candidates.contains(cell(g, r, c).value));
        } else {
            assert(cell(g, r, c).value == cell(h, r, c).value);
            assert(cell(g, r2, c2).value == cell(h, r2, c2).value);
        }
    }
}

/// The grid `h` has the values of `g`, and no cell of it has a candidate that
/// it does not have in `g`.
pub open spec fn pruned(g: Grid, h: Grid) -> bool {
    &&& grid_shape(h)
    &&& forall|r: int, c: int|
        on_grid(r, c) ==> (#[trigger] cell(h, r, c)).value == cell(g, r, c).value && cell(
            h,
            r,
            c,
        ).candidates.subset_of(cell(g, r, c).candidates)
}

/// The cell with running number `k`, counted row by row from 0.
pub open spec fn nth_cell(g: Grid, k: int) -> CellView {
    cell(g, k / 9, k % 9)
}

/// How many of the first `k` cells are unset.
pub open spec fn unset_among(g: Grid, k: nat) -> nat
    decreases k,
{
    if k == 0 {
        0
    } else {
        unset_among(g, (k - 1) as nat) + if nth_cell(g, k - 1).value == 0 {
            1nat
        } else {
            0nat
        }
    }
}

/// How many cells of the grid are unset.
pub open spec fn unset_cells(g: Grid) -> nat {
    unset_among(g, 81)
}

/// Whether every cell holds a value.
pub open spec fn all_set(g: Grid) -> bool {
    forall|r: int, c: int| on_grid(r, c) ==> (#[trigger] cell(g, r, c)).value != 0
}

/// The unset cells among the first `k`, as a set of places.
pub open spec fn unset_places(g: Grid, k: int) -> Set<(int, int)> {
    Set::new(
        |at: (int, int)| on_grid(at.0, at.1) && at.0 * 9 + at.1 < k && cell(g, at.0, at.1).value == 0,
    )
}

/// The count of unset cells is the size of the set of unset cells.
pub proof fn lemma_unset_among_is_size(g: Grid, k: nat)
    requires
        k <= 81,
    ensures
        unset_places(g, k as int).finite(),
        unset_among(g, k) == unset_places(g, k as int).len(),
    decreases k,
{
    if k == 0 {
        assert(unset_places(g, 0) =~= Set::<(int, int)>::empty());
    } else {
        lemma_unset_among_is_size(g, (k - 1) as nat);
        let before = unset_places(g, k - 1);
        let at = ((k - 1) / 9, (k - 1) % 9);
        assert(on_grid(at.0, at.1) && at.0 * 9 + at.1 == k - 1);
        if nth_cell(g, k - 1).value == 0 {
            assert(!before.contains(at));
            assert(unset_places(g, k as int) =~= before.insert(at));
        } else {
            assert(unset_places(g, k as int) =~= before);
        }
    }
}

/// Among `k` cells at most `k` are unset.
pub proof fn lemma_unset_among_bound(g: Grid, k: nat)
    ensures
        unset_among(g, k) <= k,
    decreases k,
{
    if k > 0 {
        lemma_unset_among_bound(g, (k - 1) as nat);
    }
}

/// Grids with the same values have the same number of unset cells.
pub proof fn lemma_unset_among_same_values(g: Grid, h: Grid, k: nat)
    requires
        k <= 81,
        forall|r: int, c: int|
            on_grid(r, c) ==> (#[trigger] cell(h, r, c)).value == cell(g, r, c).value,
    ensures
        unset_among(h, k) == unset_among(g, k),
    decreases k,
{
    if k > 0 {
        lemma_unset_among_same_values(g, h, (k - 1) as nat);
        assert(on_grid((k - 1) / 9, (k - 1) % 9));
        assert(cell(h, (k - 1) / 9, (k - 1) % 9).value == cell(g, (k - 1) / 9, (k - 1) % 9).value);
    }
}

/// Giving one unset cell a value lowers the number of unset cells by one.
pub proof fn lemma_unset_among_after_fill(g: Grid, h: Grid, row: int, col: int, k: nat)
    requires
        k <= 81,
        on_grid(row, col),
        cell(g, row, col).value == 0,
        cell(h, row, col).value != 0,
        forall|r: int, c: int|
            on_grid(r, c) && !(r == row && c == col) ==> (#[trigger] cell(h, r, c)).value == cell(
                g,
                r,
                c,
            ).value,
    ensures
        unset_among(g, k) == unset_among(h, k) + if row * 9 + col < k {
            1nat
        } else {
            0nat
        },
    decreases k,
{
    if k > 0 {
        lemma_unset_among_after_fill(g, h, row, col, (k - 1) as nat);
        let r = (k - 1) / 9;
        let c = (k - 1) % 9;
        assert(on_grid(r, c));
        if r == row && c == col {
            assert(row * 9 + col == k - 1);
        } else {
            assert(row * 9 + col != k - 1);
            assert(cell(h, r, c).value == cell(g, r, c).value);
        }
    }
}

/// No cell is unset among the first `k` exactly if the count says so.
pub proof fn lemma_unset_among_zero(g: Grid, k: nat)
    requires
        k <= 81,
    ensures
        unset_among(g, k) == 0 <==> forall|j: int| 0 <= j < k ==> (#[trigger] nth_cell(g, j)).value != 0,
    decreases k,
{
    if k > 0 {
        lemma_unset_among_zero(g, (k - 1) as nat);
        if unset_among(g, k) == 0 {
            assert forall|j: int| 0 <= j < k implies (#[trigger] nth_cell(g, j)).value != 0 by {
                if j < k - 1 {
                    assert(nth_cell(g, j).value != 0);
                }
            }
        }
        if forall|j: int| 0 <= j < k ==> (#[trigger] nth_cell(g, j)).value != 0 {
            assert(nth_cell(g, k - 1).value != 0);
        }
    }
}

/// The count of unset cells is 0 exactly if every cell holds a value.
pub proof fn lemma_unset_cells_zero(g: Grid)
    ensures
        unset_cells(g) == 0 <==> all_set(g),
        unset_cells(g) <= 81,
{
    lemma_unset_among_zero(g, 81);
    lemma_unset_among_bound(g, 81);
    if all_set(g) {
        assert forall|j: int| 0 <= j < 81 implies (#[trigger] nth_cell(g, j)).value != 0 by {
            assert(on_grid(j / 9, j % 9));
            assert(cell(g, j / 9, j % 9).value != 0);
        }
    }
    if unset_cells(g) == 0 {
        assert forall|r: int, c: int| on_grid(r, c) implies (#[trigger] cell(g, r, c)).value
            != 0 by {
            let j = r * 9 + c;
            assert(j / 9 == r && j % 9 == c);
            assert(nth_cell(g, j).value != 0);
        }
    }
}

/// In a grid without values all 81 cells are unset.
pub proof fn lemma_unset_among_blank(g: Grid, k: nat)
    requires
        k <= 81,
        forall|r: int, c: int| on_grid(r, c) ==> (#[trigger] cell(g, r, c)).value == 0,
    ensures
        unset_among(g, k) == k,
    decreases k,
{
    if k > 0 {
        lemma_unset_among_blank(g, (k - 1) as nat);
        assert(on_grid((k - 1) / 9, (k - 1) % 9));
        assert(cell(g, (k - 1) / 9, (k - 1) % 9).value == 0);
    }
}

/// Pruning candidates keeps a grid well formed and its unset cells unset.
pub proof fn lemma_pruned_keeps_wf(g: Grid, h: Grid)
    requires
        grid_wf(g),
        pruned(g, h),
    ensures
        grid_wf(h),
        unset_cells(h) == unset_cells(g),
{
    lemma_unset_among_same_values(g, h, 81);
    assert forall|r: int, c: int| on_grid(r, c) implies cell_wf(#[trigger] cell(h, r, c)) by {
        assert(cell_wf(cell(g, r, c)));
        if cell(g, r, c).value != 0 {
            assert(cell(h, r, c).candidates =~= Set::<u32>::empty());
        }
    }
    assert forall|r: int, c: int, r2: int, c2: int|
        #![trigger cell(h, r, c), cell(h, r2, c2)]
        on_grid(r, c) && on_grid(r2, c2) && sees(r, c, r2, c2) && cell(h, r2, c2).value
            != 0 implies !cell(h, r, c).candidates.contains(cell(h, r2, c2).value) by {
        assert(cell(g, r2, c2).value == cell(h, r2, c2).value);
        assert(!cell(g, r, c).candidates.contains(cell(g, r2, c2).value));
    }
    assert forall|r: int, c: int, r2: int, c2: int|
        #![trigger cell(h, r, c), cell(h, r2, c2)]
        on_grid(r, c) && on_grid(r2, c2) && sees(r, c, r2, c2) && cell(h, r, c).value
            != 0 implies cell(h, r, c).value != cell(h, r2, c2).value by {
        assert(cell(g, r, c).value == cell(h, r, c).value);
        assert(cell(g, r2, c2).value == cell(h, r2, c2).value);
    }
}

/// No cell of `h` has a candidate that it does not have in `g`.
pub open spec fn shrinks(g: Grid, h: Grid) -> bool {
    &&& grid_shape(h)
    &&& forall|r: int, c: int|
        on_grid(r, c) ==> (#[trigger] cell(h, r, c)).candidates.subset_of(cell(g, r, c).candidates)
}

/// Whether the pair with running number `p` is a candidate: the pairs of a
/// cell and a numeral are counted cell by cell, and within a cell from 1 to 9.
pub open spec fn nth_pair_listed(g: Grid, p: int) -> bool {
    nth_cell(g, p / 9).candidates.contains((p % 9 + 1) as u32)
}

/// How many of the first `k` pairs of a cell and a numeral are candidates.
pub open spec fn candidates_among(g: Grid, k: nat) -> nat
    decreases k,
{
    if k == 0 {
        0
    } else {
        candidates_among(g, (k - 1) as nat) + if nth_pair_listed(g, k - 1) {
            1nat
        } else {
            0nat
        }
    }
}

/// How many candidates the cells of the grid have in all.
pub open spec fn candidate_count(g: Grid) -> nat {
    candidates_among(g, 729)
}

/// A grid that lost candidates, and at `(row, col)` the numeral `value`, has
/// fewer candidates in all.
pub proof fn lemma_candidates_among_lost(g: Grid, h: Grid, row: int, col: int, value: u32, k: nat)
    requires
        k <= 729,
        shrinks(g, h),
        on_grid(row, col),
        1 <= value <= 9,
        cell(g, row, col).candidates.contains(value),
        !cell(h, row, col).candidates.contains(value),
    ensures
        candidates_among(h, k) + (if (row * 9 + col) * 9 + value - 1 < k {
            1nat
        } else {
            0nat
        }) <= candidates_among(g, k),
    decreases k,
{
    if k > 0 {
        lemma_candidates_among_lost(g, h, row, col, value, (k - 1) as nat);
        let p = k - 1;
        let r = (p / 9) / 9;
        let c = (p / 9) % 9;
        assert(on_grid(r, c));
        assert(cell(h, r, c).candidates.subset_of(cell(g, r, c).candidates));
        if p == (row * 9 + col) * 9 + value - 1 {
            assert(p / 9 == row * 9 + col);
            assert(p % 9 + 1 == value);
            assert(r == row && c == col);
        }
    }
}

/// A grid that lost candidates has no more candidates in all.
pub proof fn lemma_candidates_among_shrinks(g: Grid, h: Grid, k: nat)
    requires
        k <= 729,
        shrinks(g, h),
    ensures
        candidates_among(h, k) <= candidates_among(g, k),
    decreases k,
{
    if k > 0 {
        lemma_candidates_among_shrinks(g, h, (k - 1) as nat);
        let p = k - 1;
        assert(on_grid((p / 9) / 9, (p / 9) % 9));
        assert(cell(h, (p / 9) / 9, (p / 9) % 9).candidates.subset_of(
            cell(g, (p / 9) / 9, (p / 9) % 9).candidates,
        ));
    }
}

/// A placement that is allowed takes candidates away, among them the placed
/// numeral at its cell.
pub proof fn lemma_place_shrinks(g: Grid, row: int, col: int, value: u32)
    requires
        cells_wf(g),
        on_grid(row, col),
        may_place(g, row, col, value),
    ensures
        shrinks(g, grid_place(g, row, col, value)),
        candidate_count(grid_place(g, row, col, value)) < candidate_count(g),
{
    let h = grid_place(g, row, col, value);
    assert(cell_wf(cell(g, row, col)));
    assert(full_set().contains(value));
    assert forall|r: int, c: int| on_grid(r, c) implies (#[trigger] cell(
        h,
        r,
        c,
    )).candidates.subset_of(cell(g, r, c).candidates) by {}
    lemma_candidates_among_lost(g, h, row, col, value, 729);
}

} // verus!
