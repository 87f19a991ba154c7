//! The board: 81 cells, the count of those still unset, placement, and the
//! deduction rules.

use crate::collection::{group_place, without_candidate, without_candidates, Collection, SquareOp};
use crate::grid::{
    all_set, candidate_count, cell, cells_wf, grid_place, grid_shape, grid_wf, lemma_place_keeps_wf,
    lemma_pruned_keeps_wf, lemma_unset_among_after_fill, lemma_unset_among_blank,
    lemma_unset_among_is_size, lemma_unset_cells_zero, may_place, on_grid, ripples, same_block,
    sees, unset_cells, unset_places, Grid,
};
use crate::rules::{
    alone_in_col, alone_in_cube, alone_in_row, and_then, first_only_place, fixpoint,
    group_eliminated, group_lists_elsewhere, group_lists_only_at, hidden_single_step, in_group,
    lemma_first_only_place_found, lemma_first_only_place_none, lemma_fixpoint_sound,
    lemma_pass_ends_at_contradiction, lemma_pass_upto_sound, member, naked_nple_step,
    naked_single_step, only_place, pass, pass_upto, rule_step, slot, stuck, tuple_pruned,
    tuple_prunes, tuple_step, twin, twins_among, untouched, Contradiction, Group, Outcome, Rule,
};
use crate::square::{blank_cell, cell_wf, full_set, numerals_upto};
use vstd::prelude::*;

verus! {

/// Why a value could not be placed.
#[derive(Clone, Copy, Debug, PartialEq, Eq, Structural)]
pub enum PlaceError {
    /// The value is not one of 1 to 9.
    NotANumeral,
    /// The cell already holds a value.
    Occupied,
    /// The value is not among the candidates of the cell.
    NotPossible,
}

/// The grid with `value` removed from the candidates of every cell in
/// column `col`.
pub open spec fn column_without(g: Grid, col: int, value: u32) -> Grid {
    Seq::new(
        9,
        |r: int|
            Seq::new(
                9,
                |c: int|
                    if c == col {
                        without_candidate(cell(g, r, c), value)
                    } else {
                        cell(g, r, c)
                    },
            ),
    )
}

/// Whether a cell in column `col` has `value` as a candidate.
pub open spec fn column_lists(g: Grid, col: int, value: u32) -> bool {
    exists|r: int| 0 <= r < 9 && (#[trigger] cell(g, r, col)).candidates.contains(value)
}

/// The grid with `value` removed from the candidates of every cell in the
/// block of `(row, col)`.
pub open spec fn block_without(g: Grid, row: int, col: int, value: u32) -> Grid {
    Seq::new(
        9,
        |r: int|
            Seq::new(
                9,
                |c: int|
                    if same_block(row, col, r, c) {
                        without_candidate(cell(g, r, c), value)
                    } else {
                        cell(g, r, c)
                    },
            ),
    )
}

/// Whether a cell in the block of `(row, col)` has `value` as a candidate.
pub open spec fn block_lists(g: Grid, row: int, col: int, value: u32) -> bool {
    exists|r: int, c: int|
        on_grid(r, c) && same_block(row, col, r, c) && (#[trigger] cell(
            g,
            r,
            c,
        )).candidates.contains(value)
}

/// The grid in which nothing is placed.
pub open spec fn blank_grid() -> Grid {
    Seq::new(9, |r: int| Seq::new(9, |c: int| blank_cell()))
}

/// The blank grid is well formed, and all its 81 cells are unset.
pub proof fn lemma_blank_grid()
    ensures
        grid_wf(blank_grid()),
        unset_cells(blank_grid()) == 81,
{
    let g = blank_grid();
    assert forall|r: int, c: int| on_grid(r, c) implies cell_wf(#[trigger] cell(g, r, c)) by {}
    lemma_unset_among_blank(g, 81);
}

/// What placing `value` at `(row, col)` answers: the reason why it is
/// refused, or whether a cell that sees `(row, col)` loses a candidate.
pub open spec fn place_answer(g: Grid, row: int, col: int, value: u32) -> Result<bool, PlaceError> {
    if !(1 <= value <= 9) {
        Err(PlaceError::NotANumeral)
    } else if cell(g, row, col).value != 0 {
        Err(PlaceError::Occupied)
    } else if !cell(g, row, col).candidates.contains(value) {
        Err(PlaceError::NotPossible)
    } else {
        Ok(ripples(g, row, col, value))
    }
}

/// The grid after an attempt to place `value` at `(row, col)`: a refused
/// placement changes nothing.
pub open spec fn place_grid(g: Grid, row: int, col: int, value: u32) -> Grid {
    if place_answer(g, row, col, value) is Ok {
        grid_place(g, row, col, value)
    } else {
        g
    }
}

/// A placement is accepted exactly where the cell is unset and lists the
/// value as a candidate.
pub proof fn lemma_place_answer(g: Grid, row: int, col: int, value: u32)
    requires
        cells_wf(g),
        on_grid(row, col),
    ensures
        place_answer(g, row, col, value) is Ok <==> may_place(g, row, col, value),
{
    assert(cell_wf(cell(g, row, col)));
    if cell(g, row, col).candidates.contains(value) {
        assert(full_set().contains(value));
    }
}

/// Placing a value where one was just placed is refused, whatever the value.
pub proof fn lemma_second_placement_refused(g: Grid, row: int, col: int, value: u32, again: u32)
    requires
        cells_wf(g),
        on_grid(row, col),
        place_answer(g, row, col, value) is Ok,
    ensures
        place_answer(place_grid(g, row, col, value), row, col, again) is Err,
        place_grid(place_grid(g, row, col, value), row, col, again) == place_grid(
            g,
            row,
            col,
            value,
        ),
{
}

/// The 81 cells, row by row, and the count of those without a value.
pub struct Board {
    rows: [Collection; 9],
    unsolved_squares: u32,
}

impl View for Board {
    type V = Grid;

    closed spec fn view(&self) -> Grid {
        Seq::new(9, |r: int| self.rows[r]@)
    }
}

impl Board {
    /// The representation of every cell is sound.
    pub closed spec fn repr_ok(self) -> bool {
        forall|r: int| 0 <= r < 9 ==> (#[trigger] self.rows[r]).wf()
    }

    /// The running count of unset cells.
    pub closed spec fn unsolved(self) -> nat {
        self.unsolved_squares as nat
    }

    /// The board's invariant: the grid is well formed, and the running count
    /// is the number of cells without a value.
    pub open spec fn wf(self) -> bool {
        &&& self.repr_ok()
        &&& grid_wf(self@)
        &&& self.unsolved() == unset_cells(self@)
    }

    /// A sound representation shows a grid of well-formed cells.
    pub proof fn lemma_repr_ok(self)
        requires
            self.repr_ok(),
        ensures
            cells_wf(self@),
    {
        assert forall|r: int, c: int| on_grid(r, c) implies cell_wf(#[trigger] cell(self@, r, c)) by {
            assert(self.rows[r].wf());
            assert(self.rows[r].squares[c].wf());
        }
    }

    /// On a well-formed board a cell never has both a value and candidates:
    /// a cell that holds a value has none. An unset cell without candidates
    /// is the one contradiction that can occur.
    pub proof fn lemma_value_or_candidates(self, row: int, col: int)
        requires
            self.wf(),
            on_grid(row, col),
        ensures
            cell(self@, row, col).value == 0 || cell(self@, row, col).candidates == Set::<
                u32,
            >::empty(),
            cell(self@, row, col).value <= 9,
            cell(self@, row, col).candidates.subset_of(full_set()),
    {
        assert(cell_wf(cell(self@, row, col)));
    }

    /// On a well-formed board the running count is the number of cells
    /// without a value.
    pub proof fn lemma_unsolved_counts_unset(self)
        requires
            self.wf(),
        ensures
            self.unsolved() == unset_cells(self@),
            self.unsolved() == unset_places(self@, 81).len(),
            self.unsolved() <= 81,
    {
        lemma_unset_among_is_size(self@, 81);
        lemma_unset_cells_zero(self@);
    }

    /// The board on which nothing is placed.
    pub fn default() -> (r: Board)
        ensures
            r.wf(),
            r@ == blank_grid(),
            r.unsolved() == 81,
    {
        let r = Board { rows: [Collection::default();9], unsolved_squares: 81 };
        proof {
            assert forall|i: int| 0 <= i < 9 implies #[trigger] r@[i] == blank_grid()[i] by {
                assert(r@[i] == r.rows[i]@);
                assert(r.rows[i]@ =~= blank_grid()[i]);
            }
            assert(r@ =~= blank_grid());
            lemma_blank_grid();
        }
        r
    }

    /// Removes `value` from the candidates of every cell in column
    /// `col_index` and reports whether one of them lost it.
    pub fn col_iter_mut(&mut self, col_index: usize, value: u32) -> (change_made: bool)
        requires
            old(self).repr_ok(),
            col_index < 9,
        ensures
            final(self).repr_ok(),
            final(self).unsolved() == old(self).unsolved(),
            final(self)@ == column_without(old(self)@, col_index as int, value),
            change_made == column_lists(old(self)@, col_index as int, value),
            old(self).wf() ==> final(self).wf(),
    {
        let mut change_made = false;
        let mut row_index: usize = 0;
        while row_index < 9
            invariant
                row_index <= 9,
                col_index < 9,
                self.repr_ok(),
                self.unsolved_squares == old(self).unsolved_squares,
                forall|r: int|
                    0 <= r < row_index ==> (#[trigger] self.rows[r])@ == old(self).rows[r]@.update(
                        col_index as int,
                        without_candidate(old(self).rows[r]@[col_index as int], value),
                    ),
                forall|r: int| row_index <= r < 9 ==> (#[trigger] self.rows[r]) == old(self).rows[r],
                change_made == exists|r: int|
                    0 <= r < row_index && (#[trigger] cell(
                        old(self)@,
                        r,
                        col_index as int,
                    )).candidates.contains(value),
            decreases 9 - row_index,
        {
            let changed = self.rows[row_index].alter_square(
                col_index,
                value,
                SquareOp::RemovePossibility,
            );
            proof {
                let before = cell(old(self)@, row_index as int, col_index as int);
                assert(before == old(self).rows[row_index as int]@[col_index as int]);
            }
            change_made = changed || change_made;
            row_index += 1;
        }
        proof {
            let g = old(self)@;
            let h = column_without(g, col_index as int, value);
            assert forall|r: int| 0 <= r < 9 implies #[trigger] self@[r] == h[r] by {
                assert(self@[r] == self.rows[r]@);
                assert(self.rows[r]@ =~= h[r]);
            }
            assert(self@ =~= h);
            if old(self).wf() {
                lemma_pruned_keeps_wf(g, h);
            }
        }
        change_made
    }

    /// Removes `value` from the candidates of every cell in the block of
    /// `(row_index, col_index)` and reports whether one of them lost it.
    pub fn cube_iter_mut(&mut self, row_index: usize, col_index: usize, value: u32) -> (change_made:
        bool)
        requires
            old(self).repr_ok(),
            row_index < 9,
            col_index < 9,
        ensures
            final(self).repr_ok(),
            final(self).unsolved() == old(self).unsolved(),
            final(self)@ == block_without(old(self)@, row_index as int, col_index as int, value),
            change_made == block_lists(old(self)@, row_index as int, col_index as int, value),
            old(self).wf() ==> final(self).wf(),
    {
        let row_floor = (row_index / 3) * 3;
        let col_floor = (col_index / 3) * 3;

        let mut change_made = false;
        let mut k: usize = 0;
        while k < 9
            invariant
                k <= 9,
                row_index < 9,
                col_index < 9,
                row_floor == (row_index / 3) * 3,
                col_floor == (col_index / 3) * 3,
                self.repr_ok(),
                self.unsolved_squares == old(self).unsolved_squares,
                grid_shape(self@),
                forall|r: int, c: int|
                    on_grid(r, c) ==> #[trigger] cell(self@, r, c) == if same_block(
                        row_index as int,
                        col_index as int,
                        r,
                        c,
                    ) && (r - row_floor) * 3 + (c - col_floor) < k {
                        without_candidate(cell(old(self)@, r, c), value)
                    } else {
                        cell(old(self)@, r, c)
                    },
                change_made == exists|r: int, c: int|
                    on_grid(r, c) && same_block(row_index as int, col_index as int, r, c) && (r
                        - row_floor) * 3 + (c - col_floor) < k && (#[trigger] cell(
                        old(self)@,
                        r,
                        c,
                    )).candidates.contains(value),
            decreases 9 - k,
        {
            let internal_row_index = row_floor + k / 3;
            let internal_col_index = col_floor + k % 3;
            let ghost before_grid = self@;
            let changed = self.rows[internal_row_index].alter_square(
                internal_col_index,
                value,
                SquareOp::RemovePossibility,
            );
            proof {
                let ir = internal_row_index as int;
                let ic = internal_col_index as int;
                let before = cell(old(self)@, ir, ic);
                assert(cell(before_grid, ir, ic) == before);
                assert forall|r: int, c: int| on_grid(r, c) implies #[trigger] cell(self@, r, c)
                    == if r == ir && c == ic {
                    without_candidate(before, value)
                } else {
                    cell(before_grid, r, c)
                } by {
                    assert(self@[r] == self.rows[r]@);
                }
            }
            change_made = changed || change_made;
            k += 1;
        }
        proof {
            let g = old(self)@;
            let h = block_without(g, row_index as int, col_index as int, value);
            assert forall|r: int| 0 <= r < 9 implies #[trigger] self@[r] == h[r] by {
                assert forall|c: int| 0 <= c < 9 implies #[trigger] self@[r][c] == h[r][c] by {
                    assert(cell(self@, r, c) == cell(h, r, c));
                }
                assert(self@[r] =~= h[r]);
            }
            assert(self@ =~= h);
            if old(self).wf() {
                lemma_pruned_keeps_wf(g, h);
            }
        }
        change_made
    }

    /// Places `value` at `(row_index, col_index)`: the cell holds it from
    /// then on, every cell in the same row, column or block loses it as a
    /// candidate, and one cell less is unset. The answer says whether one of
    /// those cells lost a candidate. A value that is no numeral, a cell that
    /// is taken, or a value that the cell does not list is refused, and the
    /// board stays as it was.
    pub fn set_square(&mut self, row_index: usize, col_index: usize, value: u32) -> (r: Result<
        bool,
        PlaceError,
    >)
        requires
            old(self).wf(),
            row_index < 9,
            col_index < 9,
        ensures
            final(self).wf(),
            r == place_answer(old(self)@, row_index as int, col_index as int, value),
            final(self)@ == place_grid(old(self)@, row_index as int, col_index as int, value),
            r is Ok ==> final(self).unsolved() + 1 == old(self).unsolved(),
            r is Err ==> final(self).unsolved() == old(self).unsolved(),
    {
        if value < 1 || value > 9 {
            return Err(PlaceError::NotANumeral);
        }
        if !self.rows[row_index].square_empty(col_index) {
            return Err(PlaceError::Occupied);
        }
        let mut square = self.rows[row_index].squares[col_index];
        if !square.number_possible(value) {
            return Err(PlaceError::NotPossible);
        }
        Ok(self.place_unchecked(row_index, col_index, value))
    }

    /// The placement itself, for a value that the unset cell lists.
    fn place_unchecked(&mut self, row_index: usize, col_index: usize, value: u32) -> (r: bool)
        requires
            old(self).wf(),
            row_index < 9,
            col_index < 9,
            may_place(old(self)@, row_index as int, col_index as int, value),
        ensures
            final(self).wf(),
            r == ripples(old(self)@, row_index as int, col_index as int, value),
            final(self)@ == grid_place(old(self)@, row_index as int, col_index as int, value),
            final(self).unsolved() + 1 == old(self).unsolved(),
    {
        let ghost g = self@;
        let ghost row = row_index as int;
        let ghost col = col_index as int;
        proof {
            self.lemma_repr_ok();
            assert(cell_wf(cell(g, row, col)));
            assert(full_set().contains(value));
        }
        //this will automatically remove the possiblity from the row, but we also need to do column and cube
        let row_changed = self.rows[row_index].set_square(col_index, value);
        let ghost g1 = self@;
        let col_changed = self.col_iter_mut(col_index, value);
        let ghost g2 = self@;
        let cube_changed = self.cube_iter_mut(row_index, col_index, value);
        proof {
            let h = grid_place(g, row, col, value);
            assert(g1[row] == group_place(g[row], col, value));
            assert forall|r: int, c: int| on_grid(r, c) implies #[trigger] cell(g1, r, c) == if r
                == row {
                group_place(g[row], col, value)[c]
            } else {
                cell(g, r, c)
            } by {}
            assert forall|r: int| 0 <= r < 9 implies #[trigger] self@[r] == h[r] by {
                assert forall|c: int| 0 <= c < 9 implies #[trigger] self@[r][c] == h[r][c] by {
                    assert(cell_wf(cell(g, r, c)));
                    assert(cell(self@, r, c).value == cell(h, r, c).value);
                    assert(cell(self@, r, c).candidates =~= cell(h, r, c).candidates);
                }
                assert(self@[r] =~= h[r]);
            }
            assert(self@ =~= h);
            lemma_place_keeps_wf(g, row, col, value);
            lemma_unset_among_after_fill(g, h, row, col, 81);
            // the three answers together say whether a cell that sees this one lost a candidate
            if row_changed {
                let i = choose|i: int|
                    0 <= i < 9 && i != col && (#[trigger] g[row][i]).candidates.contains(value);
                assert(cell(g, row, i).candidates.contains(value));
                assert(sees(row, col, row, i));
            }
            if col_changed {
                let r = choose|r: int|
                    0 <= r < 9 && (#[trigger] cell(g1, r, col)).candidates.contains(value);
                assert(r != row);
                assert(cell(g, r, col).candidates.contains(value));
                assert(sees(row, col, r, col));
            }
            if cube_changed {
                let (r, c) = choose|r: int, c: int|
                    on_grid(r, c) && same_block(row, col, r, c) && (#[trigger] cell(
                        g2,
                        r,
                        c,
                    )).candidates.contains(value);
                assert(cell(g1, r, c).candidates.contains(value));
                assert(cell(g, r, c).candidates.contains(value));
                assert(sees(row, col, r, c));
            }
            if ripples(g, row, col, value) {
                let (r, c) = choose|r: int, c: int|
                    on_grid(r, c) && sees(row, col, r, c) && (#[trigger] cell(
                        g,
                        r,
                        c,
                    )).candidates.contains(value);
                if r == row {
                    assert(g[row][c].candidates.contains(value));
                    assert(row_changed);
                } else if c == col {
                    assert(cell(g1, r, col).candidates.contains(value));
                    assert(col_changed);
                } else {
                    assert(cell(g1, r, c).candidates.contains(value));
                    assert(cell(g2, r, c).candidates.contains(value));
                    assert(cube_changed);
                }
            }
        }
        self.unsolved_squares -= 1;
        row_changed || col_changed || cube_changed
    }

    /// Takes every value off the board again.
    pub fn clear_squares(&mut self)
        requires
            old(self).repr_ok(),
        ensures
            final(self).wf(),
            final(self)@ == blank_grid(),
            final(self).unsolved() == 81,
    {
        let mut row_index: usize = 0;
        while row_index < 9
            invariant
                row_index <= 9,
                self.repr_ok(),
                forall|r: int, c: int|
                    0 <= r < row_index && 0 <= c < 9 ==> #[trigger] cell(self@, r, c)
                        == blank_cell(),
            decreases 9 - row_index,
        {
            let mut col_index: usize = 0;
            while col_index < 9
                invariant
                    row_index < 9,
                    col_index <= 9,
                    self.repr_ok(),
                    forall|r: int, c: int|
                        0 <= r < row_index && 0 <= c < 9 ==> #[trigger] cell(self@, r, c)
                            == blank_cell(),
                    forall|c: int|
                        0 <= c < col_index ==> #[trigger] cell(self@, row_index as int, c)
                            == blank_cell(),
                decreases 9 - col_index,
            {
                let ghost before = self@;
                self.rows[row_index].set_square(col_index, 0);
                proof {
                    assert forall|r: int, c: int|
                        0 <= r < row_index && 0 <= c < 9 implies #[trigger] cell(self@, r, c)
                        == blank_cell() by {
                        assert(cell(before, r, c) == blank_cell());
                    }
                    assert forall|c: int| 0 <= c < col_index + 1 implies #[trigger] cell(
                        self@,
                        row_index as int,
                        c,
                    ) == blank_cell() by {
                        if c < col_index {
                            assert(cell(before, row_index as int, c) == blank_cell());
                            assert(full_set().remove(0) =~= full_set());
                        }
                    }
                }
                col_index += 1;
            }
            row_index += 1;
        }

        let ghost cleared = self@;
        self.unsolved_squares = 81;
        proof {
            assert(self@ =~= cleared);
            assert forall|r: int| 0 <= r < 9 implies #[trigger] self@[r] == blank_grid()[r] by {
                assert forall|c: int| 0 <= c < 9 implies #[trigger] self@[r][c] == blank_grid()[r][c] by {
                    assert(cell(self@, r, c) == blank_cell());
                }
                assert(self@[r] =~= blank_grid()[r]);
            }
            assert(self@ =~= blank_grid());
            lemma_blank_grid();
        }
    }

    /// Whether the cell at `(row_index, col_index)` is unset.
    pub fn square_empty(&self, row_index: usize, col_index: usize) -> (r: bool)
        requires
            row_index < 9,
            col_index < 9,
        ensures
            r == (cell(self@, row_index as int, col_index as int).value == 0),
    {
        self.rows[row_index].square_empty(col_index)
    }

    /// Whether every cell holds a value.
    pub fn self_solved(&self) -> (r: bool)
        requires
            self.wf(),
        ensures
            r == all_set(self@),
            r == (self.unsolved() == 0),
    {
        proof {
            lemma_unset_cells_zero(self@);
        }
        self.unsolved_squares == 0
    }

    /// How many cells are unset.
    pub fn unsolved_count(&self) -> (r: u32)
        requires
            self.wf(),
        ensures
            r == unset_cells(self@),
            r == self.unsolved(),
            r <= 81,
    {
        proof {
            lemma_unset_cells_zero(self@);
        }
        self.unsolved_squares
    }

    /// The candidates of the cell at `(row_index, col_index)` in ascending
    /// order, none for a cell that holds a value.
    pub fn candidates_at(&self, row_index: usize, col_index: usize) -> (r: Vec<u32>)
        requires
            self.repr_ok(),
            row_index < 9,
            col_index < 9,
        ensures
            r@ == numerals_upto(cell(self@, row_index as int, col_index as int).candidates, 9),
            r@.len() == cell(self@, row_index as int, col_index as int).candidates.len(),
            forall|n: u32|
                #[trigger] r@.contains(n) <==> cell(
                    self@,
                    row_index as int,
                    col_index as int,
                ).candidates.contains(n),
            forall|i: int, j: int| 0 <= i < j < r@.len() ==> #[trigger] r@[i] < #[trigger] r@[j],
    {
        self.rows[row_index].get_possible_numbers(col_index)
    }

    /// The value at `(row_index, col_index)`, 0 where the cell is unset.
    pub fn value_at(&self, row_index: usize, col_index: usize) -> (r: u32)
        requires
            row_index < 9,
            col_index < 9,
        ensures
            r == cell(self@, row_index as int, col_index as int).value,
    {
        self.rows[row_index].squares[col_index].get_value()
    }

    /// The candidates of the cell at `(row_index, col_index)` in ascending
    /// order. An unset cell without candidates is a contradiction.
    pub fn get_possible_numbers(&self, row_index: usize, col_index: usize) -> (r: Result<
        Vec<u32>,
        Contradiction,
    >)
        requires
            self.repr_ok(),
            row_index < 9,
            col_index < 9,
        ensures
            r is Err <==> stuck(self@, row_index as int, col_index as int),
            r matches Err(why) ==> why == Contradiction::NoCandidates,
            r matches Ok(numbers) ==> {
                let candidates = cell(self@, row_index as int, col_index as int).candidates;
                &&& numbers@ == numerals_upto(candidates, 9)
                &&& numbers@.len() == candidates.len()
                &&& forall|n: u32| #[trigger] numbers@.contains(n) <==> candidates.contains(n)
                &&& forall|i: int, j: int|
                    0 <= i < j < numbers@.len() ==> #[trigger] numbers@[i] < #[trigger] numbers@[j]
            },
    {
        let row_possibles = self.rows[row_index].get_possible_numbers(col_index);
        let possibles = row_possibles;
        let ghost candidates = cell(self@, row_index as int, col_index as int).candidates;
        if possibles.len() == 0 && self.rows[row_index].square_empty(col_index) {
            proof {
                assert forall|n: u32| !candidates.contains(n) by {
                    assert(!possibles@.contains(n));
                }
                assert(candidates =~= Set::<u32>::empty());
            }
            return Err(Contradiction::NoCandidates);
        }
        proof {
            if possibles.len() != 0 {
                assert(possibles@.contains(possibles@[0]));
                assert(candidates.contains(possibles@[0]));
            }
        }
        Ok(possibles)
    }

    /// Naked single: if the cell is unset and has exactly one candidate, that
    /// numeral is placed there. The answer says whether it was.
    pub fn naked_single(board: &mut Board, row_index: usize, col_index: usize) -> (r: Result<
        bool,
        Contradiction,
    >)
        requires
            old(board).wf(),
            row_index < 9,
            col_index < 9,
        ensures
            final(board).wf(),
            final(board)@ == naked_single_step(old(board)@, row_index as int, col_index as int).grid,
            r == naked_single_step(old(board)@, row_index as int, col_index as int).answer,
    {
        let mut change_occured = false;
        if !board.square_empty(row_index, col_index) {
            return Ok(false);
        }
        let possible_numbers = match board.get_possible_numbers(row_index, col_index) {
            Ok(numbers) => numbers,
            Err(why) => {
                return Err(why);
            },
        };
        if possible_numbers.len() == 1 {
            // oh look, only one number could possibly go there.
            let singlet = possible_numbers[0];
            proof {
                let candidates = cell(board@, row_index as int, col_index as int).candidates;
                assert(possible_numbers@.contains(singlet));
                assert(candidates.contains(candidates.choose()));
                assert(possible_numbers@.contains(candidates.choose()));
            }
            board.place_unchecked(row_index, col_index, singlet);
            change_occured = true;
        }
        Ok(change_occured)
    }

    /// Whether no other cell of the row has `number` as a candidate.
    pub fn number_fits_here_in_row(&mut self, row_index: usize, col_index: usize, number: u32) -> (r:
        bool)
        requires
            row_index < 9,
            col_index < 9,
        ensures
            *final(self) == *old(self),
            r == alone_in_row(old(self)@, row_index as int, col_index as int, number),
    {
        let mut index: usize = 0;
        while index < 9
            invariant
                index <= 9,
                row_index < 9,
                *self == *old(self),
                forall|c: int|
                    0 <= c < index && c != col_index ==> !(#[trigger] cell(
                        self@,
                        row_index as int,
                        c,
                    )).candidates.contains(number),
            decreases 9 - index,
        {
            if index != col_index {
                // we only care if it's a DIFFERENT square
                let mut square = self.rows[row_index].squares[index];
                if square.number_possible(number) {
                    assert(cell(self@, row_index as int, index as int).candidates.contains(number));
                    return false;
                }
            }
            index += 1;
        }
        return true;
    }

    /// Whether no other cell of the column has `number` as a candidate.
    pub fn number_fits_here_in_col(&mut self, row_index: usize, col_index: usize, number: u32) -> (r:
        bool)
        requires
            row_index < 9,
            col_index < 9,
        ensures
            *final(self) == *old(self),
            r == alone_in_col(old(self)@, row_index as int, col_index as int, number),
    {
        let mut index: usize = 0;
        while index < 9
            invariant
                index <= 9,
                col_index < 9,
                *self == *old(self),
                forall|r: int|
                    0 <= r < index && r != row_index ==> !(#[trigger] cell(
                        self@,
                        r,
                        col_index as int,
                    )).candidates.contains(number),
            decreases 9 - index,
        {
            if index != row_index {
                let mut square = self.rows[index].squares[col_index];
                if square.number_possible(number) {
                    assert(cell(self@, index as int, col_index as int).candidates.contains(number));
                    return false;
                }
            }
            index += 1;
        }
        return true;
    }

    /// Whether no other cell of the block has `number` as a candidate.
    pub fn number_fits_here_in_cube(&mut self, row_index: usize, col_index: usize, number: u32) -> (r:
        bool)
        requires
            row_index < 9,
            col_index < 9,
        ensures
            *final(self) == *old(self),
            r == alone_in_cube(old(self)@, row_index as int, col_index as int, number),
    {
        let row_floor = (row_index / 3) * 3;
        let col_floor = (col_index / 3) * 3;
        let mut k: usize = 0;
        while k < 9
            invariant
                k <= 9,
                row_index < 9,
                col_index < 9,
                row_floor == (row_index / 3) * 3,
                col_floor == (col_index / 3) * 3,
                *self == *old(self),
                forall|r: int, c: int|
                    on_grid(r, c) && same_block(row_index as int, col_index as int, r, c) && (r
                        - row_floor) * 3 + (c - col_floor) < k && !(r == row_index && c
                        == col_index) ==> !(#[trigger] cell(self@, r, c)).candidates.contains(
                        number,
                    ),
            decreases 9 - k,
        {
            let internal_row_index = row_floor + k / 3;
            let internal_col_index = col_floor + k % 3;
            if internal_row_index != row_index || internal_col_index != col_index {
                let mut square = self.rows[internal_row_index].squares[internal_col_index];
                if square.number_possible(number) {
                    assert(cell(
                        self@,
                        internal_row_index as int,
                        internal_col_index as int,
                    ).candidates.contains(number));
                    return false;
                }
            }
            k += 1;
        }

        return true;
    }

    /// Hidden single: if the cell is unset, the least of its candidates that
    /// no other cell of its row, of its column or of its block lists is
    /// placed there. The answer says whether one was.
    pub fn square_only_possible_location(
        board: &mut Board,
        row_index: usize,
        col_index: usize,
    ) -> (r: Result<bool, Contradiction>)
        requires
            old(board).wf(),
            row_index < 9,
            col_index < 9,
        ensures
            final(board).wf(),
            final(board)@ == hidden_single_step(old(board)@, row_index as int, col_index as int).grid,
            r == hidden_single_step(old(board)@, row_index as int, col_index as int).answer,
    {
        let mut change_made = false;
        if !board.square_empty(row_index, col_index) {
            return Ok(false);
        }
        let square_possibilities = match board.get_possible_numbers(row_index, col_index) {
            Ok(numbers) => numbers,
            Err(why) => {
                return Err(why);
            },
        };
        let ghost g = board@;
        let ghost row = row_index as int;
        let ghost col = col_index as int;
        let mut i: usize = 0;
        while i < square_possibilities.len()
            invariant_except_break
                !change_made,
                forall|j: int|
                    0 <= j < i ==> !only_place(g, row, col, #[trigger] square_possibilities@[j]),
            invariant
                i <= square_possibilities.len(),
                row_index < 9,
                col_index < 9,
                row == row_index,
                col == col_index,
                old(board).wf(),
                g == old(board)@,
                !change_made ==> *board == *old(board),
                forall|n: u32|
                    #[trigger] square_possibilities@.contains(n) <==> cell(
                        g,
                        row,
                        col,
                    ).candidates.contains(n),
                forall|a: int, b: int|
                    0 <= a < b < square_possibilities@.len() ==> #[trigger] square_possibilities@[a]
                        < #[trigger] square_possibilities@[b],
                cell(g, row, col).value == 0,
            ensures
                change_made ==> board.wf() && exists|v: u32|
                    first_only_place(g, row, col, 1) == Some(v) && board@ == grid_place(
                        g,
                        row,
                        col,
                        v,
                    ),
                !change_made ==> forall|j: int|
                    0 <= j < square_possibilities@.len() ==> !only_place(
                        g,
                        row,
                        col,
                        #[trigger] square_possibilities@[j],
                    ),
            decreases square_possibilities.len() - i,
        {
            let number = square_possibilities[i];
            if board.number_fits_here_in_row(row_index, col_index, number)
                || board.number_fits_here_in_col(row_index, col_index, number)
                || board.number_fits_here_in_cube(row_index, col_index, number) {
                proof {
                    assert(square_possibilities@.contains(number));
                    assert(only_place(g, row, col, number));
                    board.lemma_repr_ok();
                    assert(cell_wf(cell(g, row, col)));
                    assert(full_set().contains(number));
                    assert forall|u: u32| 1 <= u < number implies !#[trigger] only_place(
                        g,
                        row,
                        col,
                        u,
                    ) by {
                        if cell(g, row, col).candidates.contains(u) {
                            assert(square_possibilities@.contains(u));
                            let j = choose|j: int|
                                0 <= j < square_possibilities@.len() && square_possibilities@[j]
                                    == u;
                            if j >= i {
                                if j > i {
                                    assert(square_possibilities@[i as int]
                                        < square_possibilities@[j]);
                                }
                                assert(false);
                            }
                        }
                    }
                    lemma_first_only_place_found(g, row, col, 1, number);
                }
                board.place_unchecked(row_index, col_index, number);
                change_made = true;
                break;
            }
            i += 1;
        }
        proof {
            if !change_made {
                assert forall|u: u32| 1 <= u <= 9 implies !#[trigger] only_place(g, row, col, u) by {
                    if cell(g, row, col).candidates.contains(u) {
                        assert(square_possibilities@.contains(u));
                        let j = choose|j: int|
                            0 <= j < square_possibilities@.len() && square_possibilities@[j] == u;
                        assert(!only_place(g, row, col, square_possibilities@[j]));
                    }
                }
                lemma_first_only_place_none(g, row, col, 1);
            }
        }

        Ok(change_made)
    }

    /// Where the `i`-th cell of a group through `(row_index, col_index)` lies.
    pub fn group_member(kind: Group, row_index: usize, col_index: usize, i: usize) -> (r: (
        usize,
        usize,
    ))
        requires
            row_index < 9,
            col_index < 9,
            i < 9,
        ensures
            (r.0 as int, r.1 as int) == member(kind, row_index as int, col_index as int, i as int),
            r.0 < 9,
            r.1 < 9,
            in_group(kind, row_index as int, col_index as int, r.0 as int, r.1 as int),
            slot(kind, r.0 as int, r.1 as int) == i,
    {
        match kind {
            Group::Row => (row_index, i),
            Group::Column => (i, col_index),
            Group::Cube => ((row_index / 3) * 3 + i / 3, (col_index / 3) * 3 + i % 3),
        }
    }

    /// The candidates of the cell in place `index` of a group through
    /// `(row_index, col_index)`, in ascending order.
    pub fn possibilities_at(
        &self,
        kind: Group,
        row_index: usize,
        col_index: usize,
        index: usize,
    ) -> (r: Vec<u32>)
        requires
            self.repr_ok(),
            row_index < 9,
            col_index < 9,
            index < 9,
        ensures
            r@ == numerals_upto(
                cell(
                    self@,
                    member(kind, row_index as int, col_index as int, index as int).0,
                    member(kind, row_index as int, col_index as int, index as int).1,
                ).candidates,
                9,
            ),
    {
        let at = Board::group_member(kind, row_index, col_index, index);
        self.candidates_at(at.0, at.1)
    }

    /// Removes `value` from the candidates of every cell of a group through
    /// `(row_index, col_index)` but the one in place `index`, and reports
    /// whether one of them lost it.
    pub fn eliminate_except(
        &mut self,
        kind: Group,
        row_index: usize,
        col_index: usize,
        index: usize,
        value: u32,
    ) -> (change_made: bool)
        requires
            old(self).repr_ok(),
            row_index < 9,
            col_index < 9,
        ensures
            final(self).repr_ok(),
            final(self).unsolved() == old(self).unsolved(),
            final(self)@ == group_eliminated(
                old(self)@,
                kind,
                row_index as int,
                col_index as int,
                index as int,
                value,
            ),
            change_made == group_lists_elsewhere(
                old(self)@,
                kind,
                row_index as int,
                col_index as int,
                index as int,
                value,
            ),
            old(self).wf() ==> final(self).wf(),
    {
        let ghost g = self@;
        let ghost row = row_index as int;
        let ghost col = col_index as int;
        proof {
            self.lemma_repr_ok();
        }
        let mut change_made = false;
        let mut i: usize = 0;
        while i < 9
            invariant
                i <= 9,
                row_index < 9,
                col_index < 9,
                row == row_index,
                col == col_index,
                g == old(self)@,
                cells_wf(g),
                self.repr_ok(),
                self.unsolved_squares == old(self).unsolved_squares,
                forall|r: int, c: int|
                    on_grid(r, c) ==> #[trigger] cell(self@, r, c) == if in_group(
                        kind,
                        row,
                        col,
                        r,
                        c,
                    ) && slot(kind, r, c) < i && slot(kind, r, c) != index {
                        without_candidate(cell(g, r, c), value)
                    } else {
                        cell(g, r, c)
                    },
                change_made == exists|r: int, c: int|
                    on_grid(r, c) && in_group(kind, row, col, r, c) && slot(kind, r, c) < i
                        && slot(kind, r, c) != index && (#[trigger] cell(
                        g,
                        r,
                        c,
                    )).candidates.contains(value),
            decreases 9 - i,
        {
            let at = Board::group_member(kind, row_index, col_index, i);
            let ghost before = self@;
            let ghost seen_before = change_made;
            if i != index {
                let changed = self.rows[at.0].remove_possibility(at.1, value);
                change_made = changed || change_made;
            }
            proof {
                let ar = at.0 as int;
                let ac = at.1 as int;
                assert(cell(before, ar, ac) == cell(g, ar, ac));
                assert forall|r: int, c: int| on_grid(r, c) implies #[trigger] cell(self@, r, c)
                    == if in_group(kind, row, col, r, c) && slot(kind, r, c) < i + 1 && slot(
                    kind,
                    r,
                    c,
                ) != index {
                    without_candidate(cell(g, r, c), value)
                } else {
                    cell(g, r, c)
                } by {
                    assert(self@[r] == self.rows[r]@);
                    if r == ar && c == ac {
                    } else {
                        assert(cell(self@, r, c) == cell(before, r, c));
                        if in_group(kind, row, col, r, c) {
                            assert(slot(kind, r, c) != i);
                        }
                    }
                }
                let now = exists|r: int, c: int|
                    on_grid(r, c) && in_group(kind, row, col, r, c) && slot(kind, r, c) < i + 1
                        && slot(kind, r, c) != index && (#[trigger] cell(
                        g,
                        r,
                        c,
                    )).candidates.contains(value);
                if change_made {
                    if seen_before {
                        let (r, c) = choose|r: int, c: int|
                            on_grid(r, c) && in_group(kind, row, col, r, c) && slot(kind, r, c) < i
                                && slot(kind, r, c) != index && (#[trigger] cell(
                                g,
                                r,
                                c,
                            )).candidates.contains(value);
                        assert(slot(kind, r, c) < i + 1);
                    } else {
                        assert(cell(g, ar, ac).candidates.contains(value));
                    }
                    assert(now);
                }
                if now {
                    let (r, c) = choose|r: int, c: int|
                        on_grid(r, c) && in_group(kind, row, col, r, c) && slot(kind, r, c) < i + 1
                            && slot(kind, r, c) != index && (#[trigger] cell(
                            g,
                            r,
                            c,
                        )).candidates.contains(value);
                    if slot(kind, r, c) < i {
                        assert(seen_before);
                    } else {
                        assert(r == ar && c == ac);
                    }
                    assert(change_made);
                }
            }
            i += 1;
        }
        proof {
            let h = group_eliminated(g, kind, row, col, index as int, value);
            assert forall|r: int| 0 <= r < 9 implies #[trigger] self@[r] == h[r] by {
                assert forall|c: int| 0 <= c < 9 implies #[trigger] self@[r][c] == h[r][c] by {
                    assert(cell(self@, r, c) == cell(h, r, c));
                }
                assert(self@[r] =~= h[r]);
            }
            assert(self@ =~= h);
            if old(self).wf() {
                assert forall|r: int, c: int| on_grid(r, c) implies (#[trigger] cell(
                    h,
                    r,
                    c,
                )).value == cell(g, r, c).value && cell(h, r, c).candidates.subset_of(
                    cell(g, r, c).candidates,
                ) by {}
                lemma_pruned_keeps_wf(g, h);
            }
            if change_made {
                let (r, c) = choose|r: int, c: int|
                    on_grid(r, c) && in_group(kind, row, col, r, c) && slot(kind, r, c) < 9
                        && slot(kind, r, c) != index && (#[trigger] cell(
                        g,
                        r,
                        c,
                    )).candidates.contains(value);
                assert(group_lists_elsewhere(g, kind, row, col, index as int, value));
            }
            if group_lists_elsewhere(g, kind, row, col, index as int, value) {
                let (r, c) = choose|r: int, c: int|
                    on_grid(r, c) && in_group(kind, row, col, r, c) && slot(kind, r, c) != index
                        && (#[trigger] cell(g, r, c)).candidates.contains(value);
                assert(slot(kind, r, c) < 9);
                assert(change_made);
            }
        }
        change_made
    }

    /// The place in a group through `(row_index, col_index)` of the one cell
    /// that has `value` as a candidate, if there is exactly one.
    pub fn find_unique_possible_value_index(
        &self,
        kind: Group,
        row_index: usize,
        col_index: usize,
        value: u32,
    ) -> (r: Option<usize>)
        requires
            row_index < 9,
            col_index < 9,
        ensures
            r matches Some(index) ==> group_lists_only_at(
                self@,
                kind,
                row_index as int,
                col_index as int,
                index as int,
                value,
            ),
            r is None ==> forall|index: int|
                !group_lists_only_at(self@, kind, row_index as int, col_index as int, index, value),
    {
        let ghost g = self@;
        let ghost row = row_index as int;
        let ghost col = col_index as int;
        let mut found: Option<usize> = None;
        let mut i: usize = 0;
        while i < 9
            invariant
                i <= 9,
                row_index < 9,
                col_index < 9,
                row == row_index,
                col == col_index,
                g == self@,
                found matches Some(index) ==> index < i,
                forall|r: int, c: int|
                    on_grid(r, c) && in_group(kind, row, col, r, c) && slot(kind, r, c) < i ==> ((
                    #[trigger] cell(g, r, c)).candidates.contains(value) <==> found == Some(
                        slot(kind, r, c) as usize,
                    )),
            decreases 9 - i,
        {
            let at = Board::group_member(kind, row_index, col_index, i);
            let mut square = self.rows[at.0].squares[at.1];
            assert(square@ == cell(g, at.0 as int, at.1 as int));
            if square.number_possible(value) {
                match found {
                    Some(index) => {
                        assert forall|only: int|
                            !group_lists_only_at(g, kind, row, col, only, value) by {
                            let first = Board::lemma_member_on_grid(kind, row, col, index as int);
                            assert(cell(g, first.0, first.1).candidates.contains(value));
                            assert(cell(g, at.0 as int, at.1 as int).candidates.contains(value));
                        }
                        return None;
                    },
                    None => {
                        found = Some(i);
                    },
                }
            }
            proof {
                assert forall|r: int, c: int|
                    on_grid(r, c) && in_group(kind, row, col, r, c) && slot(kind, r, c) < i
                        + 1 implies ((#[trigger] cell(g, r, c)).candidates.contains(value)
                    <==> found == Some(slot(kind, r, c) as usize)) by {
                    if slot(kind, r, c) == i {
                        assert(r == at.0 && c == at.1);
                    }
                }
            }
            i += 1;
        }
        proof {
            match found {
                Some(index) => {},
                None => {
                    assert forall|only: int|
                        !group_lists_only_at(g, kind, row, col, only, value) by {
                        if 0 <= only < 9 {
                            let at = Board::lemma_member_on_grid(kind, row, col, only);
                            assert(!cell(g, at.0, at.1).candidates.contains(value));
                        }
                    }
                },
            }
        }
        found
    }

    /// Every place of a group is a cell of the grid, and the cell knows its
    /// place.
    pub proof fn lemma_member_on_grid(kind: Group, row: int, col: int, index: int) -> (at: (
        int,
        int,
    ))
        requires
            on_grid(row, col),
            0 <= index < 9,
        ensures
            at == member(kind, row, col, index),
            on_grid(at.0, at.1),
            in_group(kind, row, col, at.0, at.1),
            slot(kind, at.0, at.1) == index,
    {
        member(kind, row, col, index)
    }

    /// The naked n-ple rule in one group of the cell at
    /// `(row_index, col_index)`.
    pub fn tuple_in_group(
        &mut self,
        kind: Group,
        row_index: usize,
        col_index: usize,
        n: usize,
    ) -> (r: Result<bool, Contradiction>)
        requires
            old(self).wf(),
            row_index < 9,
            col_index < 9,
        ensures
            final(self).wf(),
            final(self)@ == tuple_step(
                old(self)@,
                kind,
                row_index as int,
                col_index as int,
                n as nat,
            ).grid,
            r == tuple_step(old(self)@, kind, row_index as int, col_index as int, n as nat).answer,
    {
        let ghost g = self@;
        let ghost row = row_index as int;
        let ghost col = col_index as int;
        let target = self.rows[row_index].squares[col_index];
        let ghost numerals = target@.candidates;
        proof {
            self.lemma_repr_ok();
            assert(target@ == cell(g, row, col));
        }
        let numbers = target.get_possible_numbers();
        assert(numbers@.to_set() =~= numerals);

        let mut twins: usize = 0;
        let mut i: usize = 0;
        while i < 9
            invariant
                i <= 9,
                row_index < 9,
                col_index < 9,
                row == row_index,
                col == col_index,
                *self == *old(self),
                g == self@,
                numerals == target@.candidates,
                twins <= i,
                twins == twins_among(g, kind, row, col, numerals, i as nat),
            decreases 9 - i,
        {
            let at = Board::group_member(kind, row_index, col_index, i);
            let square = self.rows[at.0].squares[at.1];
            assert(square@ == cell(g, at.0 as int, at.1 as int));
            if square.is_empty() && square.same_candidates(&target) {
                twins += 1;
            }
            i += 1;
        }
        if twins > n {
            return Err(Contradiction::CrowdedTuple);
        }
        if twins < n {
            return Ok(false);
        }
        let mut change_made = false;
        i = 0;
        while i < 9
            invariant
                i <= 9,
                row_index < 9,
                col_index < 9,
                row == row_index,
                col == col_index,
                g == old(self)@,
                cells_wf(g),
                numerals == target@.candidates,
                numbers@.to_set() == numerals,
                self.repr_ok(),
                self.unsolved_squares == old(self).unsolved_squares,
                forall|r: int, c: int|
                    on_grid(r, c) ==> #[trigger] cell(self@, r, c) == if in_group(
                        kind,
                        row,
                        col,
                        r,
                        c,
                    ) && slot(kind, r, c) < i && !twin(g, r, c, numerals) {
                        without_candidates(cell(g, r, c), numerals)
                    } else {
                        cell(g, r, c)
                    },
                change_made == exists|r: int, c: int|
                    on_grid(r, c) && in_group(kind, row, col, r, c) && slot(kind, r, c) < i
                        && !twin(g, r, c, numerals) && !(#[trigger] cell(
                        g,
                        r,
                        c,
                    )).candidates.disjoint(numerals),
            decreases 9 - i,
        {
            let at = Board::group_member(kind, row_index, col_index, i);
            let square = self.rows[at.0].squares[at.1];
            let ghost before = self@;
            let ghost seen_before = change_made;
            proof {
                assert(square@ == cell(before, at.0 as int, at.1 as int));
                assert(square@ == cell(g, at.0 as int, at.1 as int));
            }
            if !(square.is_empty() && square.same_candidates(&target)) {
                let changed = self.rows[at.0].remove_possibilities(at.1, &numbers);
                change_made = changed || change_made;
            }
            proof {
                let ar = at.0 as int;
                let ac = at.1 as int;
                assert forall|r: int, c: int| on_grid(r, c) implies #[trigger] cell(self@, r, c)
                    == if in_group(kind, row, col, r, c) && slot(kind, r, c) < i + 1 && !twin(
                    g,
                    r,
                    c,
                    numerals,
                ) {
                    without_candidates(cell(g, r, c), numerals)
                } else {
                    cell(g, r, c)
                } by {
                    assert(self@[r] == self.rows[r]@);
                    if r == ar && c == ac {
                    } else {
                        assert(cell(self@, r, c) == cell(before, r, c));
                        if in_group(kind, row, col, r, c) {
                            assert(slot(kind, r, c) != i);
                        }
                    }
                }
                let now = exists|r: int, c: int|
                    on_grid(r, c) && in_group(kind, row, col, r, c) && slot(kind, r, c) < i + 1
                        && !twin(g, r, c, numerals) && !(#[trigger] cell(
                        g,
                        r,
                        c,
                    )).candidates.disjoint(numerals);
                if change_made {
                    if seen_before {
                        let (r, c) = choose|r: int, c: int|
                            on_grid(r, c) && in_group(kind, row, col, r, c) && slot(kind, r, c) < i
                                && !twin(g, r, c, numerals) && !(#[trigger] cell(
                                g,
                                r,
                                c,
                            )).candidates.disjoint(numerals);
                        assert(slot(kind, r, c) < i + 1);
                    } else {
                        assert(!cell(g, ar, ac).candidates.disjoint(numerals));
                    }
                    assert(now);
                }
                if now {
                    let (r, c) = choose|r: int, c: int|
                        on_grid(r, c) && in_group(kind, row, col, r, c) && slot(kind, r, c) < i + 1
                            && !twin(g, r, c, numerals) && !(#[trigger] cell(
                            g,
                            r,
                            c,
                        )).candidates.disjoint(numerals);
                    if slot(kind, r, c) < i {
                        assert(seen_before);
                    } else {
                        assert(r == ar && c == ac);
                    }
                    assert(change_made);
                }
            }
            i += 1;
        }
        proof {
            let h = tuple_pruned(g, kind, row, col, numerals);
            assert forall|r: int| 0 <= r < 9 implies #[trigger] self@[r] == h[r] by {
                assert forall|c: int| 0 <= c < 9 implies #[trigger] self@[r][c] == h[r][c] by {
                    assert(cell(self@, r, c) == cell(h, r, c));
                }
                assert(self@[r] =~= h[r]);
            }
            assert(self@ =~= h);
            lemma_pruned_keeps_wf(g, h);
            if change_made {
                let (r, c) = choose|r: int, c: int|
                    on_grid(r, c) && in_group(kind, row, col, r, c) && slot(kind, r, c) < 9
                        && !twin(g, r, c, numerals) && !(#[trigger] cell(
                        g,
                        r,
                        c,
                    )).candidates.disjoint(numerals);
                assert(tuple_prunes(g, kind, row, col, numerals));
            }
            if tuple_prunes(g, kind, row, col, numerals) {
                let (r, c) = choose|r: int, c: int|
                    on_grid(r, c) && in_group(kind, row, col, r, c) && !twin(g, r, c, numerals)
                        && !(#[trigger] cell(g, r, c)).candidates.disjoint(numerals);
                assert(slot(kind, r, c) < 9);
                assert(change_made);
            }
        }
        Ok(change_made)
    }

    /// Naked n-ple: if the cell is unset and has exactly `n` candidates, and
    /// `n` cells of its row have exactly these candidates, the other cells of
    /// the row lose them; then the same in its column and in its block. More
    /// than `n` such cells in one group are a contradiction. The answer says
    /// whether a cell lost a candidate.
    pub fn nakend_nple(&mut self, row_index: usize, col_index: usize, n: usize) -> (r: Result<
        bool,
        Contradiction,
    >)
        requires
            old(self).wf(),
            row_index < 9,
            col_index < 9,
        ensures
            final(self).wf(),
            final(self)@ == naked_nple_step(
                old(self)@,
                row_index as int,
                col_index as int,
                n as nat,
            ).grid,
            r == naked_nple_step(old(self)@, row_index as int, col_index as int, n as nat).answer,
    {
        if !self.square_empty(row_index, col_index) {
            return Ok(false);
        }
        //we do this work for each row, cube, and col associated with the square
        let square_possibilities = match self.get_possible_numbers(row_index, col_index) {
            Ok(numbers) => numbers,
            Err(why) => {
                return Err(why);
            },
        };
        if square_possibilities.len() != n {
            return Ok(false);
        }
        //row first.
        let in_row = match self.tuple_in_group(Group::Row, row_index, col_index, n) {
            Ok(changed) => changed,
            Err(why) => {
                return Err(why);
            },
        };
        //now lets check the column
        let in_col = match self.tuple_in_group(Group::Column, row_index, col_index, n) {
            Ok(changed) => changed,
            Err(why) => {
                return Err(why);
            },
        };
        let in_cube = match self.tuple_in_group(Group::Cube, row_index, col_index, n) {
            Ok(changed) => changed,
            Err(why) => {
                return Err(why);
            },
        };
        Ok(in_row || in_col || in_cube)
    }

    /// Applies `rule` at `(row_index, col_index)`.
    pub fn apply_rule(&mut self, rule: Rule, row_index: usize, col_index: usize) -> (r: Result<
        bool,
        Contradiction,
    >)
        requires
            old(self).wf(),
            row_index < 9,
            col_index < 9,
        ensures
            final(self).wf(),
            final(self)@ == rule_step(old(self)@, rule, row_index as int, col_index as int).grid,
            r == rule_step(old(self)@, rule, row_index as int, col_index as int).answer,
    {
        match rule {
            Rule::NakedSingle => Board::naked_single(self, row_index, col_index),
            Rule::HiddenSingle => Board::square_only_possible_location(self, row_index, col_index),
            Rule::NakedNple(n) => self.nakend_nple(row_index, col_index, n),
        }
    }

    /// One pass: applies `rule` to every cell that is unset when its turn
    /// comes, left to right and top to bottom, and stops at the first
    /// contradiction. The answer says whether the rule changed anything.
    pub fn iterate_over_board(&mut self, rule: Rule) -> (r: Result<bool, Contradiction>)
        requires
            old(self).wf(),
        ensures
            final(self).wf(),
            final(self)@ == pass(old(self)@, rule).grid,
            r == pass(old(self)@, rule).answer,
            r == Ok::<bool, Contradiction>(true) ==> candidate_count(final(self)@) < candidate_count(
                old(self)@,
            ),
            r == Ok::<bool, Contradiction>(false) ==> final(self)@ == old(self)@,
    {
        //returns a bool depending on whether the board state changed under this pass
        let mut change_occured = false;
        let ghost g = self@;

        let mut row_index: usize = 0;
        while row_index < 9
            invariant
                row_index <= 9,
                g == old(self)@,
                self.wf(),
                self@ == pass_upto(g, rule, (row_index * 9) as nat).grid,
                Ok::<bool, Contradiction>(change_occured) == pass_upto(
                    g,
                    rule,
                    (row_index * 9) as nat,
                ).answer,
            decreases 9 - row_index,
        {
            let mut col_index: usize = 0;
            while col_index < 9
                invariant
                    row_index < 9,
                    col_index <= 9,
                    g == old(self)@,
                    self.wf(),
                    self@ == pass_upto(g, rule, (row_index * 9 + col_index) as nat).grid,
                    Ok::<bool, Contradiction>(change_occured) == pass_upto(
                        g,
                        rule,
                        (row_index * 9 + col_index) as nat,
                    ).answer,
                decreases 9 - col_index,
            {
                let ghost k = (row_index * 9 + col_index + 1) as nat;
                proof {
                    assert((k - 1) / 9 == row_index as int);
                    assert((k - 1) % 9 == col_index as int);
                    assert((k - 1) as nat == (row_index * 9 + col_index) as nat);
                }
                if self.square_empty(row_index, col_index) {
                    //don't bother looking at squares that aren't empty.
                    match self.apply_rule(rule, row_index, col_index) {
                        Ok(changed) => {
                            change_occured = change_occured || changed;
                        },
                        Err(why) => {
                            proof {
                                lemma_pass_ends_at_contradiction(g, rule, k, 81);
                            }
                            return Err(why);
                        },
                    }
                }
                col_index += 1;
            }
            row_index += 1;
        }
        proof {
            lemma_pass_upto_sound(g, rule, 81);
        }

        Ok(change_occured)
    }

    /// Passes of `rule` until one changes nothing, the board is solved, or a
    /// contradiction turns up. The answer says whether any pass changed
    /// anything.
    pub fn run_to_fixpoint(&mut self, rule: Rule) -> (r: Result<bool, Contradiction>)
        requires
            old(self).wf(),
        ensures
            final(self).wf(),
            final(self)@ == fixpoint(old(self)@, rule).grid,
            r == fixpoint(old(self)@, rule).answer,
            r is Ok ==> all_set(final(self)@) || pass(final(self)@, rule) == untouched(
                final(self)@,
            ),
    {
        let mut change_made = false;
        let ghost start = self@;
        proof {
            lemma_pass_upto_sound(start, rule, 81);
        }
        loop
            invariant
                self.wf(),
                grid_wf(start),
                start == old(self)@,
                fixpoint(start, rule) == and_then(
                    Outcome { grid: self@, answer: Ok(change_made) },
                    fixpoint(self@, rule),
                ),
            decreases candidate_count(self@),
        {
            let ghost before = self@;
            let ghost so_far = Outcome { grid: before, answer: Ok(change_made) };
            let ghost once = pass(before, rule);
            proof {
                lemma_pass_upto_sound(before, rule, 81);
            }
            let circuit_change_made = match self.iterate_over_board(rule) {
                Ok(changed) => changed,
                Err(why) => {
                    assert(fixpoint(before, rule) == once);
                    return Err(why);
                },
            };
            change_made = change_made || circuit_change_made;
            if !circuit_change_made || self.self_solved() {
                proof {
                    assert(fixpoint(before, rule) == once);
                    lemma_fixpoint_sound(start, rule);
                    assert(fixpoint(start, rule).grid == self@);
                }
                return Ok(change_made);
            }
            proof {
                assert(fixpoint(before, rule) == and_then(once, fixpoint(self@, rule)));
                let rest = fixpoint(self@, rule);
                assert(and_then(so_far, and_then(once, rest)) == and_then(
                    Outcome { grid: self@, answer: Ok(change_made) },
                    rest,
                ));
            }
        }
    }
}

} // verus!
