//! A row of nine cells.

use crate::square::{blank_cell, numerals_upto, placed_cell, CellView, Square};
use vstd::prelude::*;

verus! {

/// The operations that can be applied to a single cell of a group.
#[derive(Clone, Copy, Debug, PartialEq, Eq, Structural)]
pub enum SquareOp {
    /// Give the cell a value; 0 unsets it.
    SetValue,
    /// Remove one candidate.
    RemovePossibility,
}

/// Nine cells that exclude each other's values.
#[derive(Copy, Clone)]
pub struct Collection {
    pub squares: [Square; 9],
}

impl View for Collection {
    type V = Seq<CellView>;

    open spec fn view(&self) -> Seq<CellView> {
        Seq::new(9, |i: int| self.squares[i]@)
    }
}

/// `cell` without the candidate `value`.
pub open spec fn without_candidate(cell: CellView, value: u32) -> CellView {
    CellView { value: cell.value, candidates: cell.candidates.remove(value) }
}

/// `cell` without any of `numerals` among its candidates.
pub open spec fn without_candidates(cell: CellView, numerals: Set<u32>) -> CellView {
    CellView { value: cell.value, candidates: cell.candidates.difference(numerals) }
}

/// The cell after it was given `value`.
pub open spec fn cell_set_to(value: u32) -> CellView {
    if value == 0 {
        blank_cell()
    } else {
        placed_cell(value)
    }
}

/// The group after the cell at `index` was given `value`: that cell holds
/// it, and every other cell has lost it as a candidate.
pub open spec fn group_place(group: Seq<CellView>, index: int, value: u32) -> Seq<CellView> {
    Seq::new(
        group.len(),
        |i: int|
            if i == index {
                cell_set_to(value)
            } else {
                without_candidate(group[i], value)
            },
    )
}

/// The group after every cell but the one at `index` has lost `value` as a
/// candidate.
pub open spec fn group_without(group: Seq<CellView>, index: int, value: u32) -> Seq<CellView> {
    Seq::new(
        group.len(),
        |i: int|
            if i == index {
                group[i]
            } else {
                without_candidate(group[i], value)
            },
    )
}

/// Whether the cell at `index` is the only one of the group that has `value`
/// as a candidate.
pub open spec fn lists_alone(group: Seq<CellView>, index: int, value: u32) -> bool {
    &&& 0 <= index < group.len()
    &&& group[index].candidates.contains(value)
    &&& forall|i: int|
        0 <= i < group.len() && i != index ==> !(#[trigger] group[i]).candidates.contains(value)
}

/// Whether a cell other than the one at `index` has `value` as a candidate.
pub open spec fn candidate_elsewhere(group: Seq<CellView>, index: int, value: u32) -> bool {
    exists|i: int|
        0 <= i < group.len() && i != index && (#[trigger] group[i]).candidates.contains(value)
}

impl Collection {
    /// Every cell of the row is well formed.
    pub open spec fn wf(self) -> bool {
        forall|i: int| 0 <= i < 9 ==> (#[trigger] self.squares[i]).wf()
    }

    /// Nine unset cells.
    pub fn default() -> (r: Collection)
        ensures
            r.wf(),
            r@ == Seq::new(9, |i: int| blank_cell()),
    {
        let r = Collection { squares: [Square::default();9] };
        assert(r@ =~= Seq::new(9, |i: int| blank_cell()));
        r
    }

    /// Gives the cell at `index` the value `value` and removes `value` from
    /// the candidates of the other cells. Reports whether one of them lost a
    /// candidate.
    pub fn set_square(&mut self, index: usize, value: u32) -> (changed: bool)
        requires
            old(self).wf(),
            index < 9,
            value <= 9,
        ensures
            final(self).wf(),
            final(self)@ == group_place(old(self)@, index as int, value),
            changed == candidate_elsewhere(old(self)@, index as int, value),
    {
        self.squares[index].set_value(value);
        // be sure to remove this possiblity from other squares in the collection
        let ghost placed = self@;
        let change_made = self.eliminate_except(index, value);
        assert(placed =~= old(self)@.update(index as int, cell_set_to(value)));
        assert(self@ =~= group_place(old(self)@, index as int, value));
        proof {
            if candidate_elsewhere(placed, index as int, value) {
                let i = choose|i: int|
                    0 <= i < 9 && i != index && (#[trigger] placed[i]).candidates.contains(value);
                assert(old(self)@[i].candidates.contains(value));
            }
            if candidate_elsewhere(old(self)@, index as int, value) {
                let i = choose|i: int|
                    0 <= i < 9 && i != index && (#[trigger] old(self)@[i]).candidates.contains(
                        value,
                    );
                assert(placed[i].candidates.contains(value));
            }
        }
        change_made
    }

    /// Removes `value` from the candidates of every cell but the one at
    /// `index` and reports whether one of them lost it.
    pub fn eliminate_except(&mut self, index: usize, value: u32) -> (changed: bool)
        requires
            old(self).wf(),
            index < 9,
        ensures
            final(self).wf(),
            final(self)@ == group_without(old(self)@, index as int, value),
            changed == candidate_elsewhere(old(self)@, index as int, value),
    {
        let mut change_made = false;
        let mut i: usize = 0;
        while i < 9
            invariant
                i <= 9,
                index < 9,
                self.wf(),
                self.squares[index as int] == old(self).squares[index as int],
                forall|j: int|
                    0 <= j < i && j != index ==> (#[trigger] self.squares[j])@
                        == without_candidate(old(self).squares[j]@, value),
                forall|j: int|
                    i <= j < 9 && j != index ==> (#[trigger] self.squares[j])@ == old(
                        self,
                    ).squares[j]@,
                change_made == exists|j: int|
                    0 <= j < i && j != index && (#[trigger] old(self)@[j]).candidates.contains(
                        value,
                    ),
            decreases 9 - i,
        {
            if i != index {
                let removed = self.squares[i].remove_possibility(value);
                assert(old(self)@[i as int] == old(self).squares[i as int]@);
                change_made = removed || change_made;
            }
            i += 1;
        }
        assert(self@ =~= group_without(old(self)@, index as int, value));
        change_made
    }

    /// The one cell that has `value` as a candidate, if there is exactly
    /// one.
    pub fn find_unique_possible_value_index(&self, value: u32) -> (r: Option<usize>)
        ensures
            r matches Some(index) ==> lists_alone(self@, index as int, value),
            r is None ==> forall|index: int| !lists_alone(self@, index, value),
    {
        let mut found: Option<usize> = None;
        let mut i: usize = 0;
        while i < 9
            invariant
                i <= 9,
                found matches Some(index) ==> index < i && self@[index as int].candidates.contains(
                    value,
                ) && forall|j: int|
                    0 <= j < i && j != index ==> !(#[trigger] self@[j]).candidates.contains(value),
                found is None ==> forall|j: int|
                    0 <= j < i ==> !(#[trigger] self@[j]).candidates.contains(value),
            decreases 9 - i,
        {
            let mut square = self.squares[i];
            if square.number_possible(value) {
                assert(self@[i as int].candidates.contains(value));
                match found {
                    Some(index) => {
                        assert forall|at: int| !lists_alone(self@, at, value) by {
                            if at != i {
                                assert(self@[i as int].candidates.contains(value));
                            } else {
                                assert(self@[index as int].candidates.contains(value));
                            }
                        }
                        return None;
                    },
                    None => {
                        found = Some(i);
                    },
                }
            }
            i += 1;
        }
        found
    }

    /// Whether the cell at `index` is unset.
    pub fn square_empty(&self, index: usize) -> (r: bool)
        requires
            index < 9,
        ensures
            r == (self@[index as int].value == 0),
    {
        self.squares[index].is_empty()
    }

    /// The candidates of the cell at `index`, in ascending order.
    pub fn get_possible_numbers(&self, index: usize) -> (r: Vec<u32>)
        requires
            self.wf(),
            index < 9,
        ensures
            r@ == numerals_upto(self@[index as int].candidates, 9),
            r@.len() == self@[index as int].candidates.len(),
            forall|n: u32| #[trigger] r@.contains(n) <==> self@[index as int].candidates.contains(n),
            forall|i: int, j: int| 0 <= i < j < r@.len() ==> #[trigger] r@[i] < #[trigger] r@[j],
    {
        self.squares[index].get_possible_numbers()
    }

    /// Removes `value` from the candidates of the cell at `index` and reports
    /// whether it was one.
    pub fn remove_possibility(&mut self, index: usize, value: u32) -> (changed: bool)
        requires
            old(self).wf(),
            index < 9,
        ensures
            final(self).wf(),
            final(self)@ == old(self)@.update(
                index as int,
                without_candidate(old(self)@[index as int], value),
            ),
            changed == old(self)@[index as int].candidates.contains(value),
    {
        let changed = self.squares[index].remove_possibility(value);
        assert(self@ =~= old(self)@.update(
            index as int,
            without_candidate(old(self)@[index as int], value),
        ));
        changed
    }

    /// Removes each of `numbers` from the candidates of the cell at `index`
    /// and reports whether one of them was a candidate.
    pub fn remove_possibilities(&mut self, index: usize, numbers: &Vec<u32>) -> (changed: bool)
        requires
            old(self).wf(),
            index < 9,
        ensures
            final(self).wf(),
            final(self)@ == old(self)@.update(
                index as int,
                without_candidates(old(self)@[index as int], numbers@.to_set()),
            ),
            changed == !old(self)@[index as int].candidates.disjoint(numbers@.to_set()),
    {
        let changed = self.squares[index].remove_possibilities(numbers);
        assert(self@ =~= old(self)@.update(
            index as int,
            without_candidates(old(self)@[index as int], numbers@.to_set()),
        ));
        changed
    }

    /// Applies `op` with `value` to the cell at `index` and reports whether
    /// the cell is another than before.
    pub fn alter_square(&mut self, index: usize, value: u32, op: SquareOp) -> (changed: bool)
        requires
            old(self).wf(),
            index < 9,
            op == SquareOp::SetValue ==> value <= 9,
        ensures
            final(self).wf(),
            final(self)@ == old(self)@.update(
                index as int,
                match op {
                    SquareOp::SetValue => cell_set_to(value),
                    SquareOp::RemovePossibility => without_candidate(
                        old(self)@[index as int],
                        value,
                    ),
                },
            ),
            changed == (final(self)@[index as int] != old(self)@[index as int]),
            op == SquareOp::RemovePossibility ==> changed == old(
                self,
            )@[index as int].candidates.contains(value),
    {
        match op {
            SquareOp::SetValue => {
                let before = self.squares[index];
                self.squares[index].set_value(value);
                let after = self.squares[index];
                assert(self@ =~= old(self)@.update(index as int, cell_set_to(value)));
                !(before.get_value() == after.get_value() && before.same_candidates(&after))
            },
            SquareOp::RemovePossibility => {
                let changed = self.squares[index].remove_possibility(value);
                assert(self@ =~= old(self)@.update(
                    index as int,
                    without_candidate(old(self)@[index as int], value),
                ));
                assert(!changed ==> self@[index as int].candidates =~= old(
                    self,
                )@[index as int].candidates);
                changed
            },
        }
    }
}

} // verus!
