//! Two views of the board as text: the values alone, and the candidates of
//! every cell.

use crate::board::Board;
use crate::grid::{cell, Grid};
use crate::helper_functions::vector_contains;
use crate::square::{cell_wf, CellView};
use vstd::prelude::*;

verus! {

/// The digit for `value`, which is at most 9.
pub open spec fn digit(value: u32) -> char {
    ((48 + value) as u8) as char
}

/// Writes the digit for `value`.
pub fn digit_char(value: u32) -> (r: char)
    requires
        value <= 9,
    ensures
        r == digit(value),
{
    ((48 + value) as u8) as char
}

/// `count` times the character `c`.
pub open spec fn repeated(c: char, count: nat) -> Seq<char> {
    Seq::new(count, |i: int| c)
}

/// Appends `count` times the character `c`.
pub fn push_repeated(text: &mut String, c: char, count: usize)
    ensures
        final(text)@ == old(text)@ + repeated(c, count as nat),
{
    let mut i: usize = 0;
    assert(text@ =~= old(text)@ + repeated(c, 0));
    while i < count
        invariant
            i <= count,
            text@ == old(text)@ + repeated(c, i as nat),
        decreases count - i,
    {
        text.push(c);
        i += 1;
        assert(text@ =~= old(text)@ + repeated(c, i as nat));
    }
}

/// A cell in the view of the values: its digit, or a space, in brackets.
pub open spec fn boxed(c: CellView) -> Seq<char> {
    seq![
        '[',
        if c.value == 0 {
            ' '
        } else {
            digit(c.value)
        },
        ']',
    ]
}

/// What follows the cell in column `col` of a row: a bar after each block.
pub open spec fn after_box(col: int) -> Seq<char> {
    if col == 2 || col == 5 {
        seq![' ', '|', ' ']
    } else {
        Seq::empty()
    }
}

/// The first `k` cells of row `row` in the view of the values.
pub open spec fn row_view(g: Grid, row: int, k: nat) -> Seq<char>
    decreases k,
{
    if k == 0 {
        Seq::empty()
    } else {
        row_view(g, row, (k - 1) as nat) + boxed(cell(g, row, k - 1)) + after_box(k - 1)
    }
}

/// The line that parts two bands of blocks in the view of the values.
pub open spec fn band_rule() -> Seq<char> {
    repeated('-', 9) + repeated(' ', 3) + repeated('-', 9) + repeated(' ', 3) + repeated('-', 9)
        + seq!['\n']
}

/// What follows row `row`: a rule after each band of blocks.
pub open spec fn after_row(row: int) -> Seq<char> {
    if row == 2 || row == 5 {
        band_rule()
    } else {
        Seq::empty()
    }
}

/// The first `k` rows in the view of the values.
pub open spec fn grid_text(g: Grid, k: nat) -> Seq<char>
    decreases k,
{
    if k == 0 {
        Seq::empty()
    } else {
        grid_text(g, (k - 1) as nat) + row_view(g, k - 1, 9) + seq!['\n'] + after_row(k - 1)
    }
}

/// The mark for `numeral` in the view of the candidates: the numeral if the
/// cell lists it, a space if it lists others only, and the value of the cell
/// if it lists none.
pub open spec fn pencil_mark(c: CellView, numeral: u32) -> char {
    if c.candidates == Set::<u32>::empty() {
        digit(c.value)
    } else if c.candidates.contains(numeral) {
        digit(numeral)
    } else {
        ' '
    }
}

/// The three marks of a cell in band `band` of its row: those for the
/// numerals `3 * band + 1` to `3 * band + 3`.
pub open spec fn pencil_marks(c: CellView, band: int) -> Seq<char> {
    seq![
        pencil_mark(c, (3 * band + 1) as u32),
        pencil_mark(c, (3 * band + 2) as u32),
        pencil_mark(c, (3 * band + 3) as u32),
    ]
}

/// What follows the marks of the cell in column `col`.
pub open spec fn after_marks(col: int) -> Seq<char> {
    if col == 2 || col == 5 {
        seq!['|', ' ', '|', '|', ' ', '|']
    } else {
        seq!['|']
    }
}

/// The marks of the first `k` cells of row `row` in band `band`.
pub open spec fn marks_upto(g: Grid, row: int, band: int, k: nat) -> Seq<char>
    decreases k,
{
    if k == 0 {
        Seq::empty()
    } else {
        marks_upto(g, row, band, (k - 1) as nat) + pencil_marks(cell(g, row, k - 1), band)
            + after_marks(k - 1)
    }
}

/// One line of the view of the candidates: band `band` of row `row`.
pub open spec fn marks_line(g: Grid, row: int, band: int) -> Seq<char> {
    seq!['|', '|', ' ', '|'] + marks_upto(g, row, band, 9) + seq![' ', '|', '|', '\n']
}

/// The rule under row `row` in the view of the candidates: a double one
/// after each band of blocks.
pub open spec fn rule_under(row: int) -> Seq<char> {
    if row == 2 || row == 5 {
        repeated('=', 53) + seq!['\n']
    } else {
        repeated('-', 53) + seq!['\n']
    }
}

/// The first `k` rows of the view of the candidates, each with its three
/// lines and the rule under it.
pub open spec fn rows_of_marks(g: Grid, k: nat) -> Seq<char>
    decreases k,
{
    if k == 0 {
        Seq::empty()
    } else {
        rows_of_marks(g, (k - 1) as nat) + marks_line(g, k - 1, 0) + marks_line(g, k - 1, 1)
            + marks_line(g, k - 1, 2) + rule_under(k - 1)
    }
}

/// The view of the candidates: every cell as three lines of three marks,
/// between double rules.
pub open spec fn possibility_text(g: Grid) -> Seq<char> {
    repeated('=', 53) + seq!['\n'] + rows_of_marks(g, 9) + repeated('=', 53) + seq!['\n']
}

impl Board {
    /// The values of the board as text: a line for each row, every cell in
    /// brackets, with bars and rules between the blocks.
    pub fn grid_view(&self) -> (r: String)
        requires
            self.repr_ok(),
        ensures
            r@ == grid_text(self@, 9),
    {
        let mut text = String::new();
        let mut row_index: usize = 0;
        assert(text@ =~= grid_text(self@, 0));
        while row_index < 9
            invariant
                row_index <= 9,
                self.repr_ok(),
                text@ == grid_text(self@, row_index as nat),
            decreases 9 - row_index,
        {
            let ghost start = text@;
            let mut col_index: usize = 0;
            assert(text@ =~= start + row_view(self@, row_index as int, 0));
            while col_index < 9
                invariant
                    row_index < 9,
                    col_index <= 9,
                    self.repr_ok(),
                    text@ == start + row_view(self@, row_index as int, col_index as nat),
                decreases 9 - col_index,
            {
                let value = self.value_at(row_index, col_index);
                proof {
                    self.lemma_repr_ok();
                    assert(cell_wf(cell(self@, row_index as int, col_index as int)));
                }
                text.push('[');
                if value == 0 {
                    text.push(' ');
                } else {
                    text.push(digit_char(value));
                }
                text.push(']');
                if col_index == 2 || col_index == 5 {
                    text.push(' ');
                    text.push('|');
                    text.push(' ');
                }
                col_index += 1;
                assert(text@ =~= start + row_view(self@, row_index as int, col_index as nat));
            }
            text.push('\n');
            if row_index == 2 || row_index == 5 {
                push_repeated(&mut text, '-', 9);
                push_repeated(&mut text, ' ', 3);
                push_repeated(&mut text, '-', 9);
                push_repeated(&mut text, ' ', 3);
                push_repeated(&mut text, '-', 9);
                text.push('\n');
            }
            row_index += 1;
            assert(text@ =~= grid_text(self@, row_index as nat));
        }
        text
    }

    /// The candidates of the board as text: every cell as three lines of
    /// three marks, a numeral where the cell lists it. A cell without
    /// candidates shows its value in all nine places.
    pub fn possibility_view(&self) -> (r: String)
        requires
            self.repr_ok(),
        ensures
            r@ == possibility_text(self@),
    {
        let mut text = String::new();
        push_repeated(&mut text, '=', 53);
        text.push('\n');
        let ghost head = text@;
        let mut row_index: usize = 0;
        assert(text@ =~= head + rows_of_marks(self@, 0));
        while row_index < 9
            invariant
                row_index <= 9,
                self.repr_ok(),
                text@ == head + rows_of_marks(self@, row_index as nat),
            decreases 9 - row_index,
        {
            //we do 3 passes
            self.posssibilities_inner_loop(&mut text, row_index, 0);
            self.posssibilities_inner_loop(&mut text, row_index, 1);
            self.posssibilities_inner_loop(&mut text, row_index, 2);
            if row_index == 2 || row_index == 5 {
                push_repeated(&mut text, '=', 53);
            } else {
                push_repeated(&mut text, '-', 53);
            }
            text.push('\n');
            row_index += 1;
            assert(text@ =~= head + rows_of_marks(self@, row_index as nat));
        }
        push_repeated(&mut text, '=', 53);
        text.push('\n');
        assert(text@ =~= possibility_text(self@));
        text
    }

    /// Appends one line of the view of the candidates.
    fn posssibilities_inner_loop(&self, text: &mut String, row_index: usize, band: u32)
        requires
            self.repr_ok(),
            row_index < 9,
            band < 3,
        ensures
            final(text)@ == old(text)@ + marks_line(self@, row_index as int, band as int),
    {
        let ghost start = text@;
        text.push('|');
        text.push('|');
        text.push(' ');
        text.push('|');
        let ghost head = text@;
        let mut square_index: usize = 0;
        assert(text@ =~= head + marks_upto(self@, row_index as int, band as int, 0));
        while square_index < 9
            invariant
                row_index < 9,
                band < 3,
                square_index <= 9,
                self.repr_ok(),
                text@ == head + marks_upto(
                    self@,
                    row_index as int,
                    band as int,
                    square_index as nat,
                ),
            decreases 9 - square_index,
        {
            let ghost here = cell(self@, row_index as int, square_index as int);
            proof {
                self.lemma_repr_ok();
                assert(cell_wf(here));
            }
            let square_possibles = self.candidates_at(row_index, square_index);
            let value = self.value_at(row_index, square_index);
            let mut k: u32 = 1;
            let ghost before = text@;
            while k <= 3
                invariant
                    1 <= k <= 4,
                    band < 3,
                    value <= 9,
                    value == here.value,
                    forall|n: u32| #[trigger] square_possibles@.contains(n) <==> here.candidates.contains(n),
                    text@ == before + pencil_marks(here, band as int).take(k - 1),
                decreases 4 - k,
            {
                let i = 3 * band + k;
                if square_possibles.len() == 0 {
                    proof {
                        assert forall|n: u32| !here.candidates.contains(n) by {
                            assert(!square_possibles@.contains(n));
                        }
                        assert(here.candidates =~= Set::<u32>::empty());
                    }
                    text.push(digit_char(value));
                } else {
                    proof {
                        assert(square_possibles@.contains(square_possibles@[0]));
                        assert(here.candidates.contains(square_possibles@[0]));
                    }
                    if vector_contains(&square_possibles, i) {
                        text.push(digit_char(i));
                    } else {
                        text.push(' ');
                    }
                }
                assert(text@ =~= before + pencil_marks(here, band as int).take(k as int));
                k += 1;
            }
            assert(pencil_marks(here, band as int).take(3) =~= pencil_marks(here, band as int));

            if square_index == 2 || square_index == 5 {
                text.push('|');
                text.push(' ');
                text.push('|');
                text.push('|');
                text.push(' ');
                text.push('|');
            } else {
                text.push('|');
            }
            square_index += 1;
            assert(text@ =~= head + marks_upto(
                self@,
                row_index as int,
                band as int,
                square_index as nat,
            ));
        }
        text.push(' ');
        text.push('|');
        text.push('|');
        text.push('\n');
        assert(text@ =~= start + marks_line(self@, row_index as int, band as int));
    }
}

} // verus!
