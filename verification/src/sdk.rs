//! The text form of a puzzle: nine lines of nine characters, a digit for a
//! value and any other character for an unset cell, and a tenth line that
//! nobody reads.

use crate::board::{blank_grid, Board, PlaceError};
use crate::grid::{cell, grid_place, grid_wf, may_place, on_grid, sees, shrinks, Grid};
use crate::square::{cell_wf, full_set, placed_cell, CellView};
use vstd::prelude::*;

verus! {

/// What `char::is_numeric` answers for `c`: whether Unicode counts the
/// character as a number.
pub uninterp spec fn char_is_numeric(c: char) -> bool;

/// `char::is_numeric` depends on the character alone. Which characters it
/// accepts is laid down in the Unicode tables and not restated here.
pub assume_specification[ char::is_numeric ](c: char) -> (r: bool)
    ensures
        r == char_is_numeric(c),
;

/// The value of `c` as a digit or letter: `0` to `9` count 0 to 9, `a` to `z`
/// and `A` to `Z` count 10 to 35, and no other character is a digit.
pub open spec fn digit_value(c: char) -> Option<u32> {
    if '0' <= c <= '9' {
        Some((c as u32 - '0' as u32) as u32)
    } else if 'a' <= c <= 'z' {
        Some((c as u32 - 'a' as u32 + 10) as u32)
    } else if 'A' <= c <= 'Z' {
        Some((c as u32 - 'A' as u32 + 10) as u32)
    } else {
        None
    }
}

/// `char::to_digit` gives the value of a digit of the radix and `None` for
/// every other character. It panics for a radix outside `2..=36`.
pub assume_specification[ char::to_digit ](c: char, radix: u32) -> (r: Option<u32>)
    requires
        2 <= radix <= 36,
    ensures
        r == match digit_value(c) {
            Some(d) => if d < radix {
                Some(d)
            } else {
                None
            },
            None => None,
        },
;

/// `String::push` appends one character.
pub assume_specification[ String::push ](s: &mut String, c: char)
    ensures
        final(s)@ == old(s)@.push(c),
;

/// The lines of `text`: what stands between its line feeds. A text with `n`
/// line feeds has `n + 1` lines, some of them perhaps empty.
pub open spec fn lines(text: Seq<char>) -> Seq<Seq<char>>
    decreases text.len(),
{
    if text.len() == 0 {
        seq![Seq::empty()]
    } else {
        let before = lines(text.drop_last());
        if text.last() == '\n' {
            before.push(Seq::empty())
        } else {
            before.update(before.len() - 1, before.last().push(text.last()))
        }
    }
}

/// The texts of `parts`.
pub open spec fn texts(parts: Seq<Vec<char>>) -> Seq<Seq<char>> {
    Seq::new(parts.len(), |i: int| parts[i]@)
}

/// Splits `text` at its line feeds.
pub fn split_lines(text: &str) -> (r: Vec<Vec<char>>)
    ensures
        texts(r@) == lines(text@),
{
    let mut parts: Vec<Vec<char>> = Vec::new();
    parts.push(Vec::new());
    let ghost mut seen: Seq<char> = Seq::empty();
    assert(texts(parts@) =~= lines(seen));
    for c in it: text.chars()
        invariant
            it.seq() == text@,
            seen == text@.take(it.index() as int),
            texts(parts@) == lines(seen),
            parts.len() >= 1,
    {
        proof {
            assert(c == text@[it.index() as int]);
            seen = seen.push(c);
            assert(seen.drop_last() == text@.take(it.index() as int));
            assert(seen =~= text@.take(it.index() + 1));
        }
        if c == '\n' {
            parts.push(Vec::new());
        } else {
            let last = parts.len() - 1;
            parts[last].push(c);
        }
        assert(texts(parts@) =~= lines(seen));
    }
    assert(text@.take(text@.len() as int) == text@);
    parts
}

/// The character written for an unset cell.
pub const BLANK: char = '.';

/// Why a text is no puzzle.
#[derive(Clone, Copy, Debug, PartialEq, Eq, Structural)]
pub enum IngestError {
    /// The text does not have ten lines.
    LineCount,
    /// One of the first nine lines does not have nine characters.
    LineLength,
    /// A character is a number, but none of the digits 1 to 9.
    BadDigit,
    /// A value stands in a cell that sees the same value.
    Conflict,
}

/// What one character of a row says about its cell.
#[derive(Clone, Copy, Debug, PartialEq, Eq, Structural)]
pub enum Reading {
    /// The cell holds this numeral.
    Value(u32),
    /// The cell is unset.
    Unset,
    /// The character is a number that no cell can hold.
    Garbled,
}

/// How a character is read, given its value as a decimal digit and whether
/// it counts as a number: the digits 1 to 9 are values; 0 and every other
/// number are garbled; the blank and all the rest stand for an unset cell.
pub open spec fn reading_of(c: char, digit: Option<u32>, numeric: bool) -> Reading {
    match digit {
        Some(d) => if 1 <= d <= 9 {
            Reading::Value(d)
        } else {
            Reading::Garbled
        },
        None => if c != BLANK && numeric {
            Reading::Garbled
        } else {
            Reading::Unset
        },
    }
}

/// The value of `c` as a decimal digit.
pub open spec fn decimal_digit(c: char) -> Option<u32> {
    match digit_value(c) {
        Some(d) => if d < 10 {
            Some(d)
        } else {
            None
        },
        None => None,
    }
}

/// How a character is read.
pub open spec fn reading(c: char) -> Reading {
    reading_of(c, decimal_digit(c), char_is_numeric(c))
}

/// Reads a character whose value as a decimal digit is `digit` and which
/// counts as a number if `numeric` says so.
pub fn classify(c: char, digit: Option<u32>, numeric: bool) -> (r: Reading)
    ensures
        r == reading_of(c, digit, numeric),
{
    match digit {
        Some(d) => {
            if 1 <= d && d <= 9 {
                Reading::Value(d)
            } else {
                Reading::Garbled
            }
        },
        None => {
            if c != BLANK && numeric {
                Reading::Garbled
            } else {
                Reading::Unset
            }
        },
    }
}

/// Reads one character of a row.
pub fn read_char(c: char) -> (r: Reading)
    ensures
        r == reading(c),
{
    classify(c, c.to_digit(10), c.is_numeric())
}

/// The value a character stands for, 0 for an unset cell.
pub open spec fn value_of(c: char) -> u32 {
    match reading(c) {
        Reading::Value(v) => v,
        _ => 0,
    }
}

/// The values of one line, or why the line is no row.
pub open spec fn read_row(line: Seq<char>) -> Result<Seq<u32>, IngestError> {
    if line.len() != 9 {
        Err(IngestError::LineLength)
    } else if exists|c: int| 0 <= c < 9 && reading(#[trigger] line[c]) == Reading::Garbled {
        Err(IngestError::BadDigit)
    } else {
        Ok(Seq::new(9, |c: int| value_of(line[c])))
    }
}

/// The values of the first `k` lines, or what is wrong with the first of
/// them that is no row.
pub open spec fn read_rows(lines: Seq<Seq<char>>, k: nat) -> Result<Seq<Seq<u32>>, IngestError>
    decreases k,
{
    if k == 0 {
        Ok(Seq::empty())
    } else {
        match read_rows(lines, (k - 1) as nat) {
            Err(why) => Err(why),
            Ok(rows) => match read_row(lines[k - 1]) {
                Err(why) => Err(why),
                Ok(row) => Ok(rows.push(row)),
            },
        }
    }
}

/// The values a text stands for: it must have ten lines, and each of the
/// first nine must be a row. The tenth line is not looked at.
pub open spec fn read_sdk(text: Seq<char>) -> Result<Seq<Seq<u32>>, IngestError> {
    if lines(text).len() != 10 {
        Err(IngestError::LineCount)
    } else {
        read_rows(lines(text), 9)
    }
}

/// The rows of `table` as sequences.
pub open spec fn table(rows: Seq<Vec<u32>>) -> Seq<Seq<u32>> {
    Seq::new(rows.len(), |i: int| rows[i]@)
}

/// Nine rows of nine values, each a numeral or 0.
pub open spec fn values_shape(values: Seq<Seq<u32>>) -> bool {
    &&& values.len() == 9
    &&& forall|r: int| 0 <= r < 9 ==> (#[trigger] values[r]).len() == 9
    &&& forall|r: int, c: int| 0 <= r < 9 && 0 <= c < 9 ==> #[trigger] values[r][c] <= 9
}

/// What is read from a text has the shape of a grid.
pub proof fn lemma_read_rows_shape(lines: Seq<Seq<char>>, k: nat)
    ensures
        read_rows(lines, k) matches Ok(rows) ==> {
            &&& rows.len() == k
            &&& forall|r: int| 0 <= r < k ==> (#[trigger] rows[r]).len() == 9
            &&& forall|r: int, c: int| 0 <= r < k && 0 <= c < 9 ==> #[trigger] rows[r][c] <= 9
        },
    decreases k,
{
    if k > 0 {
        lemma_read_rows_shape(lines, (k - 1) as nat);
    }
}

/// Reads one line as a row of values.
pub fn parse_row(line: &Vec<char>) -> (r: Result<Vec<u32>, IngestError>)
    ensures
        match r {
            Ok(row) => read_row(line@) == Ok::<Seq<u32>, IngestError>(row@),
            Err(why) => read_row(line@) == Err::<Seq<u32>, IngestError>(why),
        },
{
    if line.len() != 9 {
        return Err(IngestError::LineLength);
    }
    let mut row: Vec<u32> = Vec::new();
    let mut col_index: usize = 0;
    while col_index < 9
        invariant
            col_index <= 9,
            line@.len() == 9,
            row@.len() == col_index,
            forall|c: int| 0 <= c < col_index ==> reading(#[trigger] line@[c]) != Reading::Garbled,
            forall|c: int| 0 <= c < col_index ==> #[trigger] row@[c] == value_of(line@[c]),
        decreases 9 - col_index,
    {
        match read_char(line[col_index]) {
            Reading::Value(digit) => {
                row.push(digit);
            },
            Reading::Unset => {
                row.push(0);
            },
            Reading::Garbled => {
                return Err(IngestError::BadDigit);
            },
        }
        col_index += 1;
    }
    assert(row@ =~= Seq::new(9, |c: int| value_of(line@[c])));
    Ok(row)
}

/// Reads a text as nine rows of nine values, 0 for an unset cell.
pub fn parse_sdk(text: &str) -> (r: Result<Vec<Vec<u32>>, IngestError>)
    ensures
        match r {
            Ok(rows) => read_sdk(text@) == Ok::<Seq<Seq<u32>>, IngestError>(table(rows@))
                && values_shape(table(rows@)),
            Err(why) => read_sdk(text@) == Err::<Seq<Seq<u32>>, IngestError>(why),
        },
{
    let string_parts = split_lines(text);
    if string_parts.len() != 10 {
        return Err(IngestError::LineCount);
    }
    let ghost all = lines(text@);
    let mut rows: Vec<Vec<u32>> = Vec::new();
    let mut row_index: usize = 0;
    assert(table(rows@) =~= Seq::<Seq<u32>>::empty());
    while row_index < 9
        invariant
            row_index <= 9,
            all == lines(text@),
            all == texts(string_parts@),
            string_parts@.len() == 10,
            read_rows(all, row_index as nat) == Ok::<Seq<Seq<u32>>, IngestError>(table(rows@)),
        decreases 9 - row_index,
    {
        let ghost before = table(rows@);
        assert(all[row_index as int] == string_parts@[row_index as int]@);
        match parse_row(&string_parts[row_index]) {
            Ok(row) => {
                rows.push(row);
                assert(table(rows@) =~= before.push(row@));
            },
            Err(why) => {
                proof {
                    assert(read_row(all[row_index as int]) == Err::<Seq<u32>, IngestError>(why));
                    assert(read_rows(all, (row_index + 1) as nat) == Err::<
                        Seq<Seq<u32>>,
                        IngestError,
                    >(why));
                    lemma_read_rows_fail(all, (row_index + 1) as nat, 9);
                }
                return Err(why);
            },
        }
        row_index += 1;
    }
    proof {
        lemma_read_rows_shape(all, 9);
    }
    Ok(rows)
}

/// Once a line is no row, the lines after it are not read.
pub proof fn lemma_read_rows_fail(lines: Seq<Seq<char>>, k: nat, m: nat)
    requires
        k <= m,
        read_rows(lines, k) is Err,
    ensures
        read_rows(lines, m) == read_rows(lines, k),
    decreases m,
{
    if k < m {
        lemma_read_rows_fail(lines, k, (m - 1) as nat);
    }
}

/// The entry of a table of values at `(row, col)`.
pub open spec fn entry(values: Seq<Seq<u32>>, row: int, col: int) -> u32 {
    values[row][col]
}

/// The values that stand in the grid, 0 for an unset cell.
pub open spec fn values_of(g: Grid) -> Seq<Seq<u32>> {
    Seq::new(9, |r: int| Seq::new(9, |c: int| cell(g, r, c).value))
}

/// Whether `value` stands in a cell that sees `(row, col)`.
pub open spec fn seen_value(values: Seq<Seq<u32>>, row: int, col: int, value: u32) -> bool {
    exists|r: int, c: int|
        on_grid(r, c) && sees(row, col, r, c) && #[trigger] entry(values, r, c) == value
}

/// No two cells that see each other hold the same numeral.
pub open spec fn consistent(values: Seq<Seq<u32>>) -> bool {
    forall|r: int, c: int, r2: int, c2: int|
        #![trigger entry(values, r, c), entry(values, r2, c2)]
        on_grid(r, c) && on_grid(r2, c2) && sees(r, c, r2, c2) && entry(values, r, c) != 0
            ==> entry(values, r, c) != entry(values, r2, c2)
}

/// The numerals that stand in no cell that sees `(row, col)`.
pub open spec fn unseen(values: Seq<Seq<u32>>, row: int, col: int) -> Set<u32> {
    Set::new(|v: u32| 1 <= v <= 9 && !seen_value(values, row, col, v))
}

/// The grid that follows from the values alone: a cell with a value holds
/// it, and the candidates of an unset cell are the numerals that stand in no
/// cell it sees.
pub open spec fn derived(values: Seq<Seq<u32>>) -> Grid {
    Seq::new(
        9,
        |r: int|
            Seq::new(
                9,
                |c: int|
                    if entry(values, r, c) != 0 {
                        placed_cell(entry(values, r, c))
                    } else {
                        CellView { value: 0, candidates: unseen(values, r, c) }
                    },
            ),
    )
}

/// The table with only its first `k` values, counted row by row.
pub open spec fn first_values(values: Seq<Seq<u32>>, k: int) -> Seq<Seq<u32>> {
    Seq::new(
        9,
        |r: int|
            Seq::new(
                9,
                |c: int|
                    if r * 9 + c < k {
                        entry(values, r, c)
                    } else {
                        0u32
                    },
            ),
    )
}

/// Placing a value on the grid derived from a table gives the grid derived
/// from the table with that value entered.
pub proof fn lemma_derived_place(
    m0: Seq<Seq<u32>>,
    m1: Seq<Seq<u32>>,
    row: int,
    col: int,
    v: u32,
)
    requires
        on_grid(row, col),
        entry(m0, row, col) == 0,
        v != 0,
        forall|r: int, c: int|
            on_grid(r, c) ==> #[trigger] entry(m1, r, c) == if r == row && c == col {
                v
            } else {
                entry(m0, r, c)
            },
    ensures
        grid_place(derived(m0), row, col, v) == derived(m1),
{
    let g0 = derived(m0);
    let h = grid_place(g0, row, col, v);
    let g1 = derived(m1);
    assert forall|r: int| 0 <= r < 9 implies #[trigger] h[r] == g1[r] by {
        assert forall|c: int| 0 <= c < 9 implies #[trigger] h[r][c] == g1[r][c] by {
            assert(on_grid(r, c));
            if r == row && c == col {
            } else if entry(m0, r, c) != 0 {
                assert(cell(g0, r, c).candidates.remove(v) =~= Set::<u32>::empty());
            } else if sees(row, col, r, c) {
                assert forall|u: u32|
                    unseen(m0, r, c).remove(v).contains(u) <==> unseen(m1, r, c).contains(u) by {
                    if seen_value(m1, r, c, u) && u != v {
                        let (a, b) = choose|a: int, b: int|
                            on_grid(a, b) && sees(r, c, a, b) && #[trigger] entry(m1, a, b) == u;
                        assert(entry(m0, a, b) == u);
                    }
                    if seen_value(m0, r, c, u) && 1 <= u {
                        let (a, b) = choose|a: int, b: int|
                            on_grid(a, b) && sees(r, c, a, b) && #[trigger] entry(m0, a, b) == u;
                        assert(entry(m1, a, b) == u);
                    }
                    if u == v {
                        assert(sees(r, c, row, col));
                        assert(entry(m1, row, col) == v);
                    }
                }
                assert(unseen(m0, r, c).remove(v) =~= unseen(m1, r, c));
            } else {
                assert forall|u: u32|
                    unseen(m0, r, c).contains(u) <==> unseen(m1, r, c).contains(u) by {
                    if seen_value(m1, r, c, u) {
                        let (a, b) = choose|a: int, b: int|
                            on_grid(a, b) && sees(r, c, a, b) && #[trigger] entry(m1, a, b) == u;
                        assert(entry(m0, a, b) == u);
                    }
                    if seen_value(m0, r, c, u) {
                        let (a, b) = choose|a: int, b: int|
                            on_grid(a, b) && sees(r, c, a, b) && #[trigger] entry(m0, a, b) == u;
                        assert(entry(m1, a, b) == u);
                    }
                }
                assert(unseen(m0, r, c) =~= unseen(m1, r, c));
            }
        }
        assert(h[r] =~= g1[r]);
    }
    assert(h =~= g1);
}

/// Placing the next value of a table on the grid derived from the values
/// before it gives the grid derived from the values up to it.
pub proof fn lemma_derived_step(values: Seq<Seq<u32>>, row: int, col: int)
    requires
        on_grid(row, col),
        entry(values, row, col) != 0,
    ensures
        grid_place(
            derived(first_values(values, row * 9 + col)),
            row,
            col,
            entry(values, row, col),
        ) == derived(first_values(values, row * 9 + col + 1)),
{
    let k = row * 9 + col;
    let m0 = first_values(values, k);
    let m1 = first_values(values, k + 1);
    assert forall|r: int, c: int| on_grid(r, c) implies #[trigger] entry(m1, r, c) == if r == row
        && c == col {
        entry(values, row, col)
    } else {
        entry(m0, r, c)
    } by {}
    lemma_derived_place(m0, m1, row, col, entry(values, row, col));
}

/// A grid that follows from its values alone still does so after a
/// placement: on a board that was filled by placements only, the candidates
/// are the numerals that no value excludes.
pub proof fn lemma_place_keeps_derived(g: Grid, row: int, col: int, value: u32)
    requires
        g == derived(values_of(g)),
        on_grid(row, col),
        may_place(g, row, col, value),
    ensures
        grid_place(g, row, col, value) == derived(values_of(grid_place(g, row, col, value))),
{
    let m0 = values_of(g);
    let m1 = values_of(grid_place(g, row, col, value));
    assert(entry(m0, row, col) == 0);
    assert(cell(g, row, col).candidates == unseen(m0, row, col));
    assert forall|r: int, c: int| on_grid(r, c) implies #[trigger] entry(m1, r, c) == if r == row
        && c == col {
        value
    } else {
        entry(m0, r, c)
    } by {}
    lemma_derived_place(m0, m1, row, col, value);
}

/// The blank grid follows from its values alone.
pub proof fn lemma_blank_is_derived()
    ensures
        blank_grid() == derived(values_of(blank_grid())),
{
    let m = values_of(blank_grid());
    lemma_derived_blank(m);
    let z = first_values(m, 0);
    assert forall|r: int| 0 <= r < 9 implies #[trigger] z[r] == m[r] by {
        assert(z[r] =~= m[r]);
    }
    assert(z =~= m);
}

/// With no value in it, the derived grid is the blank grid.
pub proof fn lemma_derived_blank(values: Seq<Seq<u32>>)
    ensures
        derived(first_values(values, 0)) == blank_grid(),
{
    let m = first_values(values, 0);
    let g = derived(m);
    assert forall|r: int| 0 <= r < 9 implies #[trigger] g[r] == blank_grid()[r] by {
        assert forall|c: int| 0 <= c < 9 implies #[trigger] g[r][c] == blank_grid()[r][c] by {
            assert(entry(m, r, c) == 0);
            assert forall|u: u32| unseen(m, r, c).contains(u) <==> full_set().contains(u) by {
                if seen_value(m, r, c, u) && 1 <= u {
                    let (a, b) = choose|a: int, b: int|
                        on_grid(a, b) && sees(r, c, a, b) && #[trigger] entry(m, a, b) == u;
                    assert(false);
                }
            }
            assert(unseen(m, r, c) =~= full_set());
        }
        assert(g[r] =~= blank_grid()[r]);
    }
    assert(g =~= blank_grid());
}

impl Board {
    /// Clears the board and places the values of the table on it, row by
    /// row. If a value stands in a cell that sees the same value, the board
    /// is left cleared.
    pub fn fill(&mut self, values: &Vec<Vec<u32>>) -> (r: Result<(), IngestError>)
        requires
            old(self).repr_ok(),
            values_shape(table(values@)),
        ensures
            final(self).wf(),
            r is Ok <==> consistent(table(values@)),
            r matches Err(why) ==> why == IngestError::Conflict,
            final(self)@ == if r is Ok {
                derived(table(values@))
            } else {
                blank_grid()
            },
    {
        let ghost vals = table(values@);
        self.clear_squares();
        proof {
            lemma_derived_blank(vals);
        }
        let mut row_index: usize = 0;
        while row_index < 9
            invariant
                row_index <= 9,
                vals == table(values@),
                values_shape(vals),
                self.wf(),
                self@ == derived(first_values(vals, row_index * 9)),
                consistent(first_values(vals, row_index * 9)),
            decreases 9 - row_index,
        {
            let mut col_index: usize = 0;
            while col_index < 9
                invariant
                    row_index < 9,
                    col_index <= 9,
                    vals == table(values@),
                    values_shape(vals),
                    self.wf(),
                    self@ == derived(first_values(vals, row_index * 9 + col_index)),
                    consistent(first_values(vals, row_index * 9 + col_index)),
                decreases 9 - col_index,
            {
                let ghost row = row_index as int;
                let ghost col = col_index as int;
                let ghost k = row * 9 + col;
                let ghost m0 = first_values(vals, k);
                let ghost m1 = first_values(vals, k + 1);
                assert(vals[row] == values@[row]@);
                let value = values[row_index][col_index];
                proof {
                    assert(value == entry(vals, row, col));
                    assert(value <= 9);
                    assert forall|r: int, c: int| on_grid(r, c) implies #[trigger] entry(m1, r, c)
                        == if r == row && c == col {
                        value
                    } else {
                        entry(m0, r, c)
                    } by {}
                    assert(entry(m0, row, col) == 0);
                }
                if value != 0 {
                    match self.set_square(row_index, col_index, value) {
                        Ok(_) => {
                            proof {
                                lemma_derived_step(vals, row, col);
                                assert(!seen_value(m0, row, col, value));
                                assert forall|r: int, c: int, r2: int, c2: int|
                                    #![trigger entry(m1, r, c), entry(m1, r2, c2)]
                                    on_grid(r, c) && on_grid(r2, c2) && sees(r, c, r2, c2)
                                        && entry(m1, r, c) != 0 implies entry(m1, r, c) != entry(
                                    m1,
                                    r2,
                                    c2,
                                ) by {
                                    if r == row && c == col {
                                        if entry(m1, r2, c2) == value {
                                            assert(entry(m0, r2, c2) == value);
                                        }
                                    } else if r2 == row && c2 == col {
                                        if entry(m1, r, c) == value {
                                            assert(sees(row, col, r, c));
                                            assert(entry(m0, r, c) == value);
                                        }
                                    } else {
                                        assert(entry(m0, r, c) != entry(m0, r2, c2));
                                    }
                                }
                            }
                        },
                        Err(why) => {
                            proof {
                                assert(why == PlaceError::NotPossible);
                                assert(seen_value(m0, row, col, value));
                                let (a, b) = choose|a: int, b: int|
                                    on_grid(a, b) && sees(row, col, a, b) && #[trigger] entry(
                                        m0,
                                        a,
                                        b,
                                    ) == value;
                                assert(entry(vals, a, b) == value);
                                assert(entry(vals, row, col) == value);
                            }
                            self.clear_squares();
                            return Err(IngestError::Conflict);
                        },
                    }
                } else {
                    proof {
                        assert forall|r: int| 0 <= r < 9 implies #[trigger] m1[r] == m0[r] by {
                            assert forall|c: int| 0 <= c < 9 implies #[trigger] m1[r][c]
                                == m0[r][c] by {
                                assert(entry(m1, r, c) == entry(m0, r, c));
                            }
                            assert(m1[r] =~= m0[r]);
                        }
                        assert(m1 =~= m0);
                    }
                }
                col_index += 1;
            }
            row_index += 1;
        }
        proof {
            let m = first_values(vals, 81);
            assert forall|r: int| 0 <= r < 9 implies #[trigger] m[r] == vals[r] by {
                assert(m[r] =~= vals[r]);
            }
            assert(m =~= vals);
        }
        Ok(())
    }
}

/// What reading `text` into a board answers: what is wrong with the text,
/// or `Conflict` where a value stands in a cell that sees the same value.
pub open spec fn ingest_answer(text: Seq<char>) -> Result<(), IngestError> {
    match read_sdk(text) {
        Err(why) => Err(why),
        Ok(values) => if consistent(values) {
            Ok(())
        } else {
            Err(IngestError::Conflict)
        },
    }
}

/// The grid after reading `text` into a board: the grid that follows from
/// its values, or the blank grid if the text is refused.
pub open spec fn ingest_grid(text: Seq<char>) -> Grid {
    match read_sdk(text) {
        Err(why) => blank_grid(),
        Ok(values) => if consistent(values) {
            derived(values)
        } else {
            blank_grid()
        },
    }
}

/// The character written for a cell with value `value`.
pub open spec fn glyph(value: u32) -> char {
    if 1 <= value <= 9 {
        ((48 + value) as u8) as char
    } else {
        BLANK
    }
}

/// The text of a table of values: nine lines of nine characters, each ended
/// by a line feed, so that an empty tenth line follows.
pub open spec fn sdk_text(values: Seq<Seq<u32>>) -> Seq<char> {
    Seq::new(
        90,
        |i: int|
            if i % 10 == 9 {
                '\n'
            } else {
                glyph(entry(values, i / 10, i % 10))
            },
    )
}

/// Writes the character for a cell with value `value`.
pub fn write_char(value: u32) -> (r: char)
    ensures
        r == glyph(value),
{
    if 1 <= value && value <= 9 {
        ((48 + value) as u8) as char
    } else {
        BLANK
    }
}

impl Board {
    /// Reads `text` into the board. Whatever was on the board is gone. If
    /// the text is refused, the board is left cleared.
    pub fn ingest_sdk_text(&mut self, text: &str) -> (r: Result<(), IngestError>)
        requires
            old(self).repr_ok(),
        ensures
            final(self).wf(),
            r == ingest_answer(text@),
            final(self)@ == ingest_grid(text@),
    {
        match parse_sdk(text) {
            Ok(values) => {
                match self.fill(&values) {
                    Ok(()) => Ok(()),
                    Err(why) => Err(why),
                }
            },
            Err(why) => {
                self.clear_squares();
                Err(why)
            },
        }
    }

    /// The text of the board: nine lines of nine characters, a digit for a
    /// value and the blank for an unset cell, and an empty tenth line.
    pub fn generate_string_of_self(&self) -> (r: String)
        ensures
            r@ == sdk_text(values_of(self@)),
    {
        let mut text = String::new();
        let mut row_index: usize = 0;
        while row_index < 9
            invariant
                row_index <= 9,
                text@ == sdk_text(values_of(self@)).take(row_index * 10),
            decreases 9 - row_index,
        {
            let mut col_index: usize = 0;
            while col_index < 9
                invariant
                    row_index < 9,
                    col_index <= 9,
                    text@ == sdk_text(values_of(self@)).take(row_index * 10 + col_index),
                decreases 9 - col_index,
            {
                let ghost i = row_index * 10 + col_index;
                text.push(write_char(self.value_at(row_index, col_index)));
                proof {
                    assert(i / 10 == row_index as int && i % 10 == col_index as int);
                    assert(text@ =~= sdk_text(values_of(self@)).take(i + 1));
                }
                col_index += 1;
            }
            text.push('\n');
            proof {
                let i = row_index * 10 + 9;
                assert(i % 10 == 9);
                assert(text@ =~= sdk_text(values_of(self@)).take(i + 1));
            }
            row_index += 1;
        }
        assert(sdk_text(values_of(self@)).take(90) =~= sdk_text(values_of(self@)));
        text
    }
}

/// The characters written for row `row` of a table.
pub open spec fn row_text(values: Seq<Seq<u32>>, row: int) -> Seq<char> {
    Seq::new(9, |c: int| glyph(entry(values, row, c)))
}

/// The character written for a value is read as that value.
pub proof fn lemma_reading_glyph(value: u32)
    requires
        value <= 9,
    ensures
        reading(glyph(value)) == if value == 0 {
            Reading::Unset
        } else {
            Reading::Value(value)
        },
        value_of(glyph(value)) == value,
{
}

/// The lines of the first `i` characters of a written table: the rows that
/// are complete, and the beginning of the next.
pub proof fn lemma_lines_of_sdk_text(values: Seq<Seq<u32>>, i: nat)
    requires
        i <= 90,
    ensures
        lines(sdk_text(values).take(i as int)) == Seq::new(
            (i / 10 + 1) as nat,
            |j: int|
                if j < i / 10 {
                    row_text(values, j)
                } else {
                    row_text(values, j).take((i % 10) as int)
                },
        ),
    decreases i,
{
    let text = sdk_text(values);
    let goal = Seq::new(
        (i / 10 + 1) as nat,
        |j: int|
            if j < i / 10 {
                row_text(values, j)
            } else {
                row_text(values, j).take((i % 10) as int)
            },
    );
    if i == 0 {
        assert(text.take(0).len() == 0);
        assert(goal =~= seq![Seq::<char>::empty()]) by {
            assert(goal.len() == 1);
            assert(goal[0] =~= Seq::<char>::empty());
        }
    } else {
        let p = i - 1;
        lemma_lines_of_sdk_text(values, p as nat);
        let shorter = text.take(p);
        let longer = text.take(i as int);
        assert(longer.drop_last() =~= shorter);
        assert(longer.last() == text[p]);
        let before = lines(shorter);
        if p % 10 == 9 {
            assert(i / 10 == p / 10 + 1 && i % 10 == 0);
            assert(lines(longer) == before.push(Seq::empty()));
            assert(lines(longer).len() == goal.len());
            assert forall|j: int| 0 <= j < goal.len() implies #[trigger] lines(longer)[j]
                == goal[j] by {
                if j < p / 10 {
                } else if j == p / 10 {
                    assert(row_text(values, j).take(9) =~= row_text(values, j));
                } else {
                    assert(goal[j] =~= Seq::<char>::empty());
                }
            }
            assert(lines(longer) =~= goal);
        } else {
            assert(i / 10 == p / 10 && i % 10 == p % 10 + 1);
            assert(text[p] == glyph(entry(values, p / 10, p % 10)));
            assert(glyph(entry(values, p / 10, p % 10)) != '\n');
            assert(lines(longer) == before.update(
                before.len() - 1,
                before.last().push(longer.last()),
            ));
            assert forall|j: int| 0 <= j < goal.len() implies #[trigger] lines(longer)[j]
                == goal[j] by {
                if j == p / 10 {
                    assert(row_text(values, j).take(p % 10 + 1) =~= row_text(
                        values,
                        j,
                    ).take(p % 10).push(glyph(entry(values, p / 10, p % 10))));
                }
            }
            assert(lines(longer) =~= goal);
        }
    }
}

/// The written rows of a table are read back as its rows.
pub proof fn lemma_read_rows_of_text(values: Seq<Seq<u32>>, lines: Seq<Seq<char>>, k: nat)
    requires
        values_shape(values),
        k <= 9,
        forall|j: int| 0 <= j < k ==> #[trigger] lines[j] == row_text(values, j),
    ensures
        read_rows(lines, k) == Ok::<Seq<Seq<u32>>, IngestError>(values.take(k as int)),
    decreases k,
{
    if k == 0 {
        assert(values.take(0) =~= Seq::<Seq<u32>>::empty());
    } else {
        lemma_read_rows_of_text(values, lines, (k - 1) as nat);
        let line = lines[k - 1];
        assert(line == row_text(values, k - 1));
        assert forall|c: int| 0 <= c < 9 implies reading(#[trigger] line[c]) != Reading::Garbled
            && value_of(line[c]) == entry(values, k - 1, c) by {
            assert(entry(values, k - 1, c) <= 9);
            lemma_reading_glyph(entry(values, k - 1, c));
        }
        assert(Seq::new(9, |c: int| value_of(line[c])) =~= values[k - 1]);
        assert(values.take(k as int) =~= values.take(k - 1).push(values[k - 1]));
    }
}

/// A table of values that is written and read again is the same table.
pub proof fn lemma_read_sdk_of_text(values: Seq<Seq<u32>>)
    requires
        values_shape(values),
    ensures
        read_sdk(sdk_text(values)) == Ok::<Seq<Seq<u32>>, IngestError>(values),
{
    let text = sdk_text(values);
    lemma_lines_of_sdk_text(values, 90);
    assert(text.take(90) =~= text);
    lemma_read_rows_of_text(values, lines(text), 9);
    assert(values.take(9) =~= values);
}

/// The values of a well-formed grid form a table in which no two cells that
/// see each other hold the same numeral, and no cell of the grid has a
/// candidate that the grid derived from its values lacks.
pub proof fn lemma_values_of_wf(g: Grid)
    requires
        grid_wf(g),
    ensures
        values_shape(values_of(g)),
        consistent(values_of(g)),
        values_of(derived(values_of(g))) == values_of(g),
        shrinks(derived(values_of(g)), g),
{
    let vals = values_of(g);
    let d = derived(vals);
    assert forall|r: int, c: int| 0 <= r < 9 && 0 <= c < 9 implies #[trigger] vals[r][c] <= 9 by {
        assert(cell_wf(cell(g, r, c)));
    }
    assert forall|r: int, c: int, r2: int, c2: int|
        #![trigger entry(vals, r, c), entry(vals, r2, c2)]
        on_grid(r, c) && on_grid(r2, c2) && sees(r, c, r2, c2) && entry(vals, r, c)
            != 0 implies entry(vals, r, c) != entry(vals, r2, c2) by {
        assert(cell(g, r, c).value != cell(g, r2, c2).value);
    }
    assert forall|r: int| 0 <= r < 9 implies #[trigger] values_of(d)[r] == vals[r] by {
        assert(values_of(d)[r] =~= vals[r]);
    }
    assert(values_of(d) =~= vals);
    assert forall|r: int, c: int| on_grid(r, c) implies (#[trigger] cell(
        g,
        r,
        c,
    )).candidates.subset_of(cell(d, r, c).candidates) by {
        assert(cell_wf(cell(g, r, c)));
        assert forall|v: u32| cell(g, r, c).candidates.contains(v) implies cell(
            d,
            r,
            c,
        ).candidates.contains(v) by {
            assert(full_set().contains(v));
            assert(entry(vals, r, c) == 0);
            if seen_value(vals, r, c, v) {
                let (a, b) = choose|a: int, b: int|
                    on_grid(a, b) && sees(r, c, a, b) && #[trigger] entry(vals, a, b) == v;
                assert(cell(g, a, b).value == v);
                assert(!cell(g, r, c).candidates.contains(cell(g, a, b).value));
            }
        }
    }
}

/// Writing a board and reading the text again succeeds and gives a board
/// with the same values. Its candidates follow from the values alone, so
/// every candidate of the written board is a candidate of the board read,
/// and a board that was filled by placements only is read back as it was.
pub proof fn lemma_round_trip(g: Grid)
    requires
        grid_wf(g),
    ensures
        ingest_answer(sdk_text(values_of(g))) == Ok::<(), IngestError>(()),
        ingest_grid(sdk_text(values_of(g))) == derived(values_of(g)),
        values_of(ingest_grid(sdk_text(values_of(g)))) == values_of(g),
        shrinks(ingest_grid(sdk_text(values_of(g))), g),
        g == derived(values_of(g)) ==> ingest_grid(sdk_text(values_of(g))) == g,
{
    lemma_values_of_wf(g);
    lemma_read_sdk_of_text(values_of(g));
}

} // verus!
