//! What the deduction rules do to a grid, stated over the model.
//!
//! A rule looks at one cell and either leaves the grid alone, places a value,
//! prunes candidates, or finds that the puzzle contradicts itself.

use crate::collection::{without_candidate, without_candidates};
use crate::grid::{
    all_set, candidate_count, cell, cells_wf, grid_place, grid_wf, lemma_candidates_among_lost,
    lemma_candidates_among_shrinks, lemma_place_keeps_wf, lemma_place_shrinks,
    lemma_pruned_keeps_wf, may_place, on_grid, pruned, same_block, shrinks, Grid,
};
use crate::square::{cell_wf, full_set, lemma_full_set};
use vstd::prelude::*;

verus! {

/// A state from which no solution can follow. Deduction stops there.
#[derive(Clone, Copy, Debug, PartialEq, Eq, Structural)]
pub enum Contradiction {
    /// An unset cell has no candidate left.
    NoCandidates,
    /// More cells of a group are confined to the same numerals than there
    /// are numerals to give them.
    CrowdedTuple,
}

/// The deduction rules.
#[derive(Clone, Copy, Debug, PartialEq, Eq, Structural)]
pub enum Rule {
    /// A cell with a single candidate takes it.
    NakedSingle,
    /// A cell takes a numeral that no other cell of its row, of its column or
    /// of its block can take.
    HiddenSingle,
    /// As many cells of a group as they have candidates, all with the same
    /// candidates, keep those numerals for themselves.
    NakedNple(usize),
}

/// The three kinds of group a cell belongs to.
#[derive(Clone, Copy, Debug, PartialEq, Eq, Structural)]
pub enum Group {
    Row,
    Column,
    Cube,
}

/// The grid a rule leaves behind, and its answer: whether it changed
/// anything, or the contradiction it met.
pub struct Outcome {
    pub grid: Grid,
    pub answer: Result<bool, Contradiction>,
}

/// The rule had nothing to do.
pub open spec fn untouched(g: Grid) -> Outcome {
    Outcome { grid: g, answer: Ok(false) }
}

/// The rule met a contradiction.
pub open spec fn refuted(g: Grid, why: Contradiction) -> Outcome {
    Outcome { grid: g, answer: Err(why) }
}

/// The rule placed `value` at `(row, col)`.
pub open spec fn placed(g: Grid, row: int, col: int, value: u32) -> Outcome {
    Outcome { grid: grid_place(g, row, col, value), answer: Ok(true) }
}

/// The cell is unset and has no candidate left.
pub open spec fn stuck(g: Grid, row: int, col: int) -> bool {
    cell(g, row, col).value == 0 && cell(g, row, col).candidates == Set::<u32>::empty()
}

/// Naked single: an unset cell with exactly one candidate takes it.
pub open spec fn naked_single_step(g: Grid, row: int, col: int) -> Outcome {
    let here = cell(g, row, col);
    if here.value != 0 {
        untouched(g)
    } else if stuck(g, row, col) {
        refuted(g, Contradiction::NoCandidates)
    } else if here.candidates.len() == 1 {
        placed(g, row, col, here.candidates.choose())
    } else {
        untouched(g)
    }
}

/// No other cell of the row has `value` as a candidate.
pub open spec fn alone_in_row(g: Grid, row: int, col: int, value: u32) -> bool {
    forall|c: int| 0 <= c < 9 && c != col ==> !(#[trigger] cell(g, row, c)).candidates.contains(value)
}

/// No other cell of the column has `value` as a candidate.
pub open spec fn alone_in_col(g: Grid, row: int, col: int, value: u32) -> bool {
    forall|r: int| 0 <= r < 9 && r != row ==> !(#[trigger] cell(g, r, col)).candidates.contains(value)
}

/// No other cell of the block has `value` as a candidate.
pub open spec fn alone_in_cube(g: Grid, row: int, col: int, value: u32) -> bool {
    forall|r: int, c: int|
        on_grid(r, c) && same_block(row, col, r, c) && !(r == row && c == col) ==> !(#[trigger] cell(
            g,
            r,
            c,
        )).candidates.contains(value)
}

/// `value` is a candidate of the cell, and in its row, in its column or in
/// its block it is a candidate of no other cell.
pub open spec fn only_place(g: Grid, row: int, col: int, value: u32) -> bool {
    cell(g, row, col).candidates.contains(value) && (alone_in_row(g, row, col, value)
        || alone_in_col(g, row, col, value) || alone_in_cube(g, row, col, value))
}

/// The least numeral from `from` on that has its only place at `(row, col)`.
pub open spec fn first_only_place(g: Grid, row: int, col: int, from: nat) -> Option<u32>
    decreases 10 - from,
{
    if from > 9 {
        None
    } else if only_place(g, row, col, from as u32) {
        Some(from as u32)
    } else {
        first_only_place(g, row, col, from + 1)
    }
}

/// Hidden single: an unset cell takes the least numeral that has its only
/// place there.
pub open spec fn hidden_single_step(g: Grid, row: int, col: int) -> Outcome {
    if cell(g, row, col).value != 0 {
        untouched(g)
    } else if stuck(g, row, col) {
        refuted(g, Contradiction::NoCandidates)
    } else {
        match first_only_place(g, row, col, 1) {
            Some(value) => placed(g, row, col, value),
            None => untouched(g),
        }
    }
}

/// `first_only_place` finds `value` if it is the least numeral from `from`
/// on with its only place at the cell.
pub proof fn lemma_first_only_place_found(g: Grid, row: int, col: int, from: nat, value: u32)
    requires
        1 <= from <= value <= 9,
        only_place(g, row, col, value),
        forall|u: u32| from <= u < value ==> !#[trigger] only_place(g, row, col, u),
    ensures
        first_only_place(g, row, col, from) == Some(value),
    decreases value - from,
{
    if from < value {
        assert(!only_place(g, row, col, from as u32));
        lemma_first_only_place_found(g, row, col, from + 1, value);
    }
}

/// `first_only_place` finds nothing if no numeral from `from` on has its
/// only place at the cell.
pub proof fn lemma_first_only_place_none(g: Grid, row: int, col: int, from: nat)
    requires
        1 <= from,
        forall|u: u32| from <= u <= 9 ==> !#[trigger] only_place(g, row, col, u),
    ensures
        first_only_place(g, row, col, from) is None,
    decreases 10 - from,
{
    if from <= 9 {
        assert(!only_place(g, row, col, from as u32));
        lemma_first_only_place_none(g, row, col, from + 1);
    }
}

/// Whether `(r, c)` lies in the group of kind `kind` through `(row, col)`.
pub open spec fn in_group(kind: Group, row: int, col: int, r: int, c: int) -> bool {
    match kind {
        Group::Row => r == row,
        Group::Column => c == col,
        Group::Cube => same_block(row, col, r, c),
    }
}

/// The `i`-th cell of the group of kind `kind` through `(row, col)`: a row
/// runs left to right, a column top to bottom, a block row by row.
pub open spec fn member(kind: Group, row: int, col: int, i: int) -> (int, int) {
    match kind {
        Group::Row => (row, i),
        Group::Column => (i, col),
        Group::Cube => ((row / 3) * 3 + i / 3, (col / 3) * 3 + i % 3),
    }
}

/// The place of `(r, c)` in its group of kind `kind`.
pub open spec fn slot(kind: Group, r: int, c: int) -> int {
    match kind {
        Group::Row => c,
        Group::Column => r,
        Group::Cube => (r % 3) * 3 + c % 3,
    }
}

/// The grid after every cell of the group but the one in place `index` has
/// lost `value` as a candidate.
pub open spec fn group_eliminated(
    g: Grid,
    kind: Group,
    row: int,
    col: int,
    index: int,
    value: u32,
) -> Grid {
    Seq::new(
        9,
        |r: int|
            Seq::new(
                9,
                |c: int|
                    if in_group(kind, row, col, r, c) && slot(kind, r, c) != index {
                        without_candidate(cell(g, r, c), value)
                    } else {
                        cell(g, r, c)
                    },
            ),
    )
}

/// Whether a cell of the group other than the one in place `index` has
/// `value` as a candidate.
pub open spec fn group_lists_elsewhere(
    g: Grid,
    kind: Group,
    row: int,
    col: int,
    index: int,
    value: u32,
) -> bool {
    exists|r: int, c: int|
        on_grid(r, c) && in_group(kind, row, col, r, c) && slot(kind, r, c) != index && (
        #[trigger] cell(g, r, c)).candidates.contains(value)
}

/// Whether the cell in place `index` is the only one of the group that has
/// `value` as a candidate.
pub open spec fn group_lists_only_at(
    g: Grid,
    kind: Group,
    row: int,
    col: int,
    index: int,
    value: u32,
) -> bool {
    &&& 0 <= index < 9
    &&& forall|r: int, c: int|
        on_grid(r, c) && in_group(kind, row, col, r, c) ==> ((#[trigger] cell(
            g,
            r,
            c,
        )).candidates.contains(value) <==> slot(kind, r, c) == index)
}

/// The cell is unset and its candidates are exactly `numerals`.
pub open spec fn twin(g: Grid, r: int, c: int, numerals: Set<u32>) -> bool {
    cell(g, r, c).value == 0 && cell(g, r, c).candidates == numerals
}

/// How many of the first `k` cells of the group are unset with exactly the
/// candidates `numerals`.
pub open spec fn twins_among(
    g: Grid,
    kind: Group,
    row: int,
    col: int,
    numerals: Set<u32>,
    k: nat,
) -> nat
    decreases k,
{
    if k == 0 {
        0
    } else {
        let at = member(kind, row, col, k - 1);
        twins_among(g, kind, row, col, numerals, (k - 1) as nat) + if twin(
            g,
            at.0,
            at.1,
            numerals,
        ) {
            1nat
        } else {
            0nat
        }
    }
}

/// The grid after the cells of the group that are no twins have lost
/// `numerals` as candidates.
pub open spec fn tuple_pruned(g: Grid, kind: Group, row: int, col: int, numerals: Set<u32>) -> Grid {
    Seq::new(
        9,
        |r: int|
            Seq::new(
                9,
                |c: int|
                    if in_group(kind, row, col, r, c) && !twin(g, r, c, numerals) {
                        without_candidates(cell(g, r, c), numerals)
                    } else {
                        cell(g, r, c)
                    },
            ),
    )
}

/// Whether a cell of the group that is no twin has one of `numerals` as a
/// candidate.
pub open spec fn tuple_prunes(g: Grid, kind: Group, row: int, col: int, numerals: Set<u32>) -> bool {
    exists|r: int, c: int|
        on_grid(r, c) && in_group(kind, row, col, r, c) && !twin(g, r, c, numerals) && !(#[trigger] cell(
            g,
            r,
            c,
        )).candidates.disjoint(numerals)
}

/// The naked n-ple rule in one group, for a cell with `n` candidates: with
/// more than `n` twins in the group the puzzle contradicts itself; with
/// exactly `n` the other cells of the group lose those candidates.
pub open spec fn tuple_step(g: Grid, kind: Group, row: int, col: int, n: nat) -> Outcome {
    let numerals = cell(g, row, col).candidates;
    let twins = twins_among(g, kind, row, col, numerals, 9);
    if twins > n {
        refuted(g, Contradiction::CrowdedTuple)
    } else if twins == n {
        Outcome {
            grid: tuple_pruned(g, kind, row, col, numerals),
            answer: Ok(tuple_prunes(g, kind, row, col, numerals)),
        }
    } else {
        untouched(g)
    }
}

/// `first`, and after it `second` unless `first` met a contradiction. The
/// answer says whether either changed anything.
pub open spec fn and_then(first: Outcome, second: Outcome) -> Outcome {
    match first.answer {
        Err(_) => first,
        Ok(changed) => Outcome {
            grid: second.grid,
            answer: match second.answer {
                Err(why) => Err(why),
                Ok(more) => Ok(changed || more),
            },
        },
    }
}

/// Naked n-ple: for an unset cell with exactly `n` candidates, the rule in
/// its row, then in its column, then in its block.
pub open spec fn naked_nple_step(g: Grid, row: int, col: int, n: nat) -> Outcome {
    let here = cell(g, row, col);
    if here.value != 0 {
        untouched(g)
    } else if stuck(g, row, col) {
        refuted(g, Contradiction::NoCandidates)
    } else if here.candidates.len() != n {
        untouched(g)
    } else {
        let in_row = tuple_step(g, Group::Row, row, col, n);
        let in_col = and_then(in_row, tuple_step(in_row.grid, Group::Column, row, col, n));
        and_then(in_col, tuple_step(in_col.grid, Group::Cube, row, col, n))
    }
}

/// What `rule` does at `(row, col)`.
pub open spec fn rule_step(g: Grid, rule: Rule, row: int, col: int) -> Outcome {
    match rule {
        Rule::NakedSingle => naked_single_step(g, row, col),
        Rule::HiddenSingle => hidden_single_step(g, row, col),
        Rule::NakedNple(n) => naked_nple_step(g, row, col, n as nat),
    }
}

/// One pass of `rule` over the first `k` cells, row by row: the rule is
/// applied to each cell that is unset when its turn comes, and the pass ends
/// at the first contradiction.
pub open spec fn pass_upto(g: Grid, rule: Rule, k: nat) -> Outcome
    decreases k,
{
    if k == 0 {
        untouched(g)
    } else {
        let so_far = pass_upto(g, rule, (k - 1) as nat);
        let row = (k - 1) / 9;
        let col = (k - 1) % 9;
        if so_far.answer is Err || cell(so_far.grid, row, col).value != 0 {
            so_far
        } else {
            and_then(so_far, rule_step(so_far.grid, rule, row, col))
        }
    }
}

/// One pass of `rule` over the whole grid.
pub open spec fn pass(g: Grid, rule: Rule) -> Outcome {
    pass_upto(g, rule, 81)
}

/// What holds of the outcome `o` of every rule on a well-formed grid `g`: the
/// grid stays well formed, cells only lose candidates, a change takes at
/// least one candidate away, and without a change the grid is the same.
pub open spec fn step_sound(g: Grid, o: Outcome) -> bool {
    &&& grid_wf(o.grid)
    &&& shrinks(g, o.grid)
    &&& candidate_count(o.grid) <= candidate_count(g)
    &&& o.answer == Ok::<bool, Contradiction>(true) ==> candidate_count(o.grid) < candidate_count(g)
    &&& o.answer == Ok::<bool, Contradiction>(false) ==> o.grid == g
}

/// The candidates of a well-formed cell are a finite set of numerals.
pub proof fn lemma_candidates_finite(g: Grid, row: int, col: int)
    requires
        cells_wf(g),
        on_grid(row, col),
    ensures
        cell(g, row, col).candidates.finite(),
        cell(g, row, col).candidates.len() <= 9,
        forall|v: u32| #[trigger] cell(g, row, col).candidates.contains(v) ==> 1 <= v <= 9,
        cell(g, row, col).candidates.len() == 0 <==> cell(g, row, col).candidates == Set::<
            u32,
        >::empty(),
{
    let s = cell(g, row, col).candidates;
    assert(cell_wf(cell(g, row, col)));
    lemma_full_set();
    vstd::set_lib::lemma_len_subset(s, full_set());
    assert forall|v: u32| #[trigger] s.contains(v) implies 1 <= v <= 9 by {
        assert(full_set().contains(v));
    }
    if s.len() == 0 {
        assert(s =~= Set::<u32>::empty());
    }
}

/// Placing a value that the unset cell lists is sound.
pub proof fn lemma_placed_sound(g: Grid, row: int, col: int, value: u32)
    requires
        grid_wf(g),
        on_grid(row, col),
        may_place(g, row, col, value),
    ensures
        step_sound(g, placed(g, row, col, value)),
{
    lemma_place_keeps_wf(g, row, col, value);
    lemma_place_shrinks(g, row, col, value);
}

/// The naked-single rule is sound.
pub proof fn lemma_naked_single_sound(g: Grid, row: int, col: int)
    requires
        grid_wf(g),
        on_grid(row, col),
    ensures
        step_sound(g, naked_single_step(g, row, col)),
{
    let here = cell(g, row, col);
    lemma_candidates_finite(g, row, col);
    if here.value == 0 && !stuck(g, row, col) && here.candidates.len() == 1 {
        assert(here.candidates.contains(here.candidates.choose()));
        lemma_placed_sound(g, row, col, here.candidates.choose());
    }
}

/// What `first_only_place` finds is a candidate of the cell.
pub proof fn lemma_first_only_place_listed(g: Grid, row: int, col: int, from: nat)
    ensures
        first_only_place(g, row, col, from) matches Some(v) ==> only_place(g, row, col, v) && from
            <= v <= 9,
    decreases 10 - from,
{
    if from <= 9 && !only_place(g, row, col, from as u32) {
        lemma_first_only_place_listed(g, row, col, from + 1);
    }
}

/// The hidden-single rule is sound.
pub proof fn lemma_hidden_single_sound(g: Grid, row: int, col: int)
    requires
        grid_wf(g),
        on_grid(row, col),
    ensures
        step_sound(g, hidden_single_step(g, row, col)),
{
    lemma_first_only_place_listed(g, row, col, 1);
    if cell(g, row, col).value == 0 && !stuck(g, row, col) {
        match first_only_place(g, row, col, 1) {
            Some(value) => {
                lemma_placed_sound(g, row, col, value);
            },
            None => {},
        }
    }
}

/// The naked n-ple rule in one group is sound, and it only prunes.
pub proof fn lemma_tuple_step_sound(g: Grid, kind: Group, row: int, col: int, n: nat)
    requires
        grid_wf(g),
        on_grid(row, col),
    ensures
        step_sound(g, tuple_step(g, kind, row, col, n)),
        pruned(g, tuple_step(g, kind, row, col, n).grid),
{
    let numerals = cell(g, row, col).candidates;
    let o = tuple_step(g, kind, row, col, n);
    if twins_among(g, kind, row, col, numerals, 9) == n {
        let h = tuple_pruned(g, kind, row, col, numerals);
        assert forall|r: int, c: int| on_grid(r, c) implies (#[trigger] cell(h, r, c)).value
            == cell(g, r, c).value && cell(h, r, c).candidates.subset_of(
            cell(g, r, c).candidates,
        ) by {}
        lemma_pruned_keeps_wf(g, h);
        lemma_candidates_among_shrinks(g, h, 729);
        if tuple_prunes(g, kind, row, col, numerals) {
            let (r, c) = choose|r: int, c: int|
                on_grid(r, c) && in_group(kind, row, col, r, c) && !twin(g, r, c, numerals) && !(
                #[trigger] cell(g, r, c)).candidates.disjoint(numerals);
            let v = choose|v: u32| cell(g, r, c).candidates.contains(v) && numerals.contains(v);
            lemma_candidates_finite(g, r, c);
            lemma_candidates_among_lost(g, h, r, c, v, 729);
        } else {
            assert forall|r: int| 0 <= r < 9 implies #[trigger] h[r] == g[r] by {
                assert forall|c: int| 0 <= c < 9 implies #[trigger] h[r][c] == g[r][c] by {
                    if in_group(kind, row, col, r, c) && !twin(g, r, c, numerals) {
                        assert(on_grid(r, c));
                        assert(cell(g, r, c).candidates.disjoint(numerals));
                        assert(cell(g, r, c).candidates.difference(numerals) =~= cell(
                            g,
                            r,
                            c,
                        ).candidates);
                    }
                }
                assert(h[r] =~= g[r]);
            }
            assert(h =~= g);
        }
    }
}

/// One sound step after another is sound.
pub proof fn lemma_and_then_sound(g: Grid, first: Outcome, second: Outcome)
    requires
        step_sound(g, first),
        first.answer is Ok ==> step_sound(first.grid, second),
    ensures
        step_sound(g, and_then(first, second)),
{
    if first.answer is Ok {
        assert forall|r: int, c: int| on_grid(r, c) implies (#[trigger] cell(
            second.grid,
            r,
            c,
        )).candidates.subset_of(cell(g, r, c).candidates) by {
            assert(cell(first.grid, r, c).candidates.subset_of(cell(g, r, c).candidates));
        }
    }
}

/// The naked n-ple rule is sound.
pub proof fn lemma_naked_nple_sound(g: Grid, row: int, col: int, n: nat)
    requires
        grid_wf(g),
        on_grid(row, col),
    ensures
        step_sound(g, naked_nple_step(g, row, col, n)),
{
    let in_row = tuple_step(g, Group::Row, row, col, n);
    lemma_tuple_step_sound(g, Group::Row, row, col, n);
    let second = tuple_step(in_row.grid, Group::Column, row, col, n);
    lemma_tuple_step_sound(in_row.grid, Group::Column, row, col, n);
    let in_col = and_then(in_row, second);
    lemma_and_then_sound(g, in_row, second);
    let third = tuple_step(in_col.grid, Group::Cube, row, col, n);
    lemma_tuple_step_sound(in_col.grid, Group::Cube, row, col, n);
    lemma_and_then_sound(g, in_col, third);
}

/// Every rule is sound at every cell.
pub proof fn lemma_rule_step_sound(g: Grid, rule: Rule, row: int, col: int)
    requires
        grid_wf(g),
        on_grid(row, col),
    ensures
        step_sound(g, rule_step(g, rule, row, col)),
{
    match rule {
        Rule::NakedSingle => lemma_naked_single_sound(g, row, col),
        Rule::HiddenSingle => lemma_hidden_single_sound(g, row, col),
        Rule::NakedNple(n) => lemma_naked_nple_sound(g, row, col, n as nat),
    }
}

/// Once a pass has met a contradiction, the rest of it does nothing.
pub proof fn lemma_pass_ends_at_contradiction(g: Grid, rule: Rule, k: nat, m: nat)
    requires
        k <= m,
        pass_upto(g, rule, k).answer is Err,
    ensures
        pass_upto(g, rule, m) == pass_upto(g, rule, k),
    decreases m,
{
    if k < m {
        lemma_pass_ends_at_contradiction(g, rule, k, (m - 1) as nat);
    }
}

/// A pass is sound: it keeps the grid well formed, and a pass that reports
/// a change has taken at least one candidate away, while one that reports
/// none has left the grid as it was.
pub proof fn lemma_pass_upto_sound(g: Grid, rule: Rule, k: nat)
    requires
        grid_wf(g),
        k <= 81,
    ensures
        step_sound(g, pass_upto(g, rule, k)),
    decreases k,
{
    if k > 0 {
        let so_far = pass_upto(g, rule, (k - 1) as nat);
        lemma_pass_upto_sound(g, rule, (k - 1) as nat);
        let row = (k - 1) / 9;
        let col = (k - 1) % 9;
        if !(so_far.answer is Err || cell(so_far.grid, row, col).value != 0) {
            lemma_rule_step_sound(so_far.grid, rule, row, col);
            lemma_and_then_sound(g, so_far, rule_step(so_far.grid, rule, row, col));
        }
    }
}

/// Passes of `rule`, one after another, until a pass changes nothing, every
/// cell holds a value, or a contradiction turns up. The answer says whether
/// any pass changed anything.
pub open spec fn fixpoint(g: Grid, rule: Rule) -> Outcome
    decreases candidate_count(g),
    when grid_wf(g)
{
    let once = pass(g, rule);
    if once.answer == Ok::<bool, Contradiction>(true) && !all_set(once.grid) {
        proof {
            lemma_pass_upto_sound(g, rule, 81);
        }
        and_then(once, fixpoint(once.grid, rule))
    } else {
        once
    }
}

/// Repeated passes are sound, and they end in a grid that is solved, or that
/// a further pass would leave as it is, or with a contradiction.
pub proof fn lemma_fixpoint_sound(g: Grid, rule: Rule)
    requires
        grid_wf(g),
    ensures
        step_sound(g, fixpoint(g, rule)),
        fixpoint(g, rule).answer is Ok ==> all_set(fixpoint(g, rule).grid) || pass(
            fixpoint(g, rule).grid,
            rule,
        ) == untouched(fixpoint(g, rule).grid),
    decreases candidate_count(g),
{
    let once = pass(g, rule);
    lemma_pass_upto_sound(g, rule, 81);
    if once.answer == Ok::<bool, Contradiction>(true) && !all_set(once.grid) {
        lemma_fixpoint_sound(once.grid, rule);
        lemma_and_then_sound(g, once, fixpoint(once.grid, rule));
    }
}

} // verus!
