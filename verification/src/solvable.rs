//! Puzzles that naked singles alone solve, and the proof that repeated
//! passes of the naked-single rule solve every one of them.

use crate::grid::{
    all_set, candidate_count, cell, cells_wf, grid_place, grid_wf, lemma_place_keeps_wf, may_place,
    on_grid, sees, Grid,
};
use crate::rules::{
    and_then, fixpoint, lemma_candidates_finite, lemma_pass_upto_sound, naked_single_step, pass,
    pass_upto, rule_step, stuck, Contradiction, Rule,
};
use crate::soundness::{agrees, lemma_solved_is_goal};
use crate::square::cell_wf;
use vstd::prelude::*;

verus! {

/// Whether the naked-single rule places a value at `(row, col)`.
pub open spec fn is_naked_single(g: Grid, row: int, col: int) -> bool {
    on_grid(row, col) && naked_single_step(g, row, col).answer == Ok::<bool, Contradiction>(true)
}

/// The grid after the naked-single rule was applied to the first `k` cells
/// of `steps`, one after another.
pub open spec fn follow(g: Grid, steps: Seq<(int, int)>, k: nat) -> Grid
    decreases k,
{
    if k == 0 {
        g
    } else {
        naked_single_step(follow(g, steps, (k - 1) as nat), steps[k - 1].0, steps[k - 1].1).grid
    }
}

/// Whether step `k` of `steps` finds a naked single.
pub open spec fn step_places(g: Grid, steps: Seq<(int, int)>, k: int) -> bool {
    is_naked_single(follow(g, steps, k as nat), steps[k].0, steps[k].1)
}

/// Naked singles alone solve the puzzle, in the order `steps`: every step
/// finds a naked single, and after the last every cell holds a value.
pub open spec fn singles_solve(g: Grid, steps: Seq<(int, int)>) -> bool {
    &&& forall|k: int| 0 <= k < steps.len() ==> #[trigger] step_places(g, steps, k)
    &&& all_set(follow(g, steps, steps.len()))
}

/// What a naked single is: an unset cell with exactly one candidate, which
/// the rule places.
pub proof fn lemma_naked_single(g: Grid, row: int, col: int)
    requires
        cells_wf(g),
        is_naked_single(g, row, col),
    ensures
        may_place(g, row, col, cell(g, row, col).candidates.choose()),
        forall|u: u32|
            #[trigger] cell(g, row, col).candidates.contains(u) ==> u == cell(
                g,
                row,
                col,
            ).candidates.choose(),
        naked_single_step(g, row, col).grid == grid_place(
            g,
            row,
            col,
            cell(g, row, col).candidates.choose(),
        ),
        1 <= cell(g, row, col).candidates.choose() <= 9,
{
    let s = cell(g, row, col).candidates;
    lemma_candidates_finite(g, row, col);
    assert(s.len() == 1);
    Set::lemma_is_singleton(s);
    assert(s.contains(s.choose()));
}

/// Every grid on the way is well formed.
pub proof fn lemma_follow_wf(g: Grid, steps: Seq<(int, int)>, k: nat)
    requires
        grid_wf(g),
        k <= steps.len(),
        forall|j: int| 0 <= j < k ==> #[trigger] step_places(g, steps, j),
    ensures
        grid_wf(follow(g, steps, k)),
    decreases k,
{
    if k > 0 {
        lemma_follow_wf(g, steps, (k - 1) as nat);
        let before = follow(g, steps, (k - 1) as nat);
        assert(step_places(g, steps, k - 1));
        lemma_naked_single(before, steps[k - 1].0, steps[k - 1].1);
        lemma_place_keeps_wf(
            before,
            steps[k - 1].0,
            steps[k - 1].1,
            cell(before, steps[k - 1].0, steps[k - 1].1).candidates.choose(),
        );
    }
}

/// Whether step `k` is a cell that is unset in `h` and lists `u`, which is
/// not its value in `goal`.
pub open spec fn wrong_candidate(h: Grid, goal: Grid, steps: Seq<(int, int)>, k: int, u: u32) -> bool {
    &&& 0 <= k < steps.len()
    &&& cell(h, steps[k].0, steps[k].1).value == 0
    &&& cell(h, steps[k].0, steps[k].1).candidates.contains(u)
    &&& u != cell(goal, steps[k].0, steps[k].1).value
}

/// Whether `u` is the value in `goal` of step `j`, which comes before step
/// `k` and sees its cell.
pub open spec fn ruled_out_by(goal: Grid, steps: Seq<(int, int)>, k: int, u: u32, j: int) -> bool {
    &&& 0 <= j < k
    &&& sees(steps[j].0, steps[j].1, steps[k].0, steps[k].1)
    &&& cell(goal, steps[j].0, steps[j].1).value == u
}

/// Whether `(row, col)` is step `k`.
pub open spec fn is_step(steps: Seq<(int, int)>, k: int, row: int, col: int) -> bool {
    0 <= k < steps.len() && steps[k] == (row, col)
}

/// The steps reach every unset cell of `h`, and every wrong candidate of a
/// step is the value in `goal` of an earlier step that sees it.
pub open spec fn ordered(h: Grid, goal: Grid, steps: Seq<(int, int)>) -> bool {
    &&& forall|r: int, c: int|
        on_grid(r, c) && (#[trigger] cell(h, r, c)).value == 0 ==> exists|k: int| #[trigger]
            is_step(steps, k, r, c)
    &&& forall|k: int, u: u32| #[trigger]
        wrong_candidate(h, goal, steps, k, u) ==> exists|j: int| #[trigger]
            ruled_out_by(goal, steps, k, u, j)
}

/// The grid `h` is on its way to `goal` along `steps`.
pub open spec fn on_course(h: Grid, goal: Grid, steps: Seq<(int, int)>) -> bool {
    &&& grid_wf(h)
    &&& grid_wf(goal)
    &&& all_set(goal)
    &&& forall|k: int| 0 <= k < steps.len() ==> on_grid((#[trigger] steps[k]).0, steps[k].1)
    &&& agrees(h, goal)
    &&& ordered(h, goal, steps)
}

/// On course, the naked-single rule meets no contradiction, and the grid it
/// leaves is on course.
pub proof fn lemma_naked_single_on_course(
    h: Grid,
    goal: Grid,
    steps: Seq<(int, int)>,
    row: int,
    col: int,
)
    requires
        on_course(h, goal, steps),
        on_grid(row, col),
    ensures
        naked_single_step(h, row, col).answer is Ok,
        on_course(naked_single_step(h, row, col).grid, goal, steps),
{
    let here = cell(h, row, col);
    assert(cell_wf(here));
    if here.value == 0 {
        assert(here.candidates.contains(cell(goal, row, col).value));
        assert(!stuck(h, row, col));
        if is_naked_single(h, row, col) {
            lemma_naked_single(h, row, col);
            let v = here.candidates.choose();
            let next = grid_place(h, row, col, v);
            lemma_place_keeps_wf(h, row, col, v);
            assert(v == cell(goal, row, col).value);
            assert forall|r: int, c: int| on_grid(r, c) implies if (#[trigger] cell(
                next,
                r,
                c,
            )).value != 0 {
                cell(next, r, c).value == cell(goal, r, c).value
            } else {
                cell(next, r, c).candidates.contains(cell(goal, r, c).value)
            } by {
                assert(cell(h, r, c).value != 0 || cell(h, r, c).candidates.contains(
                    cell(goal, r, c).value,
                ));
                if !(r == row && c == col) && sees(row, col, r, c) {
                    assert(cell(goal, row, col).value != 0);
                    assert(cell(goal, row, col).value != cell(goal, r, c).value);
                }
            }
            assert forall|r: int, c: int|
                on_grid(r, c) && (#[trigger] cell(next, r, c)).value == 0 implies exists|k: int|
             #[trigger] is_step(steps, k, r, c) by {
                assert(cell(h, r, c).value == 0);
            }
            assert forall|k: int, u: u32| #[trigger]
                wrong_candidate(next, goal, steps, k, u) implies exists|j: int| #[trigger]
                ruled_out_by(goal, steps, k, u, j) by {
                assert(on_grid(steps[k].0, steps[k].1));
                assert(wrong_candidate(h, goal, steps, k, u));
            }
        }
    }
}

/// On course, below every unset step there is a naked single.
pub proof fn lemma_naked_single_exists(h: Grid, goal: Grid, steps: Seq<(int, int)>, k: int) -> (at:
    (int, int))
    requires
        on_course(h, goal, steps),
        0 <= k < steps.len(),
        cell(h, steps[k].0, steps[k].1).value == 0,
    ensures
        is_naked_single(h, at.0, at.1),
        cell(h, at.0, at.1).value == 0,
    decreases k,
{
    let row = steps[k].0;
    let col = steps[k].1;
    assert(on_grid(row, col));
    let here = cell(h, row, col);
    let right = cell(goal, row, col).value;
    assert(here.candidates.contains(right));
    if exists|u: u32| here.candidates.contains(u) && u != right {
        let u = choose|u: u32| here.candidates.contains(u) && u != right;
        assert(wrong_candidate(h, goal, steps, k, u));
        let j = choose|j: int| #[trigger] ruled_out_by(goal, steps, k, u, j);
        assert(on_grid(steps[j].0, steps[j].1));
        let before = cell(h, steps[j].0, steps[j].1);
        if before.value != 0 {
            assert(before.value == u);
            assert(sees(row, col, steps[j].0, steps[j].1));
            assert(!cell(h, row, col).candidates.contains(cell(h, steps[j].0, steps[j].1).value));
            assert(false);
        }
        lemma_naked_single_exists(h, goal, steps, j)
    } else {
        lemma_candidates_finite(h, row, col);
        assert(here.candidates =~= Set::<u32>::empty().insert(right));
        assert(here.candidates.len() == 1);
        assert(!stuck(h, row, col));
        (row, col)
    }
}

/// On course, a pass of the naked-single rule meets no contradiction, and
/// the grid it leaves is on course.
pub proof fn lemma_pass_on_course(h: Grid, goal: Grid, steps: Seq<(int, int)>, k: nat)
    requires
        on_course(h, goal, steps),
        k <= 81,
    ensures
        pass_upto(h, Rule::NakedSingle, k).answer is Ok,
        on_course(pass_upto(h, Rule::NakedSingle, k).grid, goal, steps),
    decreases k,
{
    if k > 0 {
        lemma_pass_on_course(h, goal, steps, (k - 1) as nat);
        let so_far = pass_upto(h, Rule::NakedSingle, (k - 1) as nat);
        lemma_naked_single_on_course(so_far.grid, goal, steps, (k - 1) / 9, (k - 1) % 9);
    }
}

/// A pass that reports no change has changed nothing at any cell.
pub proof fn lemma_quiet_pass(h: Grid, rule: Rule, k: nat, m: nat)
    requires
        grid_wf(h),
        k <= m <= 81,
        pass_upto(h, rule, m).answer == Ok::<bool, Contradiction>(false),
    ensures
        pass_upto(h, rule, k).answer == Ok::<bool, Contradiction>(false),
        pass_upto(h, rule, k).grid == h,
    decreases m - k,
{
    lemma_pass_upto_sound(h, rule, k);
    if k < m {
        lemma_quiet_pass(h, rule, k + 1, m);
        let so_far = pass_upto(h, rule, k);
        assert(pass_upto(h, rule, (k + 1) as nat).answer == Ok::<bool, Contradiction>(false));
        assert((k + 1 - 1) as nat == k);
    }
}

/// On course and not yet solved, a pass of the naked-single rule places a
/// value.
pub proof fn lemma_pass_progress(h: Grid, goal: Grid, steps: Seq<(int, int)>)
    requires
        on_course(h, goal, steps),
        !all_set(h),
    ensures
        pass(h, Rule::NakedSingle).answer == Ok::<bool, Contradiction>(true),
{
    lemma_pass_on_course(h, goal, steps, 81);
    if pass(h, Rule::NakedSingle).answer == Ok::<bool, Contradiction>(false) {
        let (r, c) = choose|r: int, c: int| on_grid(r, c) && (#[trigger] cell(h, r, c)).value == 0;
        let k = choose|k: int| #[trigger] is_step(steps, k, r, c);
        let at = lemma_naked_single_exists(h, goal, steps, k);
        let i = (at.0 * 9 + at.1) as nat;
        assert(i / 9 == at.0 && i % 9 == at.1);
        lemma_quiet_pass(h, Rule::NakedSingle, i, 81);
        lemma_quiet_pass(h, Rule::NakedSingle, i + 1, 81);
        assert((i + 1 - 1) as nat == i);
        assert(pass_upto(h, Rule::NakedSingle, i + 1) == and_then(
            pass_upto(h, Rule::NakedSingle, i),
            rule_step(h, Rule::NakedSingle, at.0, at.1),
        ));
        assert(false);
    }
}

/// On course, repeated passes of the naked-single rule end with every cell
/// set, and never in a contradiction.
pub proof fn lemma_fixpoint_on_course(h: Grid, goal: Grid, steps: Seq<(int, int)>)
    requires
        on_course(h, goal, steps),
    ensures
        fixpoint(h, Rule::NakedSingle).answer is Ok,
        all_set(fixpoint(h, Rule::NakedSingle).grid),
        fixpoint(h, Rule::NakedSingle).grid == goal,
    decreases candidate_count(h),
{
    let once = pass(h, Rule::NakedSingle);
    lemma_pass_on_course(h, goal, steps, 81);
    lemma_pass_upto_sound(h, Rule::NakedSingle, 81);
    if all_set(h) {
        lemma_solved_is_goal(h, goal);
        if once.answer == Ok::<bool, Contradiction>(true) {
            assert(candidate_count(once.grid) < candidate_count(h));
        }
        lemma_solved_is_goal(once.grid, goal);
    } else {
        lemma_pass_progress(h, goal, steps);
        if all_set(once.grid) {
            lemma_solved_is_goal(once.grid, goal);
        } else {
            lemma_fixpoint_on_course(once.grid, goal, steps);
        }
    }
}

/// Along the steps a value that was placed stays, and a cell that sees no
/// step keeps its candidates: going from `k` steps to `m` steps, cells only
/// lose candidates, and a candidate is lost only to a step in between that
/// sees the cell and placed that numeral.
pub proof fn lemma_follow_between(g: Grid, steps: Seq<(int, int)>, k: nat, m: nat)
    requires
        grid_wf(g),
        k <= m <= steps.len(),
        forall|j: int| 0 <= j < steps.len() ==> #[trigger] step_places(g, steps, j),
    ensures
        forall|r: int, c: int|
            on_grid(r, c) && (#[trigger] cell(follow(g, steps, k), r, c)).value != 0 ==> cell(
                follow(g, steps, m),
                r,
                c,
            ).value == cell(follow(g, steps, k), r, c).value,
        forall|r: int, c: int|
            on_grid(r, c) ==> (#[trigger] cell(follow(g, steps, m), r, c)).candidates.subset_of(
                cell(follow(g, steps, k), r, c).candidates,
            ),
        forall|r: int, c: int, u: u32|
            on_grid(r, c) && cell(follow(g, steps, m), r, c).value == 0 && cell(
                follow(g, steps, k),
                r,
                c,
            ).candidates.contains(u) && !(#[trigger] cell(
                follow(g, steps, m),
                r,
                c,
            ).candidates.contains(u)) ==> exists|j: int| #[trigger]
                placed_between(g, steps, k as int, m as int, r, c, u, j),
    decreases m - k,
{
    if k < m {
        let p = (m - 1) as nat;
        lemma_follow_between(g, steps, k, p);
        lemma_follow_wf(g, steps, p);
        let first = follow(g, steps, k);
        let before = follow(g, steps, p);
        let after = follow(g, steps, m);
        let row = steps[m - 1].0;
        let col = steps[m - 1].1;
        assert(step_places(g, steps, m - 1));
        lemma_naked_single(before, row, col);
        let v = cell(before, row, col).candidates.choose();
        assert(after == grid_place(before, row, col, v));
        assert forall|r: int, c: int|
            on_grid(r, c) && (#[trigger] cell(first, r, c)).value != 0 implies cell(
            after,
            r,
            c,
        ).value == cell(first, r, c).value by {
            assert(cell(before, r, c).value == cell(first, r, c).value);
        }
        assert forall|r: int, c: int| on_grid(r, c) implies (#[trigger] cell(
            after,
            r,
            c,
        )).candidates.subset_of(cell(first, r, c).candidates) by {
            assert(cell(before, r, c).candidates.subset_of(cell(first, r, c).candidates));
        }
        assert forall|r: int, c: int, u: u32|
            on_grid(r, c) && cell(after, r, c).value == 0 && cell(first, r, c).candidates.contains(
                u,
            ) && !(#[trigger] cell(after, r, c).candidates.contains(u)) implies exists|j: int|
         #[trigger] placed_between(g, steps, k as int, m as int, r, c, u, j) by {
            assert(cell(before, r, c).value == 0);
            if cell(before, r, c).candidates.contains(u) {
                assert(sees(row, col, r, c) && u == v);
                assert(cell(after, row, col).value == v);
                assert(follow(g, steps, (m - 1 + 1) as nat) == after);
                assert(placed_between(g, steps, k as int, m as int, r, c, u, m - 1));
            } else {
                let j = choose|j: int| #[trigger]
                    placed_between(g, steps, k as int, p as int, r, c, u, j);
                assert(placed_between(g, steps, k as int, m as int, r, c, u, j));
            }
        }
    }
}

/// Whether step `j`, one of the steps from `k` up to `m`, sees `(row, col)`
/// and placed `u`.
pub open spec fn placed_between(
    g: Grid,
    steps: Seq<(int, int)>,
    k: int,
    m: int,
    row: int,
    col: int,
    u: u32,
    j: int,
) -> bool {
    &&& k <= j < m
    &&& sees(steps[j].0, steps[j].1, row, col)
    &&& cell(follow(g, steps, (j + 1) as nat), steps[j].0, steps[j].1).value == u
}

/// A cell that is unset at first and set after `k` steps is one of them.
pub proof fn lemma_set_by_a_step(g: Grid, steps: Seq<(int, int)>, k: nat, row: int, col: int)
    requires
        grid_wf(g),
        k <= steps.len(),
        forall|j: int| 0 <= j < steps.len() ==> #[trigger] step_places(g, steps, j),
        on_grid(row, col),
        cell(g, row, col).value == 0,
        cell(follow(g, steps, k), row, col).value != 0,
    ensures
        exists|j: int| 0 <= j < k && #[trigger] is_step(steps, j, row, col),
    decreases k,
{
    if k > 0 {
        let p = (k - 1) as nat;
        let before = follow(g, steps, p);
        lemma_follow_wf(g, steps, p);
        assert(step_places(g, steps, k - 1));
        lemma_naked_single(before, steps[k - 1].0, steps[k - 1].1);
        if cell(before, row, col).value != 0 {
            lemma_set_by_a_step(g, steps, p, row, col);
            let j = choose|j: int| 0 <= j < p && #[trigger] is_step(steps, j, row, col);
            assert(is_step(steps, j, row, col));
        } else {
            assert(steps[k - 1] == (row, col));
            assert(is_step(steps, k - 1, row, col));
        }
    }
}

/// A puzzle that naked singles solve is on course to its solution from the
/// start.
pub proof fn lemma_start_on_course(g: Grid, steps: Seq<(int, int)>)
    requires
        grid_wf(g),
        singles_solve(g, steps),
    ensures
        on_course(g, follow(g, steps, steps.len()), steps),
{
    let n = steps.len();
    let goal = follow(g, steps, n);
    lemma_follow_wf(g, steps, n);
    lemma_follow_between(g, steps, 0, n);
    assert forall|k: int| 0 <= k < steps.len() implies on_grid((#[trigger] steps[k]).0, steps[k].1) by {
        assert(step_places(g, steps, k));
    }
    assert forall|r: int, c: int| on_grid(r, c) implies if (#[trigger] cell(g, r, c)).value != 0 {
        cell(g, r, c).value == cell(goal, r, c).value
    } else {
        cell(g, r, c).candidates.contains(cell(goal, r, c).value)
    } by {
        if cell(g, r, c).value == 0 {
            assert(cell(goal, r, c).value != 0);
            lemma_set_by_a_step(g, steps, n, r, c);
            let j = choose|j: int| 0 <= j < n && #[trigger] is_step(steps, j, r, c);
            lemma_step_value(g, steps, j);
            lemma_follow_between(g, steps, 0, j as nat);
            assert(cell(follow(g, steps, j as nat), r, c).candidates.subset_of(
                cell(g, r, c).candidates,
            ));
        }
    }
    assert forall|r: int, c: int|
        on_grid(r, c) && (#[trigger] cell(g, r, c)).value == 0 implies exists|k: int| #[trigger]
        is_step(steps, k, r, c) by {
        assert(cell(goal, r, c).value != 0);
        lemma_set_by_a_step(g, steps, n, r, c);
    }
    assert forall|k: int, u: u32| #[trigger]
        wrong_candidate(g, goal, steps, k, u) implies exists|j: int| #[trigger]
        ruled_out_by(goal, steps, k, u, j) by {
        let row = steps[k].0;
        let col = steps[k].1;
        let at_k = follow(g, steps, k as nat);
        lemma_step_value(g, steps, k);
        lemma_follow_between(g, steps, 0, k as nat);
        assert(step_places(g, steps, k));
        assert(!cell(at_k, row, col).candidates.contains(u));
        let j = choose|j: int| #[trigger] placed_between(g, steps, 0, k, row, col, u, j);
        lemma_step_value(g, steps, j);
        assert(ruled_out_by(goal, steps, k, u, j));
    }
}

/// Step `k` finds its cell unset with a single candidate, which is the
/// value of the cell from then on.
pub proof fn lemma_step_value(g: Grid, steps: Seq<(int, int)>, k: int)
    requires
        grid_wf(g),
        0 <= k < steps.len(),
        forall|j: int| 0 <= j < steps.len() ==> #[trigger] step_places(g, steps, j),
    ensures
        on_grid(steps[k].0, steps[k].1),
        cell(follow(g, steps, k as nat), steps[k].0, steps[k].1).value == 0,
        cell(follow(g, steps, k as nat), steps[k].0, steps[k].1).candidates.contains(
            cell(follow(g, steps, steps.len()), steps[k].0, steps[k].1).value,
        ),
        forall|u: u32|
            #[trigger] cell(follow(g, steps, k as nat), steps[k].0, steps[k].1).candidates.contains(
                u,
            ) ==> u == cell(follow(g, steps, steps.len()), steps[k].0, steps[k].1).value,
        cell(follow(g, steps, (k + 1) as nat), steps[k].0, steps[k].1).value == cell(
            follow(g, steps, steps.len()),
            steps[k].0,
            steps[k].1,
        ).value,
{
    let before = follow(g, steps, k as nat);
    lemma_follow_wf(g, steps, k as nat);
    assert(step_places(g, steps, k));
    lemma_naked_single(before, steps[k].0, steps[k].1);
    let after = follow(g, steps, (k + 1) as nat);
    assert((k + 1 - 1) as nat == k as nat);
    assert(after == naked_single_step(before, steps[k].0, steps[k].1).grid);
    lemma_follow_between(g, steps, (k + 1) as nat, steps.len());
    assert(cell(after, steps[k].0, steps[k].1).value != 0);
}

/// Repeated passes of the naked-single rule solve every puzzle that naked
/// singles alone solve, whatever the order in which those were found, and
/// they end with the same grid.
pub proof fn lemma_naked_singles_suffice(g: Grid, steps: Seq<(int, int)>)
    requires
        grid_wf(g),
        singles_solve(g, steps),
    ensures
        fixpoint(g, Rule::NakedSingle).answer is Ok,
        all_set(fixpoint(g, Rule::NakedSingle).grid),
        fixpoint(g, Rule::NakedSingle).grid == follow(g, steps, steps.len()),
{
    lemma_start_on_course(g, steps);
    lemma_fixpoint_on_course(g, follow(g, steps, steps.len()), steps);
}

} // verus!
