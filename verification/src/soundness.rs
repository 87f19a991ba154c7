//! The rules lose no solution: whatever solves the puzzle before a rule is
//! applied solves it afterwards, and a rule meets a contradiction only where
//! the puzzle has no solution.

use crate::grid::{
    all_set, candidate_count, cell, grid_place, grid_wf, may_place, on_grid, sees, Grid,
};
use crate::rules::{
    alone_in_col, alone_in_row, and_then, first_only_place, fixpoint, hidden_single_step, in_group,
    lemma_candidates_finite, lemma_first_only_place_listed, lemma_fixpoint_sound,
    lemma_pass_upto_sound, lemma_tuple_step_sound, member, naked_nple_step, naked_single_step,
    only_place, pass, pass_upto, rule_step, slot, tuple_pruned, tuple_step, twin, twins_among,
    Contradiction, Group, Rule,
};
use crate::square::{cell_wf, full_set, lemma_full_set};
use vstd::prelude::*;

verus! {

/// The grid `h` agrees with the solved grid `goal`: a value of `h` is the
/// value of `goal`, and an unset cell of `h` still lists the value of `goal`.
pub open spec fn agrees(h: Grid, goal: Grid) -> bool {
    forall|r: int, c: int|
        on_grid(r, c) ==> if (#[trigger] cell(h, r, c)).value != 0 {
            cell(h, r, c).value == cell(goal, r, c).value
        } else {
            cell(h, r, c).candidates.contains(cell(goal, r, c).value)
        }
}

/// The grid `goal` solves the puzzle `g`: every cell of it holds a value, no
/// two cells that see each other hold the same, and `g` agrees with it.
pub open spec fn solves(goal: Grid, g: Grid) -> bool {
    &&& grid_wf(goal)
    &&& all_set(goal)
    &&& agrees(g, goal)
}

/// A solved grid that agrees with the goal is the goal.
pub proof fn lemma_solved_is_goal(h: Grid, goal: Grid)
    requires
        grid_wf(h),
        grid_wf(goal),
        all_set(h),
        all_set(goal),
        agrees(h, goal),
    ensures
        h == goal,
{
    assert forall|r: int| 0 <= r < 9 implies #[trigger] h[r] == goal[r] by {
        assert forall|c: int| 0 <= c < 9 implies #[trigger] h[r][c] == goal[r][c] by {
            assert(cell_wf(cell(h, r, c)));
            assert(cell_wf(cell(goal, r, c)));
            assert(cell(h, r, c).value == cell(goal, r, c).value);
            assert(cell(h, r, c).candidates =~= cell(goal, r, c).candidates);
        }
        assert(h[r] =~= goal[r]);
    }
    assert(h =~= goal);
}

/// The value that `s` holds in place `i` of a group.
pub open spec fn member_value(s: Grid, kind: Group, row: int, col: int, i: int) -> u32 {
    cell(s, member(kind, row, col, i).0, member(kind, row, col, i).1).value
}

/// Two places of a group are cells of the grid that see each other, and a
/// cell of the grid has its place in each of its groups.
pub proof fn lemma_group_places(kind: Group, row: int, col: int, i: int, j: int)
    requires
        on_grid(row, col),
        0 <= i < 9,
        0 <= j < 9,
    ensures
        on_grid(member(kind, row, col, i).0, member(kind, row, col, i).1),
        in_group(kind, row, col, member(kind, row, col, i).0, member(kind, row, col, i).1),
        slot(kind, member(kind, row, col, i).0, member(kind, row, col, i).1) == i,
        i != j ==> sees(
            member(kind, row, col, i).0,
            member(kind, row, col, i).1,
            member(kind, row, col, j).0,
            member(kind, row, col, j).1,
        ),
{
}

/// A cell of a group is the one in its place.
pub proof fn lemma_place_in_group(kind: Group, row: int, col: int, r: int, c: int)
    requires
        on_grid(row, col),
        on_grid(r, c),
        in_group(kind, row, col, r, c),
    ensures
        0 <= slot(kind, r, c) < 9,
        member(kind, row, col, slot(kind, r, c)) == (r, c),
{
}

/// The values that `s` holds in those of the first `k` places of a group
/// that `pick` picks.
pub open spec fn picked_values(
    s: Grid,
    kind: Group,
    row: int,
    col: int,
    pick: spec_fn(int) -> bool,
    k: int,
) -> Set<u32> {
    Set::new(
        |v: u32| exists|i: int| 0 <= i < k && pick(i) && #[trigger] member_value(s, kind, row, col, i) == v,
    )
}

/// How many of the first `k` places `pick` picks.
pub open spec fn picked_among(pick: spec_fn(int) -> bool, k: nat) -> nat
    decreases k,
{
    if k == 0 {
        0
    } else {
        picked_among(pick, (k - 1) as nat) + if pick(k - 1) {
            1nat
        } else {
            0nat
        }
    }
}

/// In a solved grid the picked places of a group hold as many values as
/// there are picked places: no value stands twice in a group.
pub proof fn lemma_picked_values_size(
    s: Grid,
    kind: Group,
    row: int,
    col: int,
    pick: spec_fn(int) -> bool,
    k: nat,
)
    requires
        grid_wf(s),
        all_set(s),
        on_grid(row, col),
        k <= 9,
    ensures
        picked_values(s, kind, row, col, pick, k as int).finite(),
        picked_values(s, kind, row, col, pick, k as int).len() == picked_among(pick, k),
        picked_values(s, kind, row, col, pick, k as int).subset_of(full_set()),
    decreases k,
{
    let now = picked_values(s, kind, row, col, pick, k as int);
    if k == 0 {
        assert(now =~= Set::<u32>::empty());
    } else {
        let before = picked_values(s, kind, row, col, pick, k - 1);
        lemma_picked_values_size(s, kind, row, col, pick, (k - 1) as nat);
        let v = member_value(s, kind, row, col, k - 1);
        lemma_group_places(kind, row, col, k - 1, 0);
        let at = member(kind, row, col, k - 1);
        assert(cell_wf(cell(s, at.0, at.1)));
        assert(cell(s, at.0, at.1).value != 0);
        if pick(k - 1) {
            if before.contains(v) {
                let i = choose|i: int|
                    0 <= i < k - 1 && pick(i) && #[trigger] member_value(s, kind, row, col, i) == v;
                lemma_group_places(kind, row, col, k - 1, i);
                let other = member(kind, row, col, i);
                assert(cell(s, at.0, at.1).value != cell(s, other.0, other.1).value);
                assert(false);
            }
            assert forall|u: u32| now.contains(u) <==> before.insert(v).contains(u) by {
                if now.contains(u) {
                    let i = choose|i: int|
                        0 <= i < k && pick(i) && #[trigger] member_value(s, kind, row, col, i)
                            == u;
                    if i < k - 1 {
                        assert(before.contains(u));
                    }
                }
                if before.contains(u) {
                    let i = choose|i: int|
                        0 <= i < k - 1 && pick(i) && #[trigger] member_value(s, kind, row, col, i)
                            == u;
                    assert(member_value(s, kind, row, col, i) == u);
                }
                if u == v {
                    assert(member_value(s, kind, row, col, k - 1) == u);
                }
            }
            assert(now =~= before.insert(v));
            assert(full_set().contains(v));
        } else {
            assert forall|u: u32| now.contains(u) <==> before.contains(u) by {
                if now.contains(u) {
                    let i = choose|i: int|
                        0 <= i < k && pick(i) && #[trigger] member_value(s, kind, row, col, i)
                            == u;
                    assert(i < k - 1);
                }
                if before.contains(u) {
                    let i = choose|i: int|
                        0 <= i < k - 1 && pick(i) && #[trigger] member_value(s, kind, row, col, i)
                            == u;
                    assert(member_value(s, kind, row, col, i) == u);
                }
            }
            assert(now =~= before);
        }
    }
}

/// In a solved grid every numeral stands in every group.
pub proof fn lemma_numeral_in_group(s: Grid, kind: Group, row: int, col: int, v: u32) -> (i: int)
    requires
        grid_wf(s),
        all_set(s),
        on_grid(row, col),
        1 <= v <= 9,
    ensures
        0 <= i < 9,
        member_value(s, kind, row, col, i) == v,
{
    let every = |i: int| true;
    lemma_picked_values_size(s, kind, row, col, every, 9);
    lemma_picked_all(every, 9);
    lemma_full_set();
    let held = picked_values(s, kind, row, col, every, 9);
    vstd::set_lib::lemma_subset_equality(held, full_set());
    assert(full_set().contains(v));
    assert(held.contains(v));
    choose|i: int| 0 <= i < 9 && every(i) && #[trigger] member_value(s, kind, row, col, i) == v
}

/// Where every place is picked, all are counted.
pub proof fn lemma_picked_all(pick: spec_fn(int) -> bool, k: nat)
    requires
        forall|i: int| 0 <= i < k ==> #[trigger] pick(i),
    ensures
        picked_among(pick, k) == k,
    decreases k,
{
    if k > 0 {
        lemma_picked_all(pick, (k - 1) as nat);
        assert(pick(k - 1));
    }
}

/// Placing the value of the solution keeps the grid in agreement with it.
pub proof fn lemma_place_agrees(g: Grid, goal: Grid, row: int, col: int, value: u32)
    requires
        grid_wf(g),
        solves(goal, g),
        on_grid(row, col),
        may_place(g, row, col, value),
        cell(goal, row, col).value == value,
    ensures
        agrees(grid_place(g, row, col, value), goal),
{
    let next = grid_place(g, row, col, value);
    assert forall|r: int, c: int| on_grid(r, c) implies if (#[trigger] cell(next, r, c)).value
        != 0 {
        cell(next, r, c).value == cell(goal, r, c).value
    } else {
        cell(next, r, c).candidates.contains(cell(goal, r, c).value)
    } by {
        assert(cell(g, r, c).value != 0 || cell(g, r, c).candidates.contains(
            cell(goal, r, c).value,
        ));
        if !(r == row && c == col) && sees(row, col, r, c) {
            assert(cell_wf(cell(g, row, col)));
            assert(full_set().contains(value));
            assert(cell(goal, row, col).value != cell(goal, r, c).value);
        }
    }
}

/// The naked-single rule loses no solution.
pub proof fn lemma_naked_single_keeps_solution(g: Grid, goal: Grid, row: int, col: int)
    requires
        grid_wf(g),
        solves(goal, g),
        on_grid(row, col),
    ensures
        naked_single_step(g, row, col).answer is Ok,
        agrees(naked_single_step(g, row, col).grid, goal),
{
    let here = cell(g, row, col);
    if here.value == 0 {
        assert(here.candidates.contains(cell(goal, row, col).value));
        lemma_candidates_finite(g, row, col);
        if here.candidates.len() == 1 {
            Set::lemma_is_singleton(here.candidates);
            assert(here.candidates.contains(here.candidates.choose()));
            lemma_place_agrees(g, goal, row, col, here.candidates.choose());
        }
    }
}

/// A numeral that has its only place at a cell is the value of the solution
/// there.
pub proof fn lemma_only_place_is_solution(g: Grid, goal: Grid, row: int, col: int, v: u32)
    requires
        grid_wf(g),
        solves(goal, g),
        on_grid(row, col),
        cell(g, row, col).value == 0,
        only_place(g, row, col, v),
    ensures
        cell(goal, row, col).value == v,
{
    lemma_candidates_finite(g, row, col);
    let kind = if alone_in_row(g, row, col, v) {
        Group::Row
    } else if alone_in_col(g, row, col, v) {
        Group::Column
    } else {
        Group::Cube
    };
    let i = lemma_numeral_in_group(goal, kind, row, col, v);
    lemma_group_places(kind, row, col, i, 0);
    let at = member(kind, row, col, i);
    if at != (row, col) {
        assert(cell(g, at.0, at.1).value != 0 || cell(g, at.0, at.1).candidates.contains(v));
        if cell(g, at.0, at.1).value != 0 {
            assert(cell(g, at.0, at.1).value == v);
            assert(sees(row, col, at.0, at.1));
            assert(!cell(g, row, col).candidates.contains(cell(g, at.0, at.1).value));
        }
        assert(false);
    }
}

/// The hidden-single rule loses no solution.
pub proof fn lemma_hidden_single_keeps_solution(g: Grid, goal: Grid, row: int, col: int)
    requires
        grid_wf(g),
        solves(goal, g),
        on_grid(row, col),
    ensures
        hidden_single_step(g, row, col).answer is Ok,
        agrees(hidden_single_step(g, row, col).grid, goal),
{
    if cell(g, row, col).value == 0 {
        assert(cell(g, row, col).candidates.contains(cell(goal, row, col).value));
        lemma_first_only_place_listed(g, row, col, 1);
        match first_only_place(g, row, col, 1) {
            Some(v) => {
                lemma_only_place_is_solution(g, goal, row, col, v);
                lemma_place_agrees(g, goal, row, col, v);
            },
            None => {},
        }
    }
}

/// The twins among the first `k` places of a group are the places that the
/// test for a twin picks.
pub proof fn lemma_twins_are_picked(
    g: Grid,
    kind: Group,
    row: int,
    col: int,
    numerals: Set<u32>,
    k: nat,
)
    ensures
        twins_among(g, kind, row, col, numerals, k) == picked_among(
            |i: int| twin(g, member(kind, row, col, i).0, member(kind, row, col, i).1, numerals),
            k,
        ),
    decreases k,
{
    if k > 0 {
        lemma_twins_are_picked(g, kind, row, col, numerals, (k - 1) as nat);
    }
}

/// The naked n-ple rule in one group loses no solution, and it leaves the
/// cell it was applied to as it is.
pub proof fn lemma_tuple_keeps_solution(
    g: Grid,
    goal: Grid,
    kind: Group,
    row: int,
    col: int,
    n: nat,
)
    requires
        grid_wf(g),
        solves(goal, g),
        on_grid(row, col),
        cell(g, row, col).value == 0,
        cell(g, row, col).candidates.len() == n,
    ensures
        tuple_step(g, kind, row, col, n).answer is Ok,
        agrees(tuple_step(g, kind, row, col, n).grid, goal),
        grid_wf(tuple_step(g, kind, row, col, n).grid),
        cell(tuple_step(g, kind, row, col, n).grid, row, col) == cell(g, row, col),
{
    let numerals = cell(g, row, col).candidates;
    let pick = |i: int| twin(g, member(kind, row, col, i).0, member(kind, row, col, i).1, numerals);
    let held = picked_values(goal, kind, row, col, pick, 9);
    lemma_candidates_finite(g, row, col);
    lemma_twins_are_picked(g, kind, row, col, numerals, 9);
    lemma_picked_values_size(goal, kind, row, col, pick, 9);
    assert forall|v: u32| held.contains(v) implies numerals.contains(v) by {
        let i = choose|i: int|
            0 <= i < 9 && pick(i) && #[trigger] member_value(goal, kind, row, col, i) == v;
        lemma_group_places(kind, row, col, i, 0);
        let at = member(kind, row, col, i);
        assert(cell(g, at.0, at.1).candidates.contains(cell(goal, at.0, at.1).value));
    }
    vstd::set_lib::lemma_len_subset(held, numerals);
    lemma_tuple_step_sound(g, kind, row, col, n);
    if twins_among(g, kind, row, col, numerals, 9) == n {
        vstd::set_lib::lemma_subset_equality(held, numerals);
        let next = tuple_pruned(g, kind, row, col, numerals);
        assert forall|r: int, c: int| on_grid(r, c) implies if (#[trigger] cell(next, r, c)).value
            != 0 {
            cell(next, r, c).value == cell(goal, r, c).value
        } else {
            cell(next, r, c).candidates.contains(cell(goal, r, c).value)
        } by {
            assert(cell(g, r, c).value != 0 || cell(g, r, c).candidates.contains(
                cell(goal, r, c).value,
            ));
            let w = cell(goal, r, c).value;
            if in_group(kind, row, col, r, c) && !twin(g, r, c, numerals) && numerals.contains(w) {
                assert(held.contains(w));
                let i = choose|i: int|
                    0 <= i < 9 && pick(i) && #[trigger] member_value(goal, kind, row, col, i) == w;
                lemma_place_in_group(kind, row, col, r, c);
                lemma_group_places(kind, row, col, i, slot(kind, r, c));
                let at = member(kind, row, col, i);
                assert(cell(goal, at.0, at.1).value != 0);
                assert(cell(goal, at.0, at.1).value != cell(goal, r, c).value);
                assert(false);
            }
        }
    }
}

/// The naked n-ple rule loses no solution.
pub proof fn lemma_naked_nple_keeps_solution(g: Grid, goal: Grid, row: int, col: int, n: nat)
    requires
        grid_wf(g),
        solves(goal, g),
        on_grid(row, col),
    ensures
        naked_nple_step(g, row, col, n).answer is Ok,
        agrees(naked_nple_step(g, row, col, n).grid, goal),
{
    let here = cell(g, row, col);
    if here.value == 0 {
        assert(here.candidates.contains(cell(goal, row, col).value));
        if here.candidates.len() == n {
            let in_row = tuple_step(g, Group::Row, row, col, n);
            lemma_tuple_keeps_solution(g, goal, Group::Row, row, col, n);
            let second = tuple_step(in_row.grid, Group::Column, row, col, n);
            lemma_tuple_keeps_solution(in_row.grid, goal, Group::Column, row, col, n);
            let in_col = and_then(in_row, second);
            lemma_tuple_keeps_solution(in_col.grid, goal, Group::Cube, row, col, n);
        }
    }
}

/// No rule loses a solution: applied to a puzzle that `goal` solves, a rule
/// meets no contradiction and leaves a puzzle that `goal` solves.
pub proof fn lemma_rule_keeps_solution(g: Grid, goal: Grid, rule: Rule, row: int, col: int)
    requires
        grid_wf(g),
        solves(goal, g),
        on_grid(row, col),
    ensures
        rule_step(g, rule, row, col).answer is Ok,
        solves(goal, rule_step(g, rule, row, col).grid),
{
    match rule {
        Rule::NakedSingle => lemma_naked_single_keeps_solution(g, goal, row, col),
        Rule::HiddenSingle => lemma_hidden_single_keeps_solution(g, goal, row, col),
        Rule::NakedNple(n) => lemma_naked_nple_keeps_solution(g, goal, row, col, n as nat),
    }
}

/// No pass loses a solution.
pub proof fn lemma_pass_keeps_solution(g: Grid, goal: Grid, rule: Rule, k: nat)
    requires
        grid_wf(g),
        solves(goal, g),
        k <= 81,
    ensures
        pass_upto(g, rule, k).answer is Ok,
        solves(goal, pass_upto(g, rule, k).grid),
        grid_wf(pass_upto(g, rule, k).grid),
    decreases k,
{
    lemma_pass_upto_sound(g, rule, k);
    if k > 0 {
        lemma_pass_keeps_solution(g, goal, rule, (k - 1) as nat);
        let so_far = pass_upto(g, rule, (k - 1) as nat);
        lemma_rule_keeps_solution(so_far.grid, goal, rule, (k - 1) / 9, (k - 1) % 9);
    }
}

/// Repeated passes lose no solution: on a puzzle that has a solution they
/// meet no contradiction, and what solved the puzzle solves what they leave.
pub proof fn lemma_fixpoint_keeps_solution(g: Grid, goal: Grid, rule: Rule)
    requires
        grid_wf(g),
        solves(goal, g),
    ensures
        fixpoint(g, rule).answer is Ok,
        solves(goal, fixpoint(g, rule).grid),
    decreases candidate_count(g),
{
    let once = pass(g, rule);
    lemma_pass_keeps_solution(g, goal, rule, 81);
    lemma_pass_upto_sound(g, rule, 81);
    if once.answer == Ok::<bool, Contradiction>(true) && !all_set(once.grid) {
        lemma_fixpoint_keeps_solution(once.grid, goal, rule);
    }
}

/// A puzzle on which a pass or repeated passes meet a contradiction has no
/// solution.
pub proof fn lemma_contradiction_means_unsolvable(g: Grid, goal: Grid, rule: Rule)
    requires
        grid_wf(g),
        pass(g, rule).answer is Err || fixpoint(g, rule).answer is Err,
    ensures
        !solves(goal, g),
{
    if solves(goal, g) {
        lemma_pass_keeps_solution(g, goal, rule, 81);
        lemma_fixpoint_keeps_solution(g, goal, rule);
    }
}

/// A solved board that repeated passes have reached from a puzzle is the
/// solution of that puzzle, if it has one: no puzzle that deduction solves
/// has two solutions.
pub proof fn lemma_solved_means_unique(g: Grid, goal: Grid, rule: Rule)
    requires
        grid_wf(g),
        solves(goal, g),
        all_set(fixpoint(g, rule).grid),
    ensures
        fixpoint(g, rule).grid == goal,
{
    lemma_fixpoint_keeps_solution(g, goal, rule);
    lemma_fixpoint_sound(g, rule);
    lemma_solved_is_goal(fixpoint(g, rule).grid, goal);
}

} // verus!
