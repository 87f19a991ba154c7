use rustoku::board::{Board, PlaceError};
use rustoku::rules::{Contradiction, Group, Rule};

fn board_from(rows: [&str; 9]) -> Board {
    let mut board = Board::default();
    let mut text = String::new();
    for row in rows.iter() {
        text.push_str(row);
        text.push('\n');
    }
    assert_eq!(board.ingest_sdk_text(&text), Ok(()));
    board
}

fn values(board: &Board) -> Vec<Vec<u32>> {
    (0..9).map(|r| (0..9).map(|c| board.value_at(r, c)).collect()).collect()
}

fn count_unset(board: &Board) -> u32 {
    let mut n = 0;
    for r in 0..9 {
        for c in 0..9 {
            if board.value_at(r, c) == 0 {
                n += 1;
            }
        }
    }
    n
}

const SOLUTION: [&str; 9] = [
    "534678912",
    "672195348",
    "198342567",
    "859761423",
    "426853791",
    "713924856",
    "961537284",
    "287419635",
    "345286179",
];

#[test]
fn default_board_is_blank() {
    let board = Board::default();
    assert_eq!(board.unsolved_count(), 81);
    assert!(!board.self_solved());
    for r in 0..9 {
        for c in 0..9 {
            assert!(board.square_empty(r, c));
            assert_eq!(board.value_at(r, c), 0);
            assert_eq!(board.candidates_at(r, c), vec![1, 2, 3, 4, 5, 6, 7, 8, 9]);
        }
    }
}

#[test]
fn placement_eliminates_in_row_column_and_block() {
    let mut board = Board::default();
    assert_eq!(board.set_square(4, 4, 5), Ok(true));
    assert_eq!(board.value_at(4, 4), 5);
    assert!(board.candidates_at(4, 4).is_empty());
    assert_eq!(board.unsolved_count(), 80);
    for r in 0..9usize {
        for c in 0..9usize {
            if r == 4 && c == 4 {
                continue;
            }
            let sees = r == 4 || c == 4 || (r / 3 == 1 && c / 3 == 1);
            let listed = board.candidates_at(r, c).contains(&5);
            assert_eq!(listed, !sees, "cell ({}, {})", r, c);
            assert_eq!(board.candidates_at(r, c).len(), if sees { 8 } else { 9 });
        }
    }
}

#[test]
fn placement_reports_whether_it_rippled() {
    let mut board = Board::default();
    // take 2 away from every cell that sees (8, 8)
    assert_eq!(board.set_square(6, 0, 2), Ok(true));
    assert_eq!(board.set_square(7, 3, 2), Ok(true));
    for c in 0..8 {
        board.col_iter_mut(c, 2);
    }
    board.cube_iter_mut(0, 8, 2);
    board.cube_iter_mut(3, 8, 2);
    assert!(board.candidates_at(8, 8).contains(&2));
    assert_eq!(board.set_square(8, 8, 2), Ok(false));
    assert_eq!(board.value_at(8, 8), 2);
    assert_eq!(board.unsolved_count(), 78);
}

#[test]
fn placing_the_same_value_twice_is_rejected() {
    let mut board = Board::default();
    assert_eq!(board.set_square(0, 0, 5), Ok(true));
    assert_eq!(board.set_square(0, 0, 5), Err(PlaceError::Occupied));
    assert_eq!(board.set_square(0, 0, 6), Err(PlaceError::Occupied));
    assert_eq!(board.unsolved_count(), 80);
    assert_eq!(board.value_at(0, 0), 5);
}

#[test]
fn placing_an_excluded_value_is_rejected() {
    let mut board = Board::default();
    assert_eq!(board.set_square(0, 0, 5), Ok(true));
    assert_eq!(board.set_square(0, 8, 5), Err(PlaceError::NotPossible));
    assert_eq!(board.set_square(8, 0, 5), Err(PlaceError::NotPossible));
    assert_eq!(board.set_square(2, 2, 5), Err(PlaceError::NotPossible));
    assert_eq!(board.set_square(3, 3, 5), Ok(true));
    assert_eq!(board.unsolved_count(), 79);
}

#[test]
fn placing_something_that_is_no_numeral_is_rejected() {
    let mut board = Board::default();
    assert_eq!(board.set_square(0, 0, 0), Err(PlaceError::NotANumeral));
    assert_eq!(board.set_square(0, 0, 10), Err(PlaceError::NotANumeral));
    assert_eq!(board.unsolved_count(), 81);
    assert_eq!(board.candidates_at(0, 1).len(), 9);
}

#[test]
fn unsolved_count_follows_placements() {
    let mut board = Board::default();
    let mut expected = 81;
    for (i, row) in SOLUTION.iter().enumerate() {
        for (j, ch) in row.chars().enumerate() {
            assert_eq!(board.unsolved_count(), expected);
            assert_eq!(count_unset(&board), expected);
            board.set_square(i, j, ch.to_digit(10).unwrap()).unwrap();
            expected -= 1;
        }
    }
    assert_eq!(board.unsolved_count(), 0);
    assert!(board.self_solved());
}

#[test]
fn clear_squares_resets_everything() {
    let mut board = board_from(SOLUTION);
    assert!(board.self_solved());
    board.clear_squares();
    assert_eq!(board.unsolved_count(), 81);
    for r in 0..9 {
        for c in 0..9 {
            assert_eq!(board.value_at(r, c), 0);
            assert_eq!(board.candidates_at(r, c).len(), 9);
        }
    }
}

#[test]
fn placed_cells_never_list_candidates() {
    let mut board = board_from([
        "53..7....",
        "6..195...",
        ".98....6.",
        "8...6...3",
        "4..8.3..1",
        "7...2...6",
        ".6....28.",
        "...419..5",
        "....8..79",
    ]);
    let _ = board.run_to_fixpoint(Rule::HiddenSingle);
    for r in 0..9 {
        for c in 0..9 {
            if board.value_at(r, c) != 0 {
                assert!(board.candidates_at(r, c).is_empty());
            }
        }
    }
    assert_eq!(board.unsolved_count(), count_unset(&board));
}

#[test]
fn col_iter_mut_eliminates_in_one_column() {
    let mut board = Board::default();
    assert!(board.col_iter_mut(3, 7));
    assert!(!board.col_iter_mut(3, 7));
    for r in 0..9 {
        for c in 0..9 {
            assert_eq!(board.candidates_at(r, c).contains(&7), c != 3);
        }
    }
    assert_eq!(board.unsolved_count(), 81);
}

#[test]
fn cube_iter_mut_eliminates_in_one_block() {
    let mut board = Board::default();
    assert!(board.cube_iter_mut(4, 7, 2));
    assert!(!board.cube_iter_mut(5, 8, 2));
    for r in 0..9usize {
        for c in 0..9usize {
            let inside = r / 3 == 1 && c / 3 == 2;
            assert_eq!(board.candidates_at(r, c).contains(&2), !inside);
        }
    }
}

#[test]
fn get_possible_numbers_is_ascending() {
    let mut board = Board::default();
    board.set_square(0, 0, 3).unwrap();
    board.set_square(1, 1, 7).unwrap();
    assert_eq!(board.get_possible_numbers(2, 2), Ok(vec![1, 2, 4, 5, 6, 8, 9]));
    assert_eq!(board.get_possible_numbers(0, 0), Ok(vec![]));
}

#[test]
fn get_possible_numbers_reports_a_cell_without_candidates() {
    let mut board = Board::default();
    for v in 1..=9 {
        board.col_iter_mut(0, v);
    }
    assert_eq!(board.get_possible_numbers(0, 0), Err(Contradiction::NoCandidates));
    assert_eq!(board.get_possible_numbers(0, 1).map(|v| v.len()), Ok(9));
}

#[test]
fn naked_single_fills_the_only_candidate() {
    let mut board = board_from([
        "1.3456789",
        ".........",
        ".........",
        ".........",
        ".........",
        ".........",
        ".........",
        ".........",
        ".........",
    ]);
    assert_eq!(board.candidates_at(0, 1), vec![2]);
    assert_eq!(Board::naked_single(&mut board, 0, 1), Ok(true));
    assert_eq!(board.value_at(0, 1), 2);
    assert_eq!(board.unsolved_count(), 72);
}

#[test]
fn naked_single_leaves_other_cells_alone() {
    let mut board = Board::default();
    board.set_square(0, 0, 1).unwrap();
    // eight candidates left: nothing to place
    assert_eq!(Board::naked_single(&mut board, 0, 1), Ok(false));
    assert_eq!(board.value_at(0, 1), 0);
    // a placed cell is skipped
    assert_eq!(Board::naked_single(&mut board, 0, 0), Ok(false));
    assert_eq!(board.unsolved_count(), 80);
}

#[test]
fn naked_single_reports_a_contradiction() {
    let mut board = Board::default();
    for v in 1..=9 {
        board.cube_iter_mut(0, 0, v);
    }
    assert_eq!(Board::naked_single(&mut board, 1, 1), Err(Contradiction::NoCandidates));
    assert_eq!(board.unsolved_count(), 81);
}

#[test]
fn number_fits_here_looks_at_the_other_cells() {
    let mut board = Board::default();
    assert!(!board.number_fits_here_in_row(0, 0, 4));
    assert!(!board.number_fits_here_in_col(0, 0, 4));
    assert!(!board.number_fits_here_in_cube(0, 0, 4));
    for c in 1..9 {
        board.col_iter_mut(c, 4);
    }
    assert!(board.number_fits_here_in_row(0, 0, 4));
    assert!(!board.number_fits_here_in_col(0, 0, 4));
    assert!(!board.number_fits_here_in_cube(0, 0, 4));
    assert!(!board.number_fits_here_in_row(0, 1, 4));
    assert!(board.number_fits_here_in_col(8, 8, 4));
    assert!(board.number_fits_here_in_cube(7, 7, 4));
}

#[test]
fn hidden_single_places_a_numeral_with_one_home_in_the_block() {
    let mut board = Board::default();
    board.set_square(1, 3, 1).unwrap();
    board.set_square(2, 6, 1).unwrap();
    board.set_square(3, 1, 1).unwrap();
    board.set_square(6, 2, 1).unwrap();
    assert_eq!(board.candidates_at(0, 0).len(), 9);
    assert!(board.number_fits_here_in_cube(0, 0, 1));
    assert_eq!(Board::square_only_possible_location(&mut board, 0, 0), Ok(true));
    assert_eq!(board.value_at(0, 0), 1);
    assert_eq!(board.unsolved_count(), 76);
}

#[test]
fn hidden_single_takes_the_least_numeral() {
    let mut board = Board::default();
    // in row 0 only (0, 0) may hold 7 and only (0, 0) may hold 3
    for c in 1..9 {
        board.col_iter_mut(c, 7);
        board.col_iter_mut(c, 3);
    }
    assert_eq!(Board::square_only_possible_location(&mut board, 0, 0), Ok(true));
    assert_eq!(board.value_at(0, 0), 3);
}

#[test]
fn hidden_single_without_a_home_changes_nothing() {
    let mut board = Board::default();
    assert_eq!(Board::square_only_possible_location(&mut board, 4, 4), Ok(false));
    board.set_square(4, 4, 9).unwrap();
    assert_eq!(Board::square_only_possible_location(&mut board, 4, 4), Ok(false));
    assert_eq!(board.unsolved_count(), 80);
}

#[test]
fn hidden_single_reports_a_contradiction() {
    let mut board = Board::default();
    for v in 1..=9 {
        board.col_iter_mut(5, v);
    }
    assert_eq!(
        Board::square_only_possible_location(&mut board, 2, 5),
        Err(Contradiction::NoCandidates)
    );
}

/// Leaves only `keep` as candidates in every cell of a column.
fn keep_in_column(board: &mut Board, col: usize, keep: &[u32]) {
    for v in 1..=9u32 {
        if !keep.contains(&v) {
            board.col_iter_mut(col, v);
        }
    }
}

#[test]
fn naked_pair_prunes_the_rest_of_the_row() {
    let mut board = Board::default();
    // columns 0 and 1 keep only 3 and 6 in every row
    keep_in_column(&mut board, 0, &[3, 6]);
    keep_in_column(&mut board, 1, &[3, 6]);
    assert_eq!(board.candidates_at(0, 0), vec![3, 6]);
    assert_eq!(board.candidates_at(0, 1), vec![3, 6]);
    assert_eq!(board.tuple_in_group(Group::Row, 0, 0, 2), Ok(true));
    for c in 2..9 {
        assert_eq!(board.candidates_at(0, c), vec![1, 2, 4, 5, 7, 8, 9]);
    }
    assert_eq!(board.candidates_at(0, 0), vec![3, 6]);
    assert_eq!(board.candidates_at(0, 1), vec![3, 6]);
    // other rows are untouched
    assert_eq!(board.candidates_at(1, 2).len(), 9);
    // a second run has nothing left to prune
    assert_eq!(board.tuple_in_group(Group::Row, 0, 0, 2), Ok(false));
    assert_eq!(board.unsolved_count(), 81);
}

#[test]
fn naked_pair_in_the_block() {
    let mut board = Board::default();
    keep_in_column(&mut board, 0, &[3, 6]);
    keep_in_column(&mut board, 1, &[3, 6]);
    assert_eq!(board.tuple_in_group(Group::Cube, 1, 1, 2), Err(Contradiction::CrowdedTuple));
}

#[test]
fn naked_nple_prunes_in_the_block() {
    let mut board = Board::default();
    for (c, v) in [(2, 1), (3, 2), (4, 4), (5, 5), (6, 7), (7, 8), (8, 9)] {
        board.set_square(0, c, v).unwrap();
    }
    assert_eq!(board.candidates_at(0, 0), vec![3, 6]);
    assert_eq!(board.candidates_at(0, 1), vec![3, 6]);
    assert_eq!(board.candidates_at(1, 0), vec![2, 3, 4, 5, 6, 7, 8, 9]);
    assert_eq!(board.nakend_nple(0, 0, 2), Ok(true));
    for (r, c) in [(1, 0), (1, 1), (1, 2), (2, 0), (2, 1), (2, 2)] {
        assert_eq!(board.candidates_at(r, c), vec![2, 4, 5, 7, 8, 9]);
    }
    assert_eq!(board.candidates_at(0, 0), vec![3, 6]);
    assert_eq!(board.candidates_at(0, 1), vec![3, 6]);
    assert_eq!(board.candidates_at(3, 0).len(), 9);
    assert_eq!(board.nakend_nple(0, 0, 2), Ok(false));
    assert_eq!(board.nakend_nple(0, 1, 2), Ok(false));
}

#[test]
fn naked_nple_prunes_in_the_column() {
    let mut board = Board::default();
    for (r, v) in [(1, 1), (2, 2), (3, 4), (5, 5), (6, 7), (7, 8)] {
        board.set_square(r, 0, v).unwrap();
    }
    board.set_square(0, 5, 9).unwrap();
    board.set_square(4, 8, 9).unwrap();
    assert_eq!(board.candidates_at(0, 0), vec![3, 6]);
    assert_eq!(board.candidates_at(4, 0), vec![3, 6]);
    assert_eq!(board.candidates_at(8, 0), vec![3, 6, 9]);
    assert_eq!(board.nakend_nple(4, 0, 2), Ok(true));
    assert_eq!(board.candidates_at(8, 0), vec![9]);
    assert_eq!(board.candidates_at(0, 0), vec![3, 6]);
    assert_eq!(board.nakend_nple(0, 0, 2), Ok(false));
    assert_eq!(board.unsolved_count(), 73);
}

#[test]
fn naked_nple_skips_cells_of_another_size() {
    let mut board = Board::default();
    assert_eq!(board.nakend_nple(0, 0, 2), Ok(false));
    assert_eq!(board.nakend_nple(0, 0, 0), Ok(false));
    board.set_square(0, 0, 1).unwrap();
    assert_eq!(board.nakend_nple(0, 0, 0), Ok(false));
    // eight twins in the row and in the block, and nobody else to prune
    assert_eq!(board.nakend_nple(0, 1, 8), Ok(false));
    // a cell with eight candidates is no tuple of seven
    assert_eq!(board.nakend_nple(0, 1, 7), Ok(false));
}

#[test]
fn naked_nple_too_many_twins_is_a_contradiction() {
    let mut board = Board::default();
    keep_in_column(&mut board, 0, &[3, 6]);
    keep_in_column(&mut board, 1, &[3, 6]);
    keep_in_column(&mut board, 2, &[3, 6]);
    assert_eq!(board.tuple_in_group(Group::Row, 0, 0, 2), Err(Contradiction::CrowdedTuple));
    assert_eq!(board.nakend_nple(0, 1, 2), Err(Contradiction::CrowdedTuple));
    // nothing was pruned
    assert_eq!(board.candidates_at(0, 5).len(), 9);
}

#[test]
fn naked_nple_reports_a_cell_without_candidates() {
    let mut board = Board::default();
    keep_in_column(&mut board, 4, &[]);
    assert_eq!(board.nakend_nple(3, 4, 0), Err(Contradiction::NoCandidates));
}

#[test]
fn group_member_walks_the_group() {
    assert_eq!(Board::group_member(Group::Row, 4, 7, 2), (4, 2));
    assert_eq!(Board::group_member(Group::Column, 4, 7, 2), (2, 7));
    assert_eq!(Board::group_member(Group::Cube, 4, 7, 0), (3, 6));
    assert_eq!(Board::group_member(Group::Cube, 4, 7, 5), (4, 8));
    assert_eq!(Board::group_member(Group::Cube, 4, 7, 8), (5, 8));
}

#[test]
fn one_pass_visits_row_by_row() {
    // (0, 0) has two candidates until (0, 1) is placed, and its turn comes first
    let mut board = board_from([
        "..4678912",
        "672195348",
        "198342567",
        "859761423",
        "426853791",
        "713924856",
        "961537284",
        "287419635",
        ".45286179",
    ]);
    assert_eq!(board.candidates_at(0, 0), vec![3, 5]);
    assert_eq!(board.iterate_over_board(Rule::NakedSingle), Ok(true));
    assert_eq!(board.value_at(0, 0), 0);
    assert_eq!(board.value_at(0, 1), 3);
    assert_eq!(board.value_at(8, 0), 3);
    assert_eq!(board.candidates_at(0, 0), vec![5]);
    assert_eq!(board.iterate_over_board(Rule::NakedSingle), Ok(true));
    assert_eq!(board.value_at(0, 0), 5);
    assert!(board.self_solved());
    assert_eq!(board.iterate_over_board(Rule::NakedSingle), Ok(false));
}

#[test]
fn a_pass_goes_on_after_the_first_change() {
    let mut board = board_from([
        ".34678912",
        "672195348",
        "198342567",
        "859761423",
        "426853791",
        "713924856",
        "961537284",
        "287419635",
        "34528617.",
    ]);
    assert_eq!(board.iterate_over_board(Rule::NakedSingle), Ok(true));
    assert_eq!(board.value_at(0, 0), 5);
    assert_eq!(board.value_at(8, 8), 9);
    assert!(board.self_solved());
}

#[test]
fn a_pass_stops_at_a_contradiction() {
    let mut board = board_from([
        "1.3456789",
        ".........",
        ".........",
        ".........",
        ".........",
        ".........",
        ".........",
        ".........",
        ".........",
    ]);
    // (1, 0) loses everything; the pass places 2 at (0, 1) and stops at (1, 0)
    for v in 1..=9 {
        board.cube_iter_mut(3, 0, v);
    }
    for v in 1..=9 {
        assert!(!board.candidates_at(3, 0).contains(&v));
    }
    assert_eq!(board.iterate_over_board(Rule::NakedSingle), Err(Contradiction::NoCandidates));
    assert_eq!(board.value_at(0, 1), 2);
    assert_eq!(board.unsolved_count(), 72);
}

#[test]
fn naked_singles_to_fixpoint_solve_a_puzzle_of_naked_singles() {
    let mut board = board_from([
        ".........",
        ".72195348",
        "1983425.7",
        "85976.423",
        "4268.3791",
        "713.24856",
        "96.537284",
        "2.7419635",
        "34528617.",
    ]);
    assert!(!board.self_solved());
    assert_eq!(board.run_to_fixpoint(Rule::NakedSingle), Ok(true));
    assert!(board.self_solved());
    let expected: Vec<Vec<u32>> =
        SOLUTION.iter().map(|r| r.chars().map(|c| c.to_digit(10).unwrap()).collect()).collect();
    assert_eq!(values(&board), expected);
    assert_eq!(board.run_to_fixpoint(Rule::NakedSingle), Ok(false));
}

#[test]
fn singles_solve_a_newspaper_puzzle() {
    let mut board = board_from([
        "53..7....",
        "6..195...",
        ".98....6.",
        "8...6...3",
        "4..8.3..1",
        "7...2...6",
        ".6....28.",
        "...419..5",
        "....8..79",
    ]);
    assert_eq!(board.unsolved_count(), 51);
    let mut rounds = 0;
    while !board.self_solved() && rounds < 100 {
        let a = board.run_to_fixpoint(Rule::NakedSingle).unwrap();
        let b = board.run_to_fixpoint(Rule::HiddenSingle).unwrap();
        assert!(a || b, "no progress");
        rounds += 1;
    }
    assert!(board.self_solved());
    let expected: Vec<Vec<u32>> =
        SOLUTION.iter().map(|r| r.chars().map(|c| c.to_digit(10).unwrap()).collect()).collect();
    assert_eq!(values(&board), expected);
}

#[test]
fn fixpoint_on_a_blank_board_changes_nothing() {
    let mut board = Board::default();
    assert_eq!(board.run_to_fixpoint(Rule::NakedSingle), Ok(false));
    assert_eq!(board.run_to_fixpoint(Rule::HiddenSingle), Ok(false));
    assert_eq!(board.unsolved_count(), 81);
}

#[test]
fn fixpoint_of_pairs_prunes_until_nothing_moves() {
    let mut board = Board::default();
    keep_in_column(&mut board, 0, &[3, 6]);
    keep_in_column(&mut board, 1, &[3, 6]);
    // every row has the pair in columns 0 and 1, every column has nine twins
    assert_eq!(board.run_to_fixpoint(Rule::NakedNple(2)), Err(Contradiction::CrowdedTuple));
}

#[test]
fn apply_rule_dispatches() {
    let mut board = board_from([
        "1.3456789",
        ".........",
        ".........",
        ".........",
        ".........",
        ".........",
        ".........",
        ".........",
        ".........",
    ]);
    assert_eq!(board.apply_rule(Rule::NakedNple(3), 0, 1), Ok(false));
    assert_eq!(board.apply_rule(Rule::HiddenSingle, 0, 1), Ok(true));
    assert_eq!(board.value_at(0, 1), 2);
    assert_eq!(board.apply_rule(Rule::NakedSingle, 0, 1), Ok(false));
}

#[test]
fn eliminate_except_spares_one_place_of_the_group() {
    let mut board = Board::default();
    assert!(board.eliminate_except(Group::Column, 4, 2, 4, 6));
    for r in 0..9 {
        assert_eq!(board.candidates_at(r, 2).contains(&6), r == 4);
        assert!(board.candidates_at(r, 3).contains(&6));
    }
    assert!(!board.eliminate_except(Group::Column, 0, 2, 4, 6));
    assert!(board.eliminate_except(Group::Cube, 4, 4, 0, 1));
    for r in 3..6 {
        for c in 3..6 {
            assert_eq!(board.candidates_at(r, c).contains(&1), (r, c) == (3, 3));
        }
    }
    assert!(board.eliminate_except(Group::Row, 8, 0, 8, 9));
    for c in 0..9 {
        assert_eq!(board.candidates_at(8, c).contains(&9), c == 8);
    }
    assert_eq!(board.unsolved_count(), 81);
}

#[test]
fn find_unique_possible_value_index_in_each_kind_of_group() {
    let mut board = Board::default();
    assert_eq!(board.find_unique_possible_value_index(Group::Row, 0, 0, 5), None);
    board.eliminate_except(Group::Row, 0, 0, 7, 5);
    assert_eq!(board.find_unique_possible_value_index(Group::Row, 0, 3, 5), Some(7));
    assert_eq!(board.find_unique_possible_value_index(Group::Column, 0, 7, 5), None);
    board.eliminate_except(Group::Cube, 7, 7, 5, 2);
    assert_eq!(board.find_unique_possible_value_index(Group::Cube, 8, 6, 2), Some(5));
    assert_eq!(board.possibilities_at(Group::Cube, 8, 6, 5), vec![1, 2, 3, 4, 5, 6, 7, 8, 9]);
    assert_eq!(board.possibilities_at(Group::Cube, 8, 6, 4), vec![1, 3, 4, 5, 6, 7, 8, 9]);
    board.eliminate_except(Group::Column, 0, 4, 9, 8);
    assert_eq!(board.find_unique_possible_value_index(Group::Column, 3, 4, 8), None);
    board.set_square(2, 2, 8).unwrap();
    assert_eq!(board.find_unique_possible_value_index(Group::Row, 2, 0, 8), None);
}

#[test]
fn possibilities_at_reads_through_the_group() {
    let mut board = Board::default();
    board.set_square(4, 7, 3).unwrap();
    assert_eq!(board.possibilities_at(Group::Row, 4, 0, 7), Vec::<u32>::new());
    assert_eq!(board.possibilities_at(Group::Column, 0, 7, 4), Vec::<u32>::new());
    assert_eq!(board.possibilities_at(Group::Cube, 3, 6, 4), Vec::<u32>::new());
    assert_eq!(board.possibilities_at(Group::Row, 4, 0, 0), vec![1, 2, 4, 5, 6, 7, 8, 9]);
    assert_eq!(board.possibilities_at(Group::Row, 0, 0, 0).len(), 9);
}

#[test]
fn a_puzzle_without_solution_ends_in_a_contradiction() {
    // (0, 8) must be 9, and 9 stands below it in its column
    let mut board = board_from([
        "12345678.",
        ".........",
        ".........",
        ".........",
        ".........",
        "........9",
        ".........",
        ".........",
        ".........",
    ]);
    assert!(board.candidates_at(0, 8).is_empty());
    assert_eq!(board.get_possible_numbers(0, 8), Err(Contradiction::NoCandidates));
    assert_eq!(board.run_to_fixpoint(Rule::NakedSingle), Err(Contradiction::NoCandidates));
    assert_eq!(board.run_to_fixpoint(Rule::HiddenSingle), Err(Contradiction::NoCandidates));
    assert_eq!(board.iterate_over_board(Rule::NakedNple(2)), Err(Contradiction::NoCandidates));
    assert_eq!(board.unsolved_count(), 72);
}
