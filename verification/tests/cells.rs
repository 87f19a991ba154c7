use rustoku::collection::{Collection, SquareOp};
use rustoku::helper_functions::{
    collapse_three_vectors, intersection_of_u32_vectors, row_and_col_to_cube_location,
    vector_contains,
};
use rustoku::square::{NumberPossible, Possiblities, Square};

#[test]
fn number_possible_can_be_switched() {
    let mut entry = NumberPossible::new(4);
    entry.set_possible(false);
    entry.set_possible(true);
    let copy = entry;
    let _ = copy;
}

#[test]
fn default_possibilities_hold_all_nine() {
    let all = Possiblities::default();
    assert_eq!(all.get_possible_numbers(), vec![1, 2, 3, 4, 5, 6, 7, 8, 9]);
    for n in 1..=9 {
        assert!(all.contains(n));
    }
    assert!(!all.contains(0));
    assert!(!all.contains(10));
    assert!(!all.is_empty());
}

#[test]
fn remove_reports_change_once() {
    let mut set = Possiblities::default();
    assert!(set.remove(4));
    assert!(!set.remove(4));
    assert!(!set.contains(4));
    assert_eq!(set.get_possible_numbers(), vec![1, 2, 3, 5, 6, 7, 8, 9]);
}

#[test]
fn remove_outside_the_numerals_is_a_no_op() {
    let mut set = Possiblities::default();
    assert!(!set.remove(0));
    assert!(!set.remove(10));
    assert!(!set.remove(u32::MAX));
    assert_eq!(set.get_possible_numbers().len(), 9);
}

#[test]
fn clear_and_reset_possibilities() {
    let mut set = Possiblities::default();
    set.clear();
    assert!(set.is_empty());
    assert_eq!(set.get_possible_numbers(), Vec::<u32>::new());
    set.reset();
    assert_eq!(set.get_possible_numbers(), vec![1, 2, 3, 4, 5, 6, 7, 8, 9]);
}

#[test]
fn possible_numbers_are_recomputed_on_each_call() {
    let mut set = Possiblities::default();
    let first = set.get_possible_numbers();
    set.remove(1);
    let second = set.get_possible_numbers();
    assert_eq!(first.len(), 9);
    assert_eq!(second, vec![2, 3, 4, 5, 6, 7, 8, 9]);
    assert_eq!(set.get_possible_numbers(), second);
}

#[test]
fn same_as_compares_candidates() {
    let mut a = Possiblities::default();
    let mut b = Possiblities::default();
    assert!(a.same_as(&b));
    a.remove(3);
    assert!(!a.same_as(&b));
    b.remove(3);
    assert!(a.same_as(&b));
}

#[test]
fn default_square_is_unset_with_all_candidates() {
    let mut square = Square::default();
    assert!(square.is_empty());
    assert_eq!(square.get_value(), 0);
    assert_eq!(square.get_possible_numbers().len(), 9);
    assert!(square.number_possible(9));
}

#[test]
fn placed_square_has_no_candidates() {
    let mut square = Square::default();
    square.set_value(7);
    assert!(!square.is_empty());
    assert_eq!(square.get_value(), 7);
    assert!(square.get_possible_numbers().is_empty());
    assert!(!square.number_possible(7));
    // nothing to remove on a placed cell
    assert!(!square.remove_possibility(3));
    assert!(square.get_possible_numbers().is_empty());
}

#[test]
fn setting_zero_unsets_the_square() {
    let mut square = Square::default();
    square.set_value(7);
    square.set_value(0);
    assert!(square.is_empty());
    assert_eq!(square.get_possible_numbers(), vec![1, 2, 3, 4, 5, 6, 7, 8, 9]);
}

#[test]
fn square_remove_possibility_reports_change() {
    let mut square = Square::default();
    assert!(square.remove_possibility(5));
    assert!(!square.remove_possibility(5));
    assert_eq!(square.get_possible_numbers(), vec![1, 2, 3, 4, 6, 7, 8, 9]);
}

#[test]
fn square_remove_possibilities_takes_several() {
    let mut square = Square::default();
    assert!(square.remove_possibilities(&vec![2, 4, 6]));
    assert_eq!(square.get_possible_numbers(), vec![1, 3, 5, 7, 8, 9]);
    assert!(!square.remove_possibilities(&vec![2, 4, 6]));
    assert!(square.remove_possibilities(&vec![2, 9]));
    assert_eq!(square.get_possible_numbers(), vec![1, 3, 5, 7, 8]);
    assert!(!square.remove_possibilities(&vec![]));
}

#[test]
fn same_candidates_ignores_nothing_but_candidates() {
    let mut a = Square::default();
    let b = Square::default();
    assert!(a.same_candidates(&b));
    a.remove_possibility(1);
    assert!(!a.same_candidates(&b));
}

#[test]
fn collection_set_square_eliminates_in_the_row() {
    let mut row = Collection::default();
    assert!(row.set_square(3, 8));
    assert!(!row.square_empty(3));
    for i in 0..9 {
        if i != 3 {
            assert!(row.square_empty(i));
            assert_eq!(row.get_possible_numbers(i), vec![1, 2, 3, 4, 5, 6, 7, 9]);
        }
    }
    assert!(row.get_possible_numbers(3).is_empty());
}

#[test]
fn collection_set_square_reports_no_change_when_nobody_listed_it() {
    let mut row = Collection::default();
    for i in 0..9 {
        if i != 0 {
            row.remove_possibility(i, 5);
        }
    }
    assert!(!row.set_square(0, 5));
}

#[test]
fn collection_eliminate_except_spares_the_cell() {
    let mut row = Collection::default();
    assert!(row.eliminate_except(2, 6));
    assert_eq!(row.get_possible_numbers(2).len(), 9);
    assert_eq!(row.get_possible_numbers(0), vec![1, 2, 3, 4, 5, 7, 8, 9]);
    assert!(!row.eliminate_except(2, 6));
}

#[test]
fn collection_remove_possibility_touches_one_cell() {
    let mut row = Collection::default();
    assert!(row.remove_possibility(4, 1));
    assert!(!row.remove_possibility(4, 1));
    assert_eq!(row.get_possible_numbers(4), vec![2, 3, 4, 5, 6, 7, 8, 9]);
    assert_eq!(row.get_possible_numbers(5).len(), 9);
}

#[test]
fn collection_remove_possibilities_touches_one_cell() {
    let mut row = Collection::default();
    assert!(row.remove_possibilities(4, &vec![1, 2, 3]));
    assert_eq!(row.get_possible_numbers(4), vec![4, 5, 6, 7, 8, 9]);
    assert_eq!(row.get_possible_numbers(3).len(), 9);
}

#[test]
fn alter_square_applies_the_chosen_operation() {
    let mut row = Collection::default();
    assert!(row.alter_square(1, 9, SquareOp::RemovePossibility));
    assert!(!row.alter_square(1, 9, SquareOp::RemovePossibility));
    assert!(row.alter_square(1, 4, SquareOp::SetValue));
    assert!(!row.alter_square(1, 4, SquareOp::SetValue));
    assert!(!row.square_empty(1));
    // nobody else in the row was told
    assert_eq!(row.get_possible_numbers(0).len(), 9);
    assert!(row.alter_square(1, 0, SquareOp::SetValue));
    assert!(row.square_empty(1));
    assert!(!row.alter_square(1, 0, SquareOp::SetValue));
}

#[test]
fn find_unique_possible_value_index_needs_exactly_one() {
    let mut row = Collection::default();
    assert_eq!(row.find_unique_possible_value_index(3), None);
    for i in 0..9 {
        if i != 6 {
            row.remove_possibility(i, 3);
        }
    }
    assert_eq!(row.find_unique_possible_value_index(3), Some(6));
    row.remove_possibility(6, 3);
    assert_eq!(row.find_unique_possible_value_index(3), None);
    assert_eq!(row.find_unique_possible_value_index(0), None);
}

#[test]
fn cube_location_of_every_corner() {
    assert_eq!(row_and_col_to_cube_location(0, 0), (0, 0));
    assert_eq!(row_and_col_to_cube_location(0, 8), (2, 2));
    assert_eq!(row_and_col_to_cube_location(8, 0), (6, 6));
    assert_eq!(row_and_col_to_cube_location(8, 8), (8, 8));
    assert_eq!(row_and_col_to_cube_location(4, 4), (4, 4));
    assert_eq!(row_and_col_to_cube_location(5, 3), (4, 6));
    assert_eq!(row_and_col_to_cube_location(2, 7), (2, 7));
}

#[test]
fn cube_location_determines_the_cell() {
    for row in 0..9usize {
        for col in 0..9usize {
            let (cube, inner) = row_and_col_to_cube_location(row, col);
            assert!(cube < 9 && inner < 9);
            assert_eq!((cube / 3) * 3 + inner / 3, row);
            assert_eq!((cube % 3) * 3 + inner % 3, col);
        }
    }
}

#[test]
fn intersection_keeps_order_and_multiplicity_of_the_first() {
    assert_eq!(intersection_of_u32_vectors(vec![1, 2, 3, 4], vec![4, 2, 9]), vec![2, 4]);
    assert_eq!(intersection_of_u32_vectors(vec![5, 5, 1], vec![5]), vec![5, 5]);
    assert_eq!(intersection_of_u32_vectors(vec![], vec![1]), Vec::<u32>::new());
    assert_eq!(intersection_of_u32_vectors(vec![1], vec![]), Vec::<u32>::new());
}

#[test]
fn collapse_three_vectors_intersects_all() {
    assert_eq!(
        collapse_three_vectors(vec![1, 2, 3, 4, 5], vec![2, 3, 4, 6], vec![9, 4, 3]),
        vec![3, 4]
    );
    assert_eq!(collapse_three_vectors(vec![1, 2], vec![1, 2], vec![7]), Vec::<u32>::new());
}

#[test]
fn vector_contains_finds_entries() {
    assert!(vector_contains(&vec![3, 1, 2], 2));
    assert!(!vector_contains(&vec![3, 1, 2], 4));
    assert!(!vector_contains(&vec![], 0));
}
