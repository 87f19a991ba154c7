//! Index arithmetic for the 3x3 blocks, and intersections of numeral lists.

use vstd::prelude::*;

verus! {

/// The block that holds the cell in row `row` and column `col`, counted
/// left to right and top to bottom.
pub open spec fn cube_of(row: int, col: int) -> int {
    (row / 3) * 3 + col / 3
}

/// The place of the cell inside its block, counted in the same way.
pub open spec fn inner_of(row: int, col: int) -> int {
    (row % 3) * 3 + col % 3
}

/// The block of a cell and the cell's place inside that block. On the 9x9
/// grid both are below 9, and the pair determines the cell.
pub fn row_and_col_to_cube_location(row_index: usize, col_index: usize) -> (r: (usize, usize))
    requires
        cube_of(row_index as int, col_index as int) <= usize::MAX,
    ensures
        r.0 == cube_of(row_index as int, col_index as int),
        r.1 == inner_of(row_index as int, col_index as int),
        r.1 < 9,
        row_index < 9 && col_index < 9 ==> r.0 < 9,
        row_index < 9 && col_index < 9 ==> row_index == (r.0 / 3) * 3 + r.1 / 3,
        row_index < 9 && col_index < 9 ==> col_index == (r.0 % 3) * 3 + r.1 % 3,
{
    // returns the cube index, and inner cube index, given the coordinates
    let row_three = (row_index / 3) * 3;
    let col_three = col_index / 3;
    let cube_index = row_three + col_three;
    // now lets get the index inside the cube
    let row_mod_three = row_index % 3;
    let col_mod_three = col_index % 3;
    let inner_cube_index = (row_mod_three * 3) + col_mod_three;

    (cube_index, inner_cube_index)
}

/// Whether `value` occurs in `vector`.
pub fn vector_contains(vector: &Vec<u32>, value: u32) -> (r: bool)
    ensures
        r == vector@.contains(value),
{
    let mut i: usize = 0;
    while i < vector.len()
        invariant
            i <= vector.len(),
            forall|j: int| 0 <= j < i ==> #[trigger] vector@[j] != value,
        decreases vector.len() - i,
    {
        if vector[i] == value {
            return true;
        }
        i += 1;
    }
    false
}

/// The entries of `vector_a` that also occur in `vector_b`, in the order and
/// with the multiplicity they have in `vector_a`.
pub fn intersection_of_u32_vectors(vector_a: Vec<u32>, vector_b: Vec<u32>) -> (r: Vec<u32>)
    ensures
        r@ == vector_a@.filter(|v: u32| vector_b@.contains(v)),
{
    let mut intersection_vec: Vec<u32> = Vec::new();
    let ghost in_b = |v: u32| vector_b@.contains(v);
    let mut i: usize = 0;
    while i < vector_a.len()
        invariant
            i <= vector_a.len(),
            in_b == (|v: u32| vector_b@.contains(v)),
            intersection_vec@ == vector_a@.take(i as int).filter(in_b),
        decreases vector_a.len() - i,
    {
        let value = vector_a[i];
        proof {
            let longer = vector_a@.take(i + 1);
            assert(longer.drop_last() == vector_a@.take(i as int));
            assert(longer.last() == value);
            reveal_with_fuel(Seq::filter, 2);
        }
        if vector_contains(&vector_b, value) {
            intersection_vec.push(value);
        }
        i += 1;
    }
    assert(vector_a@.take(vector_a@.len() as int) == vector_a@);
    intersection_vec
}

/// The entries of `vector_a` that occur in both other vectors.
pub fn collapse_three_vectors(vector_a: Vec<u32>, vector_b: Vec<u32>, vector_c: Vec<u32>) -> (r:
    Vec<u32>)
    ensures
        r@ == vector_a@.filter(|v: u32| vector_b@.contains(v)).filter(
            |v: u32| vector_c@.contains(v),
        ),
{
    let mut inter_vec: Vec<u32> = intersection_of_u32_vectors(vector_a, vector_b);
    inter_vec = intersection_of_u32_vectors(inter_vec, vector_c);
    inter_vec
}

} // verus!
