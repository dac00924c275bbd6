use lin_reg::bool_alg::{BoolMat, BoolVec};


#[test]
fn test_from_coord_basic() {
    // Setup a 3x3 matrix with 4 transitions
    let shape = (3, 3);

    // The coordinates come out of order
    let coords = vec![(0, 2), (2, 0), (0, 1), (1, 2)];

    // Construct the matrix
    let mat = BoolMat::from_coord(coords, shape)
        .expect("Failed to build BoolMat; expected Some but got None");

    // 1. Check the shape
    assert_eq!(mat.shape, (3, 3));

    // 2. Check the column indices
    // After row-major sorting, coords become: (0,1), (0,2), (1,2), (2,0)
    // So the column indices should be extracted exactly in that order
    assert_eq!(mat.col_indx, vec![1, 2, 2, 0]);

    // 3. Check the row pointers
    // Row 0 has 2 elements (cols 1, 2) -> starts at index 0
    // Row 1 has 1 element (col 2)      -> starts at index 2
    // Row 2 has 1 element (col 0)      -> starts at index 3
    // End of array                     -> total elements = 4
    // The length must be shape.0 + 1 (which is 4)
    assert_eq!(mat.row_ptr, vec![0, 2, 3, 4]);
}

#[test]
fn test_empty_coordinates() {
    // A character of the alphabet with no transition at all.
    let shape = (3, 3);
    let coords = vec![];
    let mat = BoolMat::from_coord(coords, shape).unwrap();

    assert_eq!(mat.col_indx.len(), 0);
    // Even with no values, row_ptr must still have length shape.0 + 1
    // and be filled with zeros.
    assert_eq!(mat.row_ptr, vec![0, 0, 0, 0]);
    assert_eq!(mat.shape, shape);
}

#[test]
fn test_out_of_bounds() {
    // Coordinates outside the shape are refused.
    let shape = (2, 2);

    // Row explicitly out of bounds
    assert!(BoolMat::from_coord(vec![(2, 0)], shape).is_none());

    // Column explicitly out of bounds
    assert!(BoolMat::from_coord(vec![(0, 2)], shape).is_none());

    // Both entirely out of bounds
    assert!(BoolMat::from_coord(vec![(5, 5)], shape).is_none());
}

#[test]
fn test_duplicates_removed() {
    // Repeated coordinates are stored once.
    let shape = (2, 2);

    // Input has heavily duplicated, out-of-order coordinates
    let coords = vec![(0, 1), (0, 1), (1, 0), (0, 1), (1, 0)];
    let mat = BoolMat::from_coord(coords, shape).unwrap();

    // Should only be two unique transitions: (0, 1) then (1, 0)
    assert_eq!(mat.col_indx, vec![1, 0]);
    assert_eq!(mat.row_ptr, vec![0, 1, 2]);
}

#[test]
fn test_empty_rows_in_middle() {
    // Rows without entries in the middle of the matrix.
    let shape = (4, 4);

    // Transitions only exist for state 0 and state 3.
    // States 1 and 2 are "dead ends".
    let coords = vec![(0, 1), (3, 2)];
    let mat = BoolMat::from_coord(coords, shape).unwrap();

    assert_eq!(mat.col_indx, vec![1, 2]);

    // Row 0: 1 transition  (starts at 0, ends at 1)
    // Row 1: 0 transitions (starts at 1, ends at 1) -> Empty
    // Row 2: 0 transitions (starts at 1, ends at 1) -> Empty
    // Row 3: 1 transition  (starts at 1, ends at 2)
    assert_eq!(mat.row_ptr, vec![0, 1, 1, 1, 2]);
}

#[test]
fn test_rectangular_matrix() {
    // Matrices need not be square.
    let shape = (2, 4);
    let coords = vec![(1, 3), (0, 2), (1, 0)];
    let mat = BoolMat::from_coord(coords, shape).unwrap();

    // Sorted: (0, 2), (1, 0), (1, 3)
    assert_eq!(mat.col_indx, vec![2, 0, 3]);
    assert_eq!(mat.row_ptr, vec![0, 1, 3]);
}

#[test]
fn test_dense_fill() {
    // Every possible entry is set.
    let shape = (2, 2);
    let coords = vec![(0, 0), (0, 1), (1, 0), (1, 1)];
    let mat = BoolMat::from_coord(coords, shape).unwrap();

    assert_eq!(mat.col_indx, vec![0, 1, 0, 1]);
    assert_eq!(mat.row_ptr, vec![0, 2, 4]);
}

#[test]
fn test_boolvec_empty() {
    // A valid automaton state where no paths are currently active.
    let v = BoolVec::from_indices(vec![], 5).unwrap();
    assert_eq!(v.len, 5);
    assert!(v.val_indx.is_empty());
}

#[test]
fn test_boolvec_sort_and_dedup() {
    // Scrambled input with heavy duplication.
    // Verifies that the internal vector becomes strictly monotonically increasing.
    let v = BoolVec::from_indices(vec![4, 1, 4, 2, 1, 2], 6).unwrap();
    assert_eq!(v.len, 6);
    assert_eq!(v.val_indx, vec![1, 2, 4]);
}

#[test]
fn test_boolvec_exact_boundary() {
    // If len is 5, the maximum valid index is 4.
    let v = BoolVec::from_indices(vec![0, 4], 5).unwrap();
    assert_eq!(v.val_indx, vec![0, 4]);

    // This must fail because index 5 is out of bounds for len 5.
    assert!(BoolVec::from_indices(vec![0, 5], 5).is_none());
}

#[test]
fn test_boolvec_hidden_out_of_bounds() {
    // The out-of-bounds position comes first in the unsorted input.
    assert!(BoolVec::from_indices(vec![10, 1, 2], 5).is_none());
}

#[test]
fn test_mul_standard_merge() {
    let shape = (3, 3);
    let mat = BoolMat::from_coord(vec![(0, 1), (0, 2), (2, 1)], shape).unwrap();
    let vec = BoolVec::from_indices(vec![0, 2], 3).unwrap();

    let result = (&vec * &mat).expect("Multiplication failed due to dimension mismatch");

    assert_eq!(result.len, 3);
    assert_eq!(result.val_indx, vec![1, 2]);
}

#[test]
fn test_mul_dead_end() {
    let shape = (4, 4);
    let mat = BoolMat::from_coord(vec![(0, 1), (3, 2)], shape).unwrap();
    let vec = BoolVec::from_indices(vec![1], 4).unwrap();

    let result = (&vec * &mat).unwrap();

    assert_eq!(result.len, 4);
    assert!(result.val_indx.is_empty());
}

#[test]
fn test_mul_empty_vector() {
    let shape = (2, 2);
    let mat = BoolMat::from_coord(vec![(0, 0), (0, 1), (1, 1)], shape).unwrap();
    let vec = BoolVec::from_indices(vec![], 2).unwrap();

    let result = (&vec * &mat).unwrap();

    assert_eq!(result.len, 2);
    assert!(result.val_indx.is_empty());
}

#[test]
fn test_mul_empty_matrix() {
    let shape = (3, 3);
    let mat = BoolMat::from_coord(vec![], shape).unwrap();
    let vec = BoolVec::from_indices(vec![0, 1, 2], 3).unwrap();

    let result = (&vec * &mat).unwrap();

    assert_eq!(result.len, 3);
    assert!(result.val_indx.is_empty());
}

#[test]
fn test_mul_rectangular_dimension_shift() {
    let shape = (2, 5);
    let mat = BoolMat::from_coord(vec![(0, 4), (1, 0), (1, 4)], shape).unwrap();
    let vec = BoolVec::from_indices(vec![0, 1], 2).unwrap();

    let result = (&vec * &mat).unwrap();

    assert_eq!(result.len, 5);
    assert_eq!(result.val_indx, vec![0, 4]);
}

#[test]
fn test_mul_dimension_mismatch() {
    // A vector of length 4
    // by a matrix expecting a vector of length 3.
    let shape = (3, 3);
    let mat = BoolMat::from_coord(vec![(0, 1)], shape).unwrap();

    let vec = BoolVec::from_indices(vec![0, 1], 4).unwrap();

    // The lengths differ, so there is no product.
    let result = &vec * &mat;
    assert!(
        result.is_none(),
        "Matrix multiplication should fail when dimensions mismatch"
    );
}
