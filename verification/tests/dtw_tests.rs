use dtw::{dtw, dtw_op, p_norm, DtwError};

#[test]
fn manhattan_two_points() {
    let a = vec![vec![1, 2, 3], vec![4, 5, 6]];
    let b = vec![vec![2, 3, 4], vec![5, 6, 7]];
    // pointwise distances 3, 12, 3, 3; matrix 3, 15 / 6, 6
    assert_eq!(dtw_op(&a, &b, 1), Ok(6));
}

#[test]
fn euclidean_single_point() {
    let a = vec![vec![0, 0]];
    let b = vec![vec![3, 4]];
    assert_eq!(dtw_op(&a, &b, 2), Ok(5));
}

#[test]
fn default_order_is_euclidean() {
    let a = vec![vec![0, 0]];
    let b = vec![vec![3, 4]];
    assert_eq!(dtw(&a, &b), Ok(5));
}

#[test]
fn empty_first_sequence() {
    let a: Vec<Vec<i64>> = vec![];
    let b = vec![vec![1, 2]];
    assert_eq!(dtw_op(&a, &b, 2), Err(DtwError::EmptySequence));
}

#[test]
fn empty_second_sequence() {
    let a = vec![vec![1, 2]];
    let b: Vec<Vec<i64>> = vec![];
    assert_eq!(dtw_op(&a, &b, 2), Err(DtwError::EmptySequence));
}

#[test]
fn empty_beats_other_errors() {
    let a: Vec<Vec<i64>> = vec![];
    let b = vec![vec![1, 2]];
    assert_eq!(dtw_op(&a, &b, 0), Err(DtwError::EmptySequence));
}

#[test]
fn zero_norm_order() {
    let a = vec![vec![1]];
    let b = vec![vec![2]];
    assert_eq!(dtw_op(&a, &b, 0), Err(DtwError::InvalidNormOrder));
}

#[test]
fn zero_norm_order_beats_dimension_mismatch() {
    let a = vec![vec![1], vec![2, 3]];
    let b = vec![vec![4]];
    assert_eq!(dtw_op(&a, &b, 0), Err(DtwError::InvalidNormOrder));
}

#[test]
fn mismatch_within_a_sequence() {
    let a = vec![vec![1, 2], vec![3]];
    let b = vec![vec![4, 5]];
    assert_eq!(dtw_op(&a, &b, 2), Err(DtwError::DimensionMismatch));
}

#[test]
fn mismatch_across_sequences() {
    let a = vec![vec![1, 2]];
    let b = vec![vec![1, 2, 3]];
    assert_eq!(dtw_op(&a, &b, 2), Err(DtwError::DimensionMismatch));
}

#[test]
fn overflow_is_reported() {
    let a = vec![vec![0]];
    let b = vec![vec![i64::MAX]];
    // |0 - i64::MAX| squared exceeds u64::MAX
    assert_eq!(dtw_op(&a, &b, 2), Err(DtwError::Overflow));
}

#[test]
fn identity_is_zero() {
    let s = vec![vec![1, 2], vec![3, 4], vec![5, 6]];
    assert_eq!(dtw_op(&s, &s, 1), Ok(0));
    assert_eq!(dtw_op(&s, &s, 2), Ok(0));
}

#[test]
fn symmetry_of_arguments() {
    let a = vec![vec![0], vec![10]];
    let b = vec![vec![0], vec![5], vec![10]];
    assert_eq!(dtw_op(&a, &b, 1), dtw_op(&b, &a, 1));
    assert_eq!(dtw_op(&a, &b, 2), dtw_op(&b, &a, 2));
}

#[test]
fn warps_sequences_of_unequal_length() {
    let a = vec![vec![0], vec![10]];
    let b = vec![vec![0], vec![5], vec![10]];
    // matrix 0, 5, 15 / 10, 5, 5
    assert_eq!(dtw_op(&a, &b, 1), Ok(5));
}

#[test]
fn at_most_stairstep_alignment() {
    let a = vec![vec![1, 2, 3], vec![4, 5, 6]];
    let b = vec![vec![2, 3, 4], vec![5, 6, 7]];
    // the stairstep path costs 3 + 3 + 3 = 9
    let d = dtw_op(&a, &b, 1).unwrap();
    assert!(d <= 9);
}

#[test]
fn negative_coordinates() {
    let a = vec![vec![-3]];
    let b = vec![vec![4]];
    assert_eq!(dtw_op(&a, &b, 1), Ok(7));
}

#[test]
fn p_norm_euclidean() {
    assert_eq!(p_norm(&vec![0, 0], &vec![3, 4], 2), Some(5));
}

#[test]
fn p_norm_manhattan() {
    assert_eq!(p_norm(&vec![1, 2, 3], &vec![2, 3, 4], 1), Some(3));
}

#[test]
fn p_norm_floors_the_root() {
    // sum of squares is 2, whose square root floors to 1
    assert_eq!(p_norm(&vec![0, 0], &vec![1, 1], 2), Some(1));
}

#[test]
fn p_norm_overflow() {
    assert_eq!(p_norm(&vec![0], &vec![i64::MAX], 2), None);
}

#[test]
fn p_norm_zero_dimension_points() {
    let a: Vec<i64> = vec![];
    let b: Vec<i64> = vec![];
    assert_eq!(p_norm(&a, &b, 2), Some(0));
}

#[test]
fn large_values_still_exact() {
    // 1500000000^2 + 2000000000^2 = 2500000000^2 fits in a u64
    let a = vec![vec![0, 0]];
    let b = vec![vec![1500000000, 2000000000]];
    assert_eq!(dtw_op(&a, &b, 2), Ok(2500000000));
}

#[test]
fn cubic_order() {
    // |2|^3 + |0|^3 = 8, whose cube root is 2
    assert_eq!(p_norm(&vec![0, 0], &vec![2, 0], 3), Some(2));
}
