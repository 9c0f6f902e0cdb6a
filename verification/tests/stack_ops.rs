use piet::ops::{
    op_add, op_divide, op_duplicate, op_greater, op_modulo, op_multiply, op_not, op_pop,
    op_subtract, roll, PietError,
};

#[test]
fn add_subtract_multiply_use_lower_then_top() {
    let mut s: Vec<i64> = vec![10, 3];
    op_add(&mut s);
    assert_eq!(s, vec![13]);
    let mut s: Vec<i64> = vec![10, 3];
    op_subtract(&mut s);
    assert_eq!(s, vec![7]);
    let mut s: Vec<i64> = vec![10, 3];
    op_multiply(&mut s);
    assert_eq!(s, vec![30]);
}

#[test]
fn arithmetic_wraps_on_overflow() {
    let mut s: Vec<i64> = vec![i64::MAX, 1];
    op_add(&mut s);
    assert_eq!(s, vec![i64::MIN]);
    let mut s: Vec<i64> = vec![i64::MIN, 1];
    op_subtract(&mut s);
    assert_eq!(s, vec![i64::MAX]);
}

#[test]
fn underflow_is_skipped_without_losing_values() {
    let mut s: Vec<i64> = vec![5];
    op_add(&mut s);
    assert_eq!(s, vec![5]);
    let mut s: Vec<i64> = vec![];
    op_pop(&mut s);
    assert_eq!(s, Vec::<i64>::new());
    let mut s: Vec<i64> = vec![9];
    op_greater(&mut s);
    assert_eq!(s, vec![9]);
}

#[test]
fn divide_truncates_toward_zero() {
    let mut s: Vec<i64> = vec![7, 2];
    assert_eq!(op_divide(&mut s), Ok(()));
    assert_eq!(s, vec![3]);
    let mut s: Vec<i64> = vec![-7, 2];
    assert_eq!(op_divide(&mut s), Ok(()));
    assert_eq!(s, vec![-3]);
}

#[test]
fn divide_by_zero_is_fatal_and_leaves_the_stack() {
    let mut s: Vec<i64> = vec![7, 0];
    assert_eq!(op_divide(&mut s), Err(PietError::DivisionByZero));
    assert_eq!(s, vec![7, 0]);
}

#[test]
fn modulo_follows_the_literal_formula() {
    // stack [..., 7, 2] with 2 on top pushes (7 mod 2) + 2 = 3
    let mut s: Vec<i64> = vec![7, 2];
    assert_eq!(op_modulo(&mut s), Ok(()));
    assert_eq!(s, vec![3]);
    // with a = -2, b = 7: (7 mod -2) + (-2) = 1 - 2 = -1, sign of a
    let mut s: Vec<i64> = vec![7, -2];
    assert_eq!(op_modulo(&mut s), Ok(()));
    assert_eq!(s, vec![-1]);
    let mut s: Vec<i64> = vec![-7, 3];
    assert_eq!(op_modulo(&mut s), Ok(()));
    assert_eq!(s, vec![2]);
}

#[test]
fn modulo_by_zero_is_fatal() {
    let mut s: Vec<i64> = vec![7, 0];
    assert_eq!(op_modulo(&mut s), Err(PietError::ModuloByZero));
    assert_eq!(s, vec![7, 0]);
}

#[test]
fn not_and_greater_push_truth_values() {
    let mut s: Vec<i64> = vec![0];
    op_not(&mut s);
    assert_eq!(s, vec![1]);
    let mut s: Vec<i64> = vec![17];
    op_not(&mut s);
    assert_eq!(s, vec![0]);
    let mut s: Vec<i64> = vec![5, 3];
    op_greater(&mut s);
    assert_eq!(s, vec![1]);
    let mut s: Vec<i64> = vec![3, 5];
    op_greater(&mut s);
    assert_eq!(s, vec![0]);
}

#[test]
fn duplicate_copies_the_top() {
    let mut s: Vec<i64> = vec![1, 2];
    op_duplicate(&mut s);
    assert_eq!(s, vec![1, 2, 2]);
}

#[test]
fn roll_rotates_the_top_segment() {
    // stack [1,2,3,4,5] with 5 on top: roll(count = 2, depth = 3)
    // buries the top two values at the bottom of the top-3 segment
    let mut s: Vec<i64> = vec![1, 2, 3, 4, 5];
    assert_eq!(roll(&mut s, 2, 3), Ok(()));
    assert_eq!(s, vec![1, 2, 4, 5, 3]);
}

#[test]
fn roll_with_negative_count_rotates_the_other_way() {
    let mut s: Vec<i64> = vec![1, 2, 3, 4, 5];
    assert_eq!(roll(&mut s, -2, 3), Ok(()));
    assert_eq!(s, vec![1, 2, 5, 3, 4]);
}

#[test]
fn roll_then_inverse_roll_restores_the_stack() {
    for count in [-7i64, -2, -1, 0, 1, 2, 3, 5, 9] {
        for depth in [0i64, 1, 2, 3, 4, 5] {
            let orig: Vec<i64> = vec![10, 20, 30, 40, 50];
            let mut s = orig.clone();
            assert_eq!(roll(&mut s, count, depth), Ok(()));
            assert_eq!(roll(&mut s, -count, depth), Ok(()));
            assert_eq!(s, orig);
        }
    }
}

#[test]
fn roll_depth_beyond_the_stack_is_fatal() {
    let mut s: Vec<i64> = vec![1, 2];
    assert_eq!(roll(&mut s, 1, 3), Err(PietError::StackTooShallow));
    assert_eq!(s, vec![1, 2]);
    let mut s: Vec<i64> = vec![1, 2];
    assert_eq!(roll(&mut s, 1, -1), Err(PietError::StackTooShallow));
    assert_eq!(s, vec![1, 2]);
}

#[test]
fn roll_with_count_beyond_depth_wraps_cyclically() {
    let mut s: Vec<i64> = vec![1, 2, 3, 4, 5];
    assert_eq!(roll(&mut s, 5, 3), Ok(()));
    let mut t: Vec<i64> = vec![1, 2, 3, 4, 5];
    assert_eq!(roll(&mut t, 2, 3), Ok(()));
    assert_eq!(s, t);
}
