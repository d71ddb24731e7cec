use nume_rs::ops::{ElementwiseOp, MatMul, MathError, VecElementwiseArithmetic};

#[test]
fn matmul_exact_values() {
    let a: Vec<Vec<i64>> = vec![vec![1, 2, 3], vec![4, 5, 6]];
    let v: Vec<i64> = vec![7, 8, 9];
    let r = a.matmul(&v).unwrap();
    assert_eq!(r, vec![50, 122]);
}

#[test]
fn matmul_result_length_is_row_count() {
    let a: Vec<Vec<i64>> = vec![vec![1, 0], vec![0, 1], vec![2, 2], vec![3, -1]];
    let v: Vec<i64> = vec![5, 6];
    let r = a.matmul(&v).unwrap();
    assert_eq!(r.len(), 4);
}

#[test]
fn matmul_dimension_mismatch() {
    let a: Vec<Vec<i64>> = vec![vec![1, 2, 3], vec![4, 5, 6]];
    let v: Vec<i64> = vec![7, 8];
    assert!(matches!(a.matmul(&v), Err(MathError::DimensionMismatch)));
}

#[test]
fn matmul_empty_matrix() {
    let a: Vec<Vec<i64>> = vec![];
    let v: Vec<i64> = vec![1];
    assert!(matches!(a.matmul(&v), Err(MathError::EmptyInput)));
}

#[test]
fn matmul_empty_vector() {
    let a: Vec<Vec<i64>> = vec![vec![]];
    let v: Vec<i64> = vec![];
    assert!(matches!(a.matmul(&v), Err(MathError::EmptyInput)));
}

#[test]
fn elementwise_add_exact() {
    let a: Vec<i64> = vec![1, -2, 30];
    let b: Vec<i64> = vec![10, 20, -5];
    assert_eq!(a.elementwise_add(&b).unwrap(), vec![11, 18, 25]);
}

#[test]
fn elementwise_sub_exact() {
    let a: Vec<i64> = vec![1, -2, 30];
    let b: Vec<i64> = vec![10, 20, -5];
    assert_eq!(a.elementwise_sub(&b).unwrap(), vec![-9, -22, 35]);
}

#[test]
fn elementwise_add_length_mismatch() {
    let a: Vec<i64> = vec![1, 2];
    let b: Vec<i64> = vec![1, 2, 3];
    assert!(matches!(
        a.elementwise_add(&b),
        Err(MathError::DimensionMismatch)
    ));
}

#[test]
fn elementwise_sub_length_mismatch() {
    let a: Vec<i64> = vec![1];
    let b: Vec<i64> = vec![];
    assert!(matches!(
        a.elementwise_sub(&b),
        Err(MathError::DimensionMismatch)
    ));
}

#[test]
fn elementwise_op_with_custom_combiner() {
    let a: Vec<i64> = vec![3, 9, 4];
    let b: Vec<i64> = vec![7, 2, 4];
    let r = a.elementwise_op(&b, |x, y| if x > y { x } else { y }).unwrap();
    assert_eq!(r, vec![7, 9, 4]);
}

#[test]
fn elementwise_op_mismatch() {
    let a: Vec<i64> = vec![3, 9, 4];
    let b: Vec<i64> = vec![7, 2];
    assert!(matches!(
        a.elementwise_op(&b, |x, y| x + y),
        Err(MathError::DimensionMismatch)
    ));
}
