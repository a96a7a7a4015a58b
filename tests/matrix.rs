use neural_net_rs::{Matrix, MatrixError};

fn fma(acc: f64, x: f64, y: f64) -> f64 {
    acc + x * y
}

#[test]
fn matrix_new() {
    let m = Matrix::<f64>::new(3, 4);
    assert_eq!(m.rows(), 3);
    assert_eq!(m.cols(), 4);
    assert_eq!(m.data(), vec![0_f64; 12]);
}

#[test]
fn matrix_from() {
    let v = vec![1., 2., 3., 4., 5., 6.];
    let m1 = Matrix::from(2, 3, v.clone()).unwrap();
    let m2 = Matrix::from(3, 2, v.clone()).unwrap();
    assert_eq!(m1.rows(), 2);
    assert_eq!(m1.cols(), 3);
    assert_eq!(m1.data(), v);
    assert_eq!(m2.data(), v);
}

#[test]
fn getters() {
    let mut m = Matrix::<f64>::new(2, 3);
    m.map(|_, r, c| (r + c) as f64);
    assert_eq!(m.rows(), 2); // |0, 1, 2|
    assert_eq!(m.cols(), 3); // |1, 2, 3|
    assert_eq!(m.data(), vec![0., 1., 2., 1., 2., 3.]);
    assert_eq!(m.get(0, 1), 1.);
    assert_eq!(m.get(1, 1), 2.);
}

fn times(x: f64, y: f64) -> f64 {
    x * y
}

#[test]
fn scale() {
    let mut m = Matrix::from(2, 2, vec![1., 2., 3., 4.]).unwrap();
    m.scale(2., times);
    assert_eq!(m.data(), vec![2., 4., 6., 8.]);
}

#[test]
fn scale_by_one_and_zero() {
    let v = vec![1.5, -2., 0.25, 7., 3., -9.];
    let mut m = Matrix::from(3, 2, v.clone()).unwrap();
    m.scale(1., times);
    assert_eq!(m.data(), v);
    m.scale(0., times);
    assert!(m.data().iter().all(|x| *x == 0.));
    assert_eq!((m.rows(), m.cols()), (3, 2));
}

#[test]
fn scale_is_elementwise() {
    let v = vec![1., 2., 3., 4., 5., 6.];
    let mut m = Matrix::from(2, 3, v.clone()).unwrap();
    m.scale(-0.5, times);
    let expected: Vec<f64> = v.iter().map(|x| x * -0.5).collect();
    assert_eq!(m.data(), expected);
}

#[test]
fn calc_idx() {
    let m = Matrix::<f64>::new(3, 4);
    // |0, 1,  2,  3|
    // |4, 5,  6,  7|
    // |8, 9, 10, 12|
    assert_eq!(m.calc_idx(0, 0), 0);
    assert_eq!(m.calc_idx(0, 2), 2);
    assert_eq!(m.calc_idx(1, 1), 5);
    assert_eq!(m.calc_idx(2, 2), 10);
}

#[test]
fn mult() {
    let a = Matrix::from(2, 3, vec![5., 1., 2., 3., 2., 6.]).unwrap();
    let b = Matrix::from(3, 2, vec![8., 7., 4., 4., 5., 1.]).unwrap();

    let c = Matrix::mult(&a, &b, fma).unwrap();
    assert_eq!(c.rows(), 2);
    assert_eq!(c.cols(), 2);
    assert_eq!(c.data(), vec![54., 41., 62., 35.]);
}

#[test]
fn map() {
    let mut m = Matrix::from(2, 3, vec![1., 2., 3., 4., 5., 6.]).unwrap();
    m.map(|val, r, c| (val * (c * r) as f64));
    assert_eq!(m.data(), vec![0., 0., 0., 0., 5., 12.]);
}

#[test]
fn new_is_zero_filled_for_integers() {
    let m = Matrix::<i64>::new(2, 5);
    assert_eq!(m.data(), vec![0_i64; 10]);
    let empty = Matrix::<i64>::new(0, 7);
    assert_eq!(empty.data(), Vec::<i64>::new());
}

#[test]
fn from_rejects_wrong_length() {
    let r = Matrix::from(2, 3, vec![1., 2., 3., 4., 5.]);
    assert!(matches!(r, Err(MatrixError::ShapeMismatch)));
    let r = Matrix::from(1, 1, Vec::<f64>::new());
    assert!(matches!(r, Err(MatrixError::ShapeMismatch)));
}

#[test]
fn from_empty_shape() {
    let m = Matrix::from(0, 3, Vec::<f64>::new()).unwrap();
    assert_eq!(m.rows(), 0);
    assert_eq!(m.cols(), 3);
    assert_eq!(m.data(), Vec::<f64>::new());
}

#[test]
fn get_is_row_major() {
    let v = vec![10_i64, 11, 12, 13, 14, 15];
    let m = Matrix::from(3, 2, v.clone()).unwrap();
    for i in 0..3u32 {
        for j in 0..2u32 {
            assert_eq!(m.get(i, j), v[(i * 2 + j) as usize]);
        }
    }
}

#[test]
fn mult_literal_product() {
    let a = Matrix::from(2, 3, vec![1., 2., 3., 4., 5., 6.]).unwrap();
    let b = Matrix::from(3, 2, vec![7., 8., 9., 10., 11., 12.]).unwrap();
    let c = Matrix::mult(&a, &b, fma).unwrap();
    assert_eq!(c.rows(), 2);
    assert_eq!(c.cols(), 2);
    assert_eq!(c.data(), vec![58., 64., 139., 154.]);
}

#[test]
fn mult_shape_and_mismatch() {
    let a = Matrix::<f64>::new(4, 3);
    let b = Matrix::<f64>::new(3, 5);
    let c = Matrix::mult(&a, &b, fma).unwrap();
    assert_eq!((c.rows(), c.cols()), (4, 5));
    assert_eq!(c.data().len(), 20);
    let r = Matrix::mult(&b, &a, fma);
    assert!(matches!(r, Err(MatrixError::DimensionMismatch)));
}

#[test]
fn mult_accumulates_in_ascending_order() {
    // A multiply-add that records the order of the steps in the digits.
    let a = Matrix::from(1, 3, vec![1_i64, 2, 3]).unwrap();
    let b = Matrix::from(3, 1, vec![1_i64, 1, 1]).unwrap();
    let c = Matrix::mult(&a, &b, |acc: i64, x: i64, y: i64| acc * 10 + x * y).unwrap();
    assert_eq!(c.data(), vec![123]);
}

#[test]
fn map_passes_row_and_column() {
    let mut m = Matrix::<i64>::new(2, 2);
    m.map(|v, r, c| v + (r * 10 + c) as i64);
    assert_eq!(m.data(), vec![0, 1, 10, 11]);
}
