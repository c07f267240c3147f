use tiny_nn::matrix::Matrix;

fn plus(a: f32, b: f32) -> f32 {
    a + b
}

fn mul(a: f32, b: f32) -> f32 {
    a * b
}

fn logistic(x: f32) -> f32 {
    1.0 / (1.0 + (-x).exp())
}

fn m(rows: &[&[f32]]) -> Matrix<f32> {
    let v: Vec<Vec<f32>> = rows.iter().map(|r| r.to_vec()).collect();
    Matrix::from_slice(&v).expect("rectangular rows")
}

fn entries(a: &Matrix<f32>) -> Vec<Vec<f32>> {
    (0..a.row_count()).map(|i| a.row(i)).collect()
}

#[test]
fn new_is_filled_with_zero() {
    let a = Matrix::new(2, 3, 0.0f32);
    assert_eq!(a.row_count(), 2);
    assert_eq!(a.col_count(), 3);
    assert_eq!(entries(&a), vec![vec![0.0; 3], vec![0.0; 3]]);
}

#[test]
fn from_slice_keeps_rows_in_order() {
    let a = m(&[&[1.0, 2.0], &[3.0, 4.0], &[5.0, 6.0]]);
    assert_eq!(a.row_count(), 3);
    assert_eq!(a.col_count(), 2);
    assert_eq!(a.get(2, 1), 6.0);
    assert_eq!(a.row(1), vec![3.0, 4.0]);
}

#[test]
fn from_slice_rejects_ragged_rows() {
    let v: Vec<Vec<f32>> = vec![vec![1.0, 2.0], vec![3.0]];
    assert!(Matrix::from_slice(&v).is_none());
}

#[test]
fn from_slice_rejects_no_rows() {
    let v: Vec<Vec<f32>> = vec![];
    assert!(Matrix::from_slice(&v).is_none());
}

#[test]
fn fill_and_set_change_entries_in_place() {
    let mut a = Matrix::new(2, 2, 0.0f32);
    a.fill(7.5);
    assert_eq!(entries(&a), vec![vec![7.5, 7.5], vec![7.5, 7.5]]);
    a.set(1, 0, -2.0);
    assert_eq!(entries(&a), vec![vec![7.5, 7.5], vec![-2.0, 7.5]]);
}

#[test]
fn randomize_draws_every_entry_in_range() {
    let mut a = Matrix::new(3, 4, 0.0f32);
    let draw = || rand::random::<f32>() * 2.0 - 1.0;
    a.randomize(&draw);
    assert_eq!(a.row_count(), 3);
    assert_eq!(a.col_count(), 4);
    for i in 0..3 {
        for j in 0..4 {
            let v = a.get(i, j);
            assert!(v >= -1.0 && v < 1.0);
        }
    }
}

#[test]
fn add_is_entrywise_and_commutes() {
    let a = m(&[&[1.0, 2.0], &[3.0, 4.0]]);
    let b = m(&[&[10.0, 20.0], &[30.0, 40.0]]);
    let ab = a.add(&b, &plus).unwrap();
    let ba = b.add(&a, &plus).unwrap();
    assert_eq!(entries(&ab), vec![vec![11.0, 22.0], vec![33.0, 44.0]]);
    assert_eq!(entries(&ab), entries(&ba));
    assert_eq!(entries(&a), vec![vec![1.0, 2.0], vec![3.0, 4.0]]);
}

#[test]
fn add_rejects_other_shapes() {
    let a = Matrix::new(2, 2, 0.0f32);
    let b = Matrix::new(2, 3, 0.0f32);
    assert!(a.add(&b, &plus).is_none());
}

#[test]
fn dot_gives_the_matrix_product() {
    let a = m(&[&[1.0, 2.0, 3.0], &[4.0, 5.0, 6.0]]);
    let b = m(&[&[7.0, 8.0], &[9.0, 10.0], &[11.0, 12.0]]);
    let p = a.dot(&b, 0.0, &mul, &plus).unwrap();
    assert_eq!(p.row_count(), 2);
    assert_eq!(p.col_count(), 2);
    assert_eq!(entries(&p), vec![vec![58.0, 64.0], vec![139.0, 154.0]]);
}

#[test]
fn dot_rejects_incompatible_shapes() {
    let a = Matrix::new(2, 3, 1.0f32);
    let b = Matrix::new(2, 3, 1.0f32);
    assert!(a.dot(&b, 0.0, &mul, &plus).is_none());
}

#[test]
fn dot_with_zero_matrix_is_zero() {
    let a = m(&[&[1.5, -2.0], &[3.0, 4.25], &[0.5, 9.0]]);
    let z = Matrix::new(2, 4, 0.0f32);
    let p = a.dot(&z, 0.0, &mul, &plus).unwrap();
    assert_eq!(entries(&p), vec![vec![0.0; 4]; 3]);
}

#[test]
fn sigmoid_of_zero_is_one_half() {
    let z = Matrix::new(1, 3, 0.0f32);
    let s = z.sigmoid(&logistic);
    assert_eq!(entries(&s), vec![vec![0.5, 0.5, 0.5]]);
}

#[test]
fn sigmoid_is_entrywise_increasing_and_bounded() {
    let a = m(&[&[-30.0, -1.0, 0.0, 1.0, 30.0]]);
    let s = a.sigmoid(&logistic).row(0);
    for k in 0..5 {
        assert!(s[k] >= 0.0 && s[k] <= 1.0);
    }
    for k in 1..4 {
        assert!(s[k] > 0.0 && s[k] < 1.0);
        assert!(s[k] > s[k - 1]);
    }
}

#[test]
fn from_row_and_duplicate_copy_values() {
    let a = Matrix::from_row(&vec![1.0f32, 2.0, 3.0]);
    assert_eq!(a.row_count(), 1);
    let mut b = a.duplicate();
    b.set(0, 0, 9.0);
    assert_eq!(a.row(0), vec![1.0, 2.0, 3.0]);
    assert_eq!(b.row(0), vec![9.0, 2.0, 3.0]);
}
