use icp::matrix::{MatErrorKind, Matrix, SimpleVector};

fn mul_add(acc: f64, a: f64, b: f64) -> f64 {
    acc + a * b
}

fn plus(a: f64, b: f64) -> f64 {
    a + b
}

fn div(s: f64, n: usize) -> f64 {
    s / n as f64
}

fn from_rows(rows: &[&[f64]]) -> Matrix<f64> {
    let r = rows.len();
    let c = rows[0].len();
    let mut m = Matrix::new(r, c, 0.0);
    for (i, row) in rows.iter().enumerate() {
        m.set_row(i, row).unwrap();
    }
    m
}

fn identity(n: usize) -> Matrix<f64> {
    let mut m = Matrix::new(n, n, 0.0);
    for i in 0..n {
        *m.get_mut(i, i) = 1.0;
    }
    m
}

#[test]
fn new_fills_every_entry() {
    let m = Matrix::new(2, 3, 0.0);
    assert_eq!(m.rows(), 2);
    assert_eq!(m.cols(), 3);
    for r in 0..2 {
        for c in 0..3 {
            assert_eq!(m.get(r, c).unwrap(), 0.0);
        }
    }
}

#[test]
fn storage_is_column_major() {
    let m = Matrix::from_column_major(2, 3, vec![1.0, 2.0, 3.0, 4.0, 5.0, 6.0]).unwrap();
    assert_eq!(m.get(0, 0).unwrap(), 1.0);
    assert_eq!(m.get(1, 0).unwrap(), 2.0);
    assert_eq!(m.get(0, 1).unwrap(), 3.0);
    assert_eq!(m.get(1, 2).unwrap(), 6.0);
    assert_eq!(m.get_column(1), vec![3.0, 4.0]);
    assert_eq!(m.get_row(1), vec![2.0, 4.0, 6.0]);
    assert_eq!(m.values(), &[1.0, 2.0, 3.0, 4.0, 5.0, 6.0]);
}

#[test]
fn from_column_major_rejects_wrong_length() {
    let e = Matrix::from_column_major(2, 3, vec![1.0, 2.0]).err().unwrap();
    assert_eq!(e.kind, MatErrorKind::SizeMismatch);
    assert!(Matrix::<f64>::from_column_major(0, 4, vec![]).is_ok());
}

#[test]
fn get_out_of_bounds_is_index_error() {
    let m = Matrix::new(2, 2, 1.0);
    assert_eq!(m.get(2, 0).err().unwrap().kind, MatErrorKind::IndexOutOfBounds);
    assert_eq!(m.get(0, 2).err().unwrap().kind, MatErrorKind::IndexOutOfBounds);
    assert_eq!(m.get(0, 2).err().unwrap().message(), "Index error.");
}

#[test]
fn get_mut_changes_one_entry() {
    let mut m = Matrix::new(2, 2, 0.0);
    *m.get_mut(1, 0) = 7.5;
    assert_eq!(m.values(), &[0.0, 7.5, 0.0, 0.0]);
}

#[test]
fn set_row_and_column() {
    let mut m = Matrix::new(2, 3, 0.0);
    m.set_row(1, &[1.0, 2.0, 3.0]).unwrap();
    m.set_column(0, &[9.0, 8.0]).unwrap();
    assert_eq!(m.get_row(0), vec![9.0, 0.0, 0.0]);
    assert_eq!(m.get_row(1), vec![8.0, 2.0, 3.0]);
}

#[test]
fn set_row_and_column_reject_wrong_length() {
    let mut m = Matrix::new(2, 3, 0.0);
    assert_eq!(m.set_row(0, &[1.0, 2.0]).err().unwrap().kind, MatErrorKind::SizeMismatch);
    assert_eq!(m.set_column(0, &[1.0, 2.0, 3.0]).err().unwrap().kind, MatErrorKind::SizeMismatch);
    assert_eq!(m.set_row(2, &[1.0, 2.0, 3.0]).err().unwrap().kind, MatErrorKind::IndexOutOfBounds);
    assert_eq!(m.values(), &[0.0; 6]);
}

#[test]
fn dot_rejects_mismatched_shapes() {
    let a = Matrix::new(2, 3, 1.0);
    let b = Matrix::new(2, 3, 1.0);
    let e = a.dot(&b, 0.0, mul_add).err().unwrap();
    assert_eq!(e.kind, MatErrorKind::SizeMismatch);
}

#[test]
fn dot_computes_product() {
    let a = from_rows(&[&[1.0, 2.0], &[3.0, 4.0]]);
    let b = from_rows(&[&[5.0, 6.0, 7.0], &[8.0, 9.0, 10.0]]);
    let p = a.dot(&b, 0.0, mul_add).unwrap();
    assert_eq!(p.rows(), 2);
    assert_eq!(p.cols(), 3);
    assert_eq!(p.get_row(0), vec![21.0, 24.0, 27.0]);
    assert_eq!(p.get_row(1), vec![47.0, 54.0, 61.0]);
}

#[test]
fn dot_with_identity_is_noop() {
    let a = from_rows(&[&[1.5, -2.0, 3.25], &[0.0, 4.0, -7.0]]);
    let p = a.dot(&identity(3), 0.0, mul_add).unwrap();
    assert_eq!(p.values(), a.values());
    let q = identity(2).dot(&a, 0.0, mul_add).unwrap();
    assert_eq!(q.values(), a.values());
}

#[test]
fn mean_of_constant_matrix() {
    let m = Matrix::new(3, 4, 2.5);
    let mc = m.mean_col(0.0, plus, div);
    assert_eq!((mc.rows(), mc.cols()), (3, 1));
    assert_eq!(mc.values(), &[2.5, 2.5, 2.5]);
    let mr = m.mean_row(0.0, plus, div);
    assert_eq!((mr.rows(), mr.cols()), (1, 4));
    assert_eq!(mr.values(), &[2.5, 2.5, 2.5, 2.5]);
}

#[test]
fn means_of_rows_and_columns() {
    let m = from_rows(&[&[1.0, 2.0, 3.0], &[4.0, 6.0, 8.0]]);
    assert_eq!(m.mean_col(0.0, plus, div).values(), &[2.0, 6.0]);
    assert_eq!(m.mean_row(0.0, plus, div).values(), &[2.5, 4.0, 5.5]);
}

#[test]
fn add_col_broadcasts() {
    let mut m = from_rows(&[&[1.0, 2.0], &[3.0, 4.0], &[5.0, 6.0]]);
    m.add_col(&vec![10.0, 20.0, 30.0], plus).unwrap();
    assert_eq!(m.get_row(0), vec![11.0, 12.0]);
    assert_eq!(m.get_row(2), vec![35.0, 36.0]);
}

#[test]
fn add_col_rejects_wrong_length() {
    let mut m = Matrix::new(3, 2, 1.0);
    let e = m.add_col(&vec![1.0, 2.0], plus).err().unwrap();
    assert_eq!(e.kind, MatErrorKind::SizeMismatch);
    assert_eq!(m.values(), &[1.0; 6]);
}

#[test]
fn centroid_removal() {
    let mut m = from_rows(&[&[1.0, 3.0], &[2.0, 6.0], &[0.0, 0.0]]);
    let mut mean = m.mean_col(0.0, plus, div);
    mean.minus(|x: f64| -x);
    assert_eq!(mean.values(), &[-2.0, -4.0, -0.0]);
    m.add_col(&mean, plus).unwrap();
    assert_eq!(m.get_row(0), vec![-1.0, 1.0]);
    assert_eq!(m.get_row(1), vec![-2.0, 2.0]);
    assert_eq!(m.get_row(2), vec![0.0, 0.0]);
}

#[test]
fn minus_negates_every_entry() {
    let mut m = Matrix::from_column_major(1, 3, vec![1.0, -2.0, 0.5]).unwrap();
    m.minus(|x: f64| -x);
    assert_eq!(m.values(), &[-1.0, 2.0, -0.5]);
}

#[test]
fn simple_vector_reads() {
    let v = vec![4.0, 5.0];
    assert_eq!(SimpleVector::size(&v), 2);
    assert_eq!(SimpleVector::get(&v, 1).unwrap(), 5.0);
    assert_eq!(SimpleVector::get(&v, 2).err().unwrap().kind, MatErrorKind::IndexOutOfBounds);
    let m = Matrix::from_column_major(2, 2, vec![1.0, 2.0, 3.0, 4.0]).unwrap();
    assert_eq!(SimpleVector::size(&m), 2);
    assert_eq!(SimpleVector::get(&m, 1).unwrap(), 2.0);
    assert_eq!(SimpleVector::get(&m, 2).err().unwrap().kind, MatErrorKind::IndexOutOfBounds);
}

#[test]
fn printout_limit() {
    assert!(Matrix::new(10, 10, 0.0).shows_all_entries());
    assert!(!Matrix::new(3, 34, 0.0).shows_all_entries());
}
