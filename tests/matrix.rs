use neurs::matrix::{Matrix, MatrixError};

fn dot(acc: f32, a: f32, b: f32) -> f32 {
    acc + a * b
}

fn rows(r: Vec<Vec<f32>>) -> Matrix<f32> {
    Matrix::from_rows(r).unwrap()
}

#[test]
fn constructor() {
    let m1 = Matrix::from_rows(vec![vec![1.0, 2.0, 3.0], vec![4.0, 5.0, 6.0]]).unwrap();
    let m2 = Matrix {
        data: vec![1.0, 2.0, 3.0, 4.0, 5.0, 6.0],
        rows: 2,
        cols: 3,
    };
    assert_eq!(m1, m2)
}

#[test]
fn mat_mul_1() {
    let m1 = Matrix::from_rows(vec![vec![1.0, 2.0, 3.0], vec![4.0, 5.0, 6.0]]).unwrap();
    let m2 = Matrix::from_rows(vec![vec![1.0, 2.0], vec![4.0, 5.0], vec![7.0, 8.0]]).unwrap();
    assert_eq!(
        m1.multiply(&m2, 0.0, dot).unwrap(),
        Matrix::from_rows(vec![vec![30.0, 36.0], vec![66.0, 81.0],]).unwrap()
    )
}

#[test]
fn mat_mul_2() {
    let m1 = Matrix::from_rows(vec![vec![1.0, 2.0], vec![3.0, 4.0]]).unwrap();
    let m2 = Matrix::from_rows(vec![vec![5.0, 6.0], vec![7.0, 8.0]]).unwrap();
    assert_eq!(
        m1.multiply(&m2, 0.0, dot).unwrap(),
        Matrix::from_rows(vec![vec![19.0, 22.0], vec![43.0, 50.0],]).unwrap()
    )
}

#[test]
fn mat_mul_3() {
    let m1 = Matrix::from_rows(vec![vec![1.0, 2.0, 3.0], vec![4.0, 5.0, 6.0]]).unwrap();
    let m2 = Matrix::from_rows(vec![vec![1.0], vec![2.0], vec![3.0]]).unwrap();
    assert_eq!(
        m1.multiply(&m2, 0.0, dot).unwrap(),
        Matrix::from_rows(vec![vec![14.0], vec![32.0],]).unwrap()
    )
}

#[test]
fn mat_transpose() {
    let m1 = Matrix::from_rows(vec![vec![1.0, 2.0, 3.0], vec![4.0, 5.0, 6.0]]).unwrap();
    let m2 = Matrix::from_rows(vec![vec![1.0, 4.0], vec![2.0, 5.0], vec![3.0, 6.0]]).unwrap();
    assert_eq!(m1.transpose(), m2)
}

#[test]
fn add_col() {
    let mut m1 = Matrix::from_rows(vec![vec![1.0, 2.0], vec![3.0, 4.0]]).unwrap();
    m1.add_col(0.0);
    let m2 = Matrix::from_rows(vec![vec![1.0, 2.0, 0.0], vec![3.0, 4.0, 0.0]]).unwrap();
    assert_eq!(m1, m2)
}

#[test]
fn add() {
    let m1 = Matrix::from_rows(vec![vec![1.0, 2.0], vec![3.0, 4.0]]).unwrap();
    let m2 = Matrix::from_rows(vec![vec![5.0, 6.0], vec![7.0, 8.0]]).unwrap();
    let m3 = Matrix::from_rows(vec![vec![6.0, 8.0], vec![10.0, 12.0]]).unwrap();
    assert_eq!(m1.zip_with(&m2, |a: f32, b: f32| a + b).unwrap(), m3)
}

#[test]
fn macro_1() {
    let m1 = Matrix::from_dim(5, 3, |_: usize, _: usize| 0.25f32).apply(|_: f32| 0.0);
    let m2 = Matrix::from_dim(5, 3, |i: usize, j: usize| (i * 3 + j) as f32).apply(|_: f32| 0.0);
    assert_eq!(m1, m2)
}

#[test]
fn macro_2() {
    let m1 = Matrix::from_vec(vec![1.0, 2.0, 3.0]);
    let m2 = Matrix::from_rows(vec![vec![1.0, 2.0, 3.0]]).unwrap();
    assert_eq!(m1, m2)
}

#[test]
fn macro_3() {
    let m1 = Matrix::from_arrays(vec![[1.0, 2.0, 3.0], [4.0, 5.0, 6.0]]).unwrap();
    let m2 = Matrix::from_rows(vec![vec![1.0, 2.0, 3.0], vec![4.0, 5.0, 6.0]]).unwrap();
    assert_eq!(m1, m2)
}

#[test]
fn addition_commutes_and_associates() {
    let a = rows(vec![vec![1.0, 2.0], vec![3.0, 4.0]]);
    let b = rows(vec![vec![0.5, -2.0], vec![8.0, 1.25]]);
    let c = rows(vec![vec![-1.0, 7.0], vec![2.0, 0.0]]);
    let plus = |x: f32, y: f32| x + y;
    let ab = a.zip_with(&b, plus).unwrap();
    let ba = b.zip_with(&a, plus).unwrap();
    assert_eq!(ab, ba);
    let left = ab.zip_with(&c, plus).unwrap();
    let right = a.zip_with(&b.zip_with(&c, plus).unwrap(), plus).unwrap();
    for k in 0..left.data.len() {
        assert!((left.data[k] - right.data[k]).abs() < 1e-6);
    }
}

#[test]
fn transpose_twice_is_identity() {
    let m = rows(vec![vec![1.0, 2.0, 3.0], vec![4.0, 5.0, 6.0]]);
    assert_eq!(m.transpose().transpose(), m);
    let single = Matrix::from_vec(vec![7.0, 8.0]);
    assert_eq!(single.transpose().rows, 2);
    assert_eq!(single.transpose().transpose(), single);
}

#[test]
fn product_shape_and_identity() {
    let m = rows(vec![vec![1.0, 2.0, 3.0], vec![4.0, 5.0, 6.0]]);
    let b = rows(vec![vec![1.0], vec![0.0], vec![2.0]]);
    let p = m.multiply(&b, 0.0, dot).unwrap();
    assert_eq!((p.rows, p.cols), (2, 1));
    assert_eq!(p.data, vec![7.0, 16.0]);
    let id = rows(vec![vec![1.0, 0.0, 0.0], vec![0.0, 1.0, 0.0], vec![0.0, 0.0, 1.0]]);
    assert_eq!(m.multiply(&id, 0.0, dot).unwrap(), m);
}

#[test]
fn add_col_keeps_columns() {
    let mut m = rows(vec![vec![1.0, 2.0, 3.0], vec![4.0, 5.0, 6.0], vec![7.0, 8.0, 9.0]]);
    m.add_col(1.5);
    assert_eq!(m.cols, 4);
    assert_eq!(m.rows, 3);
    assert_eq!(m.get_row(1), vec![4.0, 5.0, 6.0, 1.5]);
    assert_eq!(m.get_col(3), vec![1.5, 1.5, 1.5]);
}

#[test]
fn rows_and_columns() {
    let m = rows(vec![vec![1.0, 2.0, 3.0], vec![4.0, 5.0, 6.0]]);
    assert_eq!(m.get_row(0), vec![1.0, 2.0, 3.0]);
    assert_eq!(m.get_col(2), vec![3.0, 6.0]);
    assert_eq!(m.sum(0.0, |a: f32, b: f32| a + b), 21.0);
    assert_eq!(m.apply(|x: f32| x * 2.0).data, vec![2.0, 4.0, 6.0, 8.0, 10.0, 12.0]);
}

#[test]
fn random_dimensions() {
    let m = Matrix::from_dim(4, 2, |i: usize, j: usize| (i * 10 + j) as f32);
    assert_eq!((m.rows, m.cols), (4, 2));
    assert_eq!(m.data, vec![0.0, 1.0, 10.0, 11.0, 20.0, 21.0, 30.0, 31.0]);
}

#[test]
fn in_place_addition() {
    let mut m = rows(vec![vec![1.0, 2.0], vec![3.0, 4.0]]);
    let n = rows(vec![vec![10.0, 20.0], vec![30.0, 40.0]]);
    m.add_assign(&n, |a: f32, b: f32| a + b).unwrap();
    assert_eq!(m.data, vec![11.0, 22.0, 33.0, 44.0]);
    let wrong = rows(vec![vec![1.0, 2.0]]);
    assert_eq!(m.add_assign(&wrong, |a: f32, b: f32| a + b), Err(MatrixError::ShapeMismatch));
    assert_eq!(m.data, vec![11.0, 22.0, 33.0, 44.0]);
}

#[test]
fn errors() {
    let empty: Vec<Vec<f32>> = vec![];
    assert_eq!(Matrix::from_rows(empty), Err(MatrixError::EmptyInput));
    assert_eq!(
        Matrix::from_rows(vec![vec![1.0, 2.0], vec![3.0]]),
        Err(MatrixError::MalformedMatrix)
    );
    let a = rows(vec![vec![1.0, 2.0], vec![3.0, 4.0]]);
    let b = rows(vec![vec![1.0, 2.0, 3.0]]);
    assert_eq!(a.multiply(&b, 0.0, dot), Err(MatrixError::DimensionMismatch));
    assert_eq!(a.zip_with(&b, |x: f32, y: f32| x - y), Err(MatrixError::ShapeMismatch));
    let broken = Matrix { data: vec![1.0f32], rows: 2, cols: 2 };
    assert!(!broken.is_well_formed());
    assert_eq!(broken.zip_with(&a, |x: f32, y: f32| x * y), Err(MatrixError::MalformedMatrix));
    assert_eq!(broken.multiply(&a, 0.0, dot), Err(MatrixError::MalformedMatrix));
}
