use std::cell::RefCell;

use neurs::matrix::{Matrix, MatrixError};
use neurs::network::{sigmoid, sigmoid_deriv, Network, Scalar};
use rand::rngs::StdRng;
use rand::{Rng, SeedableRng};

#[derive(Debug, Clone, Copy, PartialEq)]
struct Real(f32);

impl Scalar for Real {
    fn zero() -> Self {
        Real(0.0)
    }
    fn one() -> Self {
        Real(1.0)
    }
    fn plus(self, other: Self) -> Self {
        Real(self.0 + other.0)
    }
    fn minus(self, other: Self) -> Self {
        Real(self.0 - other.0)
    }
    fn times(self, other: Self) -> Self {
        Real(self.0 * other.0)
    }
    fn divide(self, other: Self) -> Self {
        Real(self.0 / other.0)
    }
    fn negate(self) -> Self {
        Real(-self.0)
    }
    fn exp(self) -> Self {
        Real(std::f32::consts::E.powf(self.0))
    }
}

fn row(values: &[f32]) -> Matrix<Real> {
    Matrix::from_vec(values.iter().map(|v| Real(*v)).collect())
}

fn seeded(layers: &[usize], alpha: f32, seed: u64) -> Network<Real> {
    let rng = RefCell::new(StdRng::seed_from_u64(seed));
    Network::new(layers, Real(alpha), |_: usize, _: usize| {
        Real(rng.borrow_mut().gen_range(-1.0f32..1.0))
    })
}

fn xor_data() -> (Vec<Matrix<Real>>, Vec<Matrix<Real>>) {
    let x = vec![row(&[0.0, 0.0]), row(&[0.0, 1.0]), row(&[1.0, 0.0]), row(&[1.0, 1.0])];
    let y = vec![row(&[0.0]), row(&[1.0]), row(&[1.0]), row(&[0.0])];
    (x, y)
}

fn with_bias(x: &[Matrix<Real>]) -> Vec<Matrix<Real>> {
    x.iter()
        .map(|m| {
            let mut m = m.clone();
            m.add_col(Real(1.0));
            m
        })
        .collect()
}

#[test]
fn weight_shapes_follow_layers() {
    let net = seeded(&[1, 3, 3, 1], 0.2, 1);
    let shapes: Vec<(usize, usize)> = net.weights.iter().map(|w| (w.rows, w.cols)).collect();
    assert_eq!(shapes, vec![(2, 4), (4, 4), (4, 1)]);
    assert_eq!(net.layers, vec![1, 3, 3, 1]);
    for w in &net.weights {
        assert_eq!(w.data.len(), w.rows * w.cols);
        assert!(w.data.iter().all(|v| v.0 >= -1.0 && v.0 < 1.0));
    }
    let small = seeded(&[2, 1], 0.5, 2);
    let shapes: Vec<(usize, usize)> = small.weights.iter().map(|w| (w.rows, w.cols)).collect();
    assert_eq!(shapes, vec![(3, 1)]);
}

#[test]
fn predict_shape_and_value() {
    let mut net = seeded(&[2, 1], 0.5, 3);
    net.weights[0] = Matrix { data: vec![Real(0.0), Real(0.0), Real(0.0)], rows: 3, cols: 1 };
    let out = net.predict(&row(&[4.0, -2.0, 1.0])).unwrap();
    assert_eq!((out.rows, out.cols), (1, 1));
    assert_eq!(out.data, vec![Real(0.5)]);
    net.weights[0] = Matrix { data: vec![Real(1.0), Real(0.0), Real(0.0)], rows: 3, cols: 1 };
    let out = net.predict(&row(&[2.0, 5.0, 1.0])).unwrap();
    assert!((out.data[0].0 - 1.0 / (1.0 + (-2.0f32).exp())).abs() < 1e-6);
    assert_eq!(net.predict(&row(&[1.0, 2.0])), Err(MatrixError::DimensionMismatch));
}

#[test]
fn loss_is_zero_only_on_exact_predictions() {
    let net = seeded(&[2, 2, 1], 0.5, 4);
    let (x, y) = xor_data();
    let xb = with_bias(&x);
    let exact: Vec<Matrix<Real>> = xb.iter().map(|m| net.predict(m).unwrap()).collect();
    assert_eq!(net.calculate_loss(&xb, &exact).unwrap(), Real(0.0));
    assert!(net.calculate_loss(&xb, &y).unwrap().0 > 0.0);
    let mut shifted = exact.clone();
    shifted[0] = shifted[0].apply(|v: Real| Real(v.0 + 0.5));
    let loss = net.calculate_loss(&xb, &shifted).unwrap();
    assert!((loss.0 - 0.125).abs() < 1e-6);
    assert_eq!(net.calculate_loss(&x, &y), Err(MatrixError::DimensionMismatch));
}

#[test]
fn zero_epochs_change_nothing() {
    let mut net = seeded(&[2, 2, 1], 0.5, 5);
    let (x, y) = xor_data();
    let before = net.weights.clone();
    let loss_before = net.calculate_loss(&with_bias(&x), &y).unwrap();
    net.fit(&x, &y, 0, 1).unwrap();
    assert_eq!(net.weights, before);
    assert_eq!(net.calculate_loss(&with_bias(&x), &y).unwrap(), loss_before);
}

#[test]
fn one_epoch_moves_the_weights() {
    let mut net = seeded(&[2, 2, 1], 0.5, 6);
    let (x, y) = xor_data();
    let before = net.weights.clone();
    net.fit(&x, &y, 1, 1).unwrap();
    assert_ne!(net.weights, before);
    let shapes: Vec<(usize, usize)> = net.weights.iter().map(|w| (w.rows, w.cols)).collect();
    assert_eq!(shapes, vec![(3, 3), (3, 1)]);
}

#[test]
fn fit_rejects_bad_samples() {
    let mut net = seeded(&[2, 2, 1], 0.5, 7);
    let before = net.weights.clone();
    let x = vec![row(&[0.0, 1.0, 1.0])];
    let y = vec![row(&[1.0])];
    assert_eq!(net.fit(&x, &y, 3, 1), Err(MatrixError::DimensionMismatch));
    let x = vec![row(&[0.0, 1.0])];
    let y = vec![row(&[1.0, 0.0])];
    assert_eq!(net.fit(&x, &y, 3, 1), Err(MatrixError::ShapeMismatch));
    assert_eq!(net.weights, before);
}

#[test]
fn learns_xor() {
    let (x, y) = xor_data();
    let xb = with_bias(&x);
    let mut learned = false;
    for seed in 0..8u64 {
        let mut net = seeded(&[2, 2, 1], 0.5, seed);
        net.fit(&x, &y, 20000, 1000).unwrap();
        let close = xb
            .iter()
            .zip(y.iter())
            .all(|(input, target)| (net.predict(input).unwrap().data[0].0 - target.data[0].0).abs() < 0.1);
        if close {
            learned = true;
            break;
        }
    }
    assert!(learned);
}

#[test]
fn single_step_follows_gradient() {
    let mut net = seeded(&[1, 1], 0.5, 9);
    net.weights[0] = Matrix { data: vec![Real(0.0), Real(0.0)], rows: 2, cols: 1 };
    net.fit(&[row(&[1.0])], &[row(&[1.0])], 1, 1).unwrap();
    assert_eq!(net.weights[0].data, vec![Real(0.0625), Real(0.0625)]);
}

#[test]
fn sigmoid_values() {
    assert_eq!(sigmoid(Real(0.0)), Real(0.5));
    assert!((sigmoid(Real(2.0)).0 - 1.0 / (1.0 + (-2.0f32).exp())).abs() < 1e-6);
    assert_eq!(sigmoid_deriv(Real(0.5)), Real(0.25));
    assert_eq!(sigmoid_deriv(Real(1.0)), Real(0.0));
}

#[test]
fn training_continues_across_calls() {
    let (x, y) = xor_data();
    let mut split = seeded(&[2, 2, 1], 0.5, 11);
    let mut whole = seeded(&[2, 2, 1], 0.5, 11);
    split.fit(&x, &y, 3, 1).unwrap();
    split.fit(&x, &y, 4, 100).unwrap();
    whole.fit(&x, &y, 7, 0).unwrap();
    assert_eq!(split.weights, whole.weights);
}

#[test]
fn loss_sums_half_squares() {
    let mut net = seeded(&[1, 1], 0.5, 12);
    net.weights[0] = Matrix { data: vec![Real(0.0), Real(0.0)], rows: 2, cols: 1 };
    let xs = vec![row(&[3.0, 1.0]), row(&[-1.0, 1.0])];
    let ys = vec![row(&[1.0]), row(&[0.0])];
    assert_eq!(net.calculate_loss(&xs, &ys).unwrap(), Real(0.25));
}
