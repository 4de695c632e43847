use crate::matrix::{accumulates, folds, Matrix, MatrixError};
use vstd::prelude::*;

verus! {

/// The scalar arithmetic the network is trained with.
pub trait Scalar: Copy {
    /// The additive identity.
    fn zero() -> Self;

    /// The multiplicative identity.
    fn one() -> Self;

    /// `self + other`.
    fn plus(self, other: Self) -> Self;

    /// `self - other`.
    fn minus(self, other: Self) -> Self;

    /// `self * other`.
    fn times(self, other: Self) -> Self;

    /// `self / other`.
    fn divide(self, other: Self) -> Self;

    /// `-self`.
    fn negate(self) -> Self;

    /// Euler's number raised to this power.
    fn exp(self) -> Self;
}

/// The additive identity of `T`.
pub fn zero_of<T: Scalar>() -> (r: T)
    ensures
        call_ensures(T::zero, (), r),
{
    T::zero()
}

/// One half, as `1 / (1 + 1)`.
pub fn half_of<T: Scalar>() -> (r: T)
    ensures
        exists|a: T, b: T, c: T, d: T|
            call_ensures(T::one, (), a) && call_ensures(T::one, (), b) && call_ensures(T::one, (), c)
                && call_ensures(T::plus, (b, c), d) && call_ensures(T::divide, (a, d), r),
{
    let a = T::one();
    let b = T::one();
    let c = T::one();
    let d = b.plus(c);
    let r = a.divide(d);
    proof {
        assert(call_ensures(T::one, (), a) && call_ensures(T::one, (), b) && call_ensures(T::one, (), c)
            && call_ensures(T::plus, (b, c), d) && call_ensures(T::divide, (a, d), r));
    }
    r
}

/// The logistic function `1 / (1 + e^-x)`.
pub fn sigmoid<T: Scalar>(x: T) -> (r: T)
    ensures
        exists|a: T, b: T, n: T, e: T, d: T|
            call_ensures(T::one, (), a) && call_ensures(T::one, (), b) && call_ensures(T::negate, (x,), n)
                && call_ensures(T::exp, (n,), e) && call_ensures(T::plus, (b, e), d) && call_ensures(
                T::divide,
                (a, d),
                r,
            ),
{
    let a = T::one();
    let b = T::one();
    let n = x.negate();
    let e = n.exp();
    let d = b.plus(e);
    let r = a.divide(d);
    proof {
        assert(call_ensures(T::one, (), a) && call_ensures(T::one, (), b) && call_ensures(T::negate, (x,), n)
            && call_ensures(T::exp, (n,), e) && call_ensures(T::plus, (b, e), d) && call_ensures(
            T::divide,
            (a, d),
            r,
        ));
    }
    r
}

/// The derivative of the logistic function, given its output `y`: `y * (1 - y)`.
pub fn sigmoid_deriv<T: Scalar>(y: T) -> (r: T)
    ensures
        exists|a: T, m: T|
            call_ensures(T::one, (), a) && call_ensures(T::minus, (a, y), m) && call_ensures(
                T::times,
                (y, m),
                r,
            ),
{
    let a = T::one();
    let m = a.minus(y);
    let r = y.times(m);
    proof {
        assert(call_ensures(T::one, (), a) && call_ensures(T::minus, (a, y), m) && call_ensures(
            T::times,
            (y, m),
            r,
        ));
    }
    r
}

/// `acc + a * b`.
pub fn mul_add<T: Scalar>(acc: T, a: T, b: T) -> (r: T)
    ensures
        exists|p: T| call_ensures(T::times, (a, b), p) && call_ensures(T::plus, (acc, p), r),
{
    let p = a.times(b);
    let r = acc.plus(p);
    proof {
        assert(call_ensures(T::times, (a, b), p) && call_ensures(T::plus, (acc, p), r));
    }
    r
}

/// `a + b`.
pub fn plus<T: Scalar>(a: T, b: T) -> (r: T)
    ensures
        call_ensures(T::plus, (a, b), r),
{
    a.plus(b)
}

/// `a - b`.
pub fn minus<T: Scalar>(a: T, b: T) -> (r: T)
    ensures
        call_ensures(T::minus, (a, b), r),
{
    a.minus(b)
}

/// `a * b`.
pub fn times<T: Scalar>(a: T, b: T) -> (r: T)
    ensures
        call_ensures(T::times, (a, b), r),
{
    a.times(b)
}

/// `a * a`.
pub fn square<T: Scalar>(a: T) -> (r: T)
    ensures
        call_ensures(T::times, (a, a), r),
{
    a.times(a)
}

/// Two matrices with the same shape and entries.
pub open spec fn same<T>(a: Matrix<T>, b: Matrix<T>) -> bool {
    a.rows == b.rows && a.cols == b.cols && a.data@ == b.data@
}

/// `p` is the product of `a` and `w`: each entry folds `mul_add` over a row
/// of `a` and a column of `w`, from a zero.
pub open spec fn is_product<T: Scalar>(a: Matrix<T>, w: Matrix<T>, p: Matrix<T>) -> bool {
    &&& p.wf()
    &&& p.rows == a.rows
    &&& p.cols == w.cols
    &&& exists|z: T|
        #[trigger] call_ensures(zero_of::<T>, (), z) && forall|i: int, j: int|
            0 <= i < p.rows && 0 <= j < p.cols ==> accumulates(
                mul_add::<T>,
                z,
                a.row(i),
                w.col(j),
                #[trigger] p.at(i, j),
            )
}

/// `b` has the shape of `a` and each entry is `f` of `a`'s entry.
pub open spec fn is_mapped<T: Scalar, F: Fn(T) -> T>(f: F, a: Matrix<T>, b: Matrix<T>) -> bool {
    &&& b.rows == a.rows
    &&& b.cols == a.cols
    &&& b.data@.len() == a.data@.len()
    &&& forall|k: int| 0 <= k < a.data@.len() ==> call_ensures(f, (a.data@[k],), #[trigger] b.data@[k])
}

/// `c` has the shape of `a` and each entry is `f` of the entries of `a` and `b`.
pub open spec fn is_combined<T: Scalar, F: Fn(T, T) -> T>(
    f: F,
    a: Matrix<T>,
    b: Matrix<T>,
    c: Matrix<T>,
) -> bool {
    &&& c.rows == a.rows
    &&& c.cols == a.cols
    &&& c.data@.len() == a.data@.len()
    &&& b.data@.len() == a.data@.len()
    &&& forall|k: int|
        0 <= k < a.data@.len() ==> call_ensures(f, (a.data@[k], b.data@[k]), #[trigger] c.data@[k])
}

/// `next` is the activation that weight matrix `w` makes of activation `a`.
pub open spec fn layer_step<T: Scalar>(a: Matrix<T>, w: Matrix<T>, next: Matrix<T>) -> bool {
    exists|p: Matrix<T>| #[trigger] is_product(a, w, p) && is_mapped(sigmoid::<T>, p, next)
}

/// `acts` holds the activation of every layer when `x` runs forward through `weights`.
pub open spec fn forward<T: Scalar>(weights: Seq<Matrix<T>>, x: Matrix<T>, acts: Seq<Matrix<T>>) -> bool {
    &&& acts.len() == weights.len() + 1
    &&& same(acts[0], x)
    &&& forall|l: int| 0 <= l < weights.len() ==> #[trigger] layer_step(acts[l], weights[l], acts[l + 1])
}

/// The product of two matrices whose shapes agree.
fn product<T: Scalar>(a: &Matrix<T>, b: &Matrix<T>) -> (r: Matrix<T>)
    requires
        a.wf(),
        b.wf(),
        a.cols == b.rows,
    ensures
        is_product(*a, *b, r),
{
    let z = zero_of::<T>();
    match a.multiply(b, z, mul_add::<T>) {
        Ok(m) => {
            proof {
                assert(call_ensures(zero_of::<T>, (), z));
            }
            m
        },
        Err(_) => {
            proof {
                assert(false);
            }
            Matrix { data: Vec::new(), rows: 0, cols: 0 }
        },
    }
}

/// The position-wise combination of two matrices of one shape.
fn combine<T: Scalar, F: Fn(T, T) -> T>(a: &Matrix<T>, b: &Matrix<T>, op: F) -> (r: Matrix<T>)
    requires
        a.wf(),
        b.wf(),
        a.rows == b.rows,
        a.cols == b.cols,
        forall|x: T, y: T| call_requires(op, (x, y)),
    ensures
        r.wf(),
        is_combined(op, *a, *b, r),
{
    match a.zip_with(b, op) {
        Ok(m) => m,
        Err(_) => {
            proof {
                assert(false);
            }
            Matrix { data: Vec::new(), rows: 0, cols: 0 }
        },
    }
}

/// `d` is the output delta: `(a - t) * sigmoid'(a)`, position by position.
pub open spec fn output_delta<T: Scalar>(a: Matrix<T>, t: Matrix<T>, d: Matrix<T>) -> bool {
    exists|e: Matrix<T>, g: Matrix<T>|
        is_combined(minus::<T>, a, t, e) && is_mapped(sigmoid_deriv::<T>, a, g) && is_combined(
            times::<T>,
            e,
            g,
            d,
        )
}

/// `d` is the delta of activation `a`, from the delta `dn` of the next layer
/// and the weights `w` between them: `(dn * w^T) * sigmoid'(a)`.
pub open spec fn back_step<T: Scalar>(dn: Matrix<T>, w: Matrix<T>, a: Matrix<T>, d: Matrix<T>) -> bool {
    exists|wt: Matrix<T>, b: Matrix<T>, g: Matrix<T>|
        wt.is_transpose_of(&w) && is_product(dn, wt, b) && is_mapped(sigmoid_deriv::<T>, a, g)
            && is_combined(times::<T>, b, g, d)
}

/// `ds[l]` is the delta of activation `l + 1` when `acts` ran forward
/// through `weights` and `t` was the target.
pub open spec fn backward<T: Scalar>(
    weights: Seq<Matrix<T>>,
    acts: Seq<Matrix<T>>,
    t: Matrix<T>,
    ds: Seq<Matrix<T>>,
) -> bool {
    let n = weights.len() as int;
    &&& ds.len() == n
    &&& output_delta(acts[n], t, ds[n - 1])
    &&& forall|l: int| 0 <= l < n - 1 ==> #[trigger] back_step(ds[l + 1], weights[l + 1], acts[l + 1], ds[l])
}

/// `s` has the shape of `g` and each entry is `g`'s entry times `c`.
pub open spec fn is_scaled<T: Scalar>(g: Matrix<T>, c: T, s: Matrix<T>) -> bool {
    &&& s.rows == g.rows
    &&& s.cols == g.cols
    &&& s.data@.len() == g.data@.len()
    &&& forall|k: int| 0 <= k < g.data@.len() ==> call_ensures(T::times, (g.data@[k], c), #[trigger] s.data@[k])
}

/// `nw` is `w + (a^T * d) * -alpha`: one gradient-descent step.
pub open spec fn updated<T: Scalar>(w: Matrix<T>, a: Matrix<T>, d: Matrix<T>, alpha: T, nw: Matrix<T>) -> bool {
    exists|at: Matrix<T>, g: Matrix<T>, c: T, s: Matrix<T>|
        at.is_transpose_of(&a) && is_product(at, d, g) && call_ensures(T::negate, (alpha,), c) && is_scaled(
            g,
            c,
            s,
        ) && is_combined(plus::<T>, w, s, nw)
}

/// `after` is `before` trained on one sample whose input holds its bias column.
pub open spec fn fit_step<T: Scalar>(before: Network<T>, x: Matrix<T>, t: Matrix<T>, after: Network<T>) -> bool {
    &&& after.layers == before.layers
    &&& after.alpha == before.alpha
    &&& after.weights@.len() == before.weights@.len()
    &&& exists|acts: Seq<Matrix<T>>, ds: Seq<Matrix<T>>|
        forward(before.weights@, x, acts) && backward(before.weights@, acts, t, ds) && forall|l: int|
            0 <= l < before.weights@.len() ==> #[trigger] updated(
                before.weights@[l],
                acts[l],
                ds[l],
                before.alpha,
                after.weights@[l],
            )
}

/// `xb` is `x` with a column of ones appended.
pub open spec fn with_bias<T: Scalar>(x: Matrix<T>, xb: Matrix<T>) -> bool {
    &&& xb.wf()
    &&& xb.rows == x.rows
    &&& xb.cols == x.cols + 1
    &&& forall|i: int, j: int| 0 <= i < x.rows && 0 <= j < x.cols ==> #[trigger] xb.at(i, j) == x.at(i, j)
    &&& exists|o: T|
        #[trigger] call_ensures(T::one, (), o) && forall|i: int| 0 <= i < x.rows ==> #[trigger] xb.at(i, x.cols as int) == o
}

/// `after` is `before` trained once on each sample, in order.
pub open spec fn epoch_pass<T: Scalar>(
    before: Network<T>,
    xs: Seq<Matrix<T>>,
    ys: Seq<Matrix<T>>,
    after: Network<T>,
) -> bool {
    exists|mids: Seq<Network<T>>|
        #![trigger mids.len()]
        mids.len() == xs.len() + 1 && mids[0] == before && mids[xs.len() as int] == after && forall|i: int|
            0 <= i < xs.len() ==> #[trigger] fit_step(mids[i], xs[i], ys[i], mids[i + 1])
}

/// `after` is `before` after `epochs` passes over the samples.
pub open spec fn trained<T: Scalar>(
    before: Network<T>,
    xs: Seq<Matrix<T>>,
    ys: Seq<Matrix<T>>,
    epochs: nat,
    after: Network<T>,
) -> bool {
    exists|es: Seq<Network<T>>|
        #![trigger es.len()]
        es.len() == epochs + 1 && es[0] == before && es[epochs as int] == after && forall|e: int|
            0 <= e < epochs ==> #[trigger] epoch_pass(es[e], xs, ys, es[e + 1])
}

/// `v` is the loss of one sample: half the sum of the squared differences
/// between the prediction for `x` and the target `y`.
pub open spec fn sample_loss<T: Scalar>(net: Network<T>, x: Matrix<T>, y: Matrix<T>, v: T) -> bool {
    exists|acts: Seq<Matrix<T>>, e: Matrix<T>, sq: Matrix<T>, z: T, s: T, h: T|
        forward(net.weights@, x, acts) && is_combined(minus::<T>, acts.last(), y, e) && is_mapped(
            square::<T>,
            e,
            sq,
        ) && call_ensures(zero_of::<T>, (), z) && folds(plus::<T>, z, sq.data@, s) && call_ensures(
            half_of::<T>,
            (),
            h,
        ) && call_ensures(T::times, (h, s), v)
}

/// `b` is `a` plus the loss of the sample `(x, y)`.
pub open spec fn loss_link<T: Scalar>(net: Network<T>, x: Matrix<T>, y: Matrix<T>, a: T, b: T) -> bool {
    exists|v: T| #[trigger] sample_loss(net, x, y, v) && call_ensures(T::plus, (a, v), b)
}

/// `r` is the sum, from zero and in order, of the losses of the pairs
/// `(xs[i], ys[i])` while both sequences last.
pub open spec fn loss_sum<T: Scalar>(net: Network<T>, xs: Seq<Matrix<T>>, ys: Seq<Matrix<T>>, r: T) -> bool {
    let m = if xs.len() < ys.len() {
        xs.len() as int
    } else {
        ys.len() as int
    };
    exists|steps: Seq<T>|
        #![trigger steps.len()]
        steps.len() == m + 1 && call_ensures(zero_of::<T>, (), steps[0]) && steps[m] == r && forall|i: int|
            0 <= i < m ==> #[trigger] loss_link(net, xs[i], ys[i], steps[i], steps[i + 1])
}

/// Multiplies every entry by `c`.
fn scale<T: Scalar>(g: &Matrix<T>, c: T) -> (r: Matrix<T>)
    ensures
        is_scaled(*g, c, r),
{
    let mut data: Vec<T> = Vec::new();
    let mut k: usize = 0;
    while k < g.data.len()
        invariant
            k <= g.data@.len(),
            data@.len() == k,
            forall|m: int| 0 <= m < k ==> call_ensures(T::times, (g.data@[m], c), #[trigger] data@[m]),
        decreases g.data@.len() - k,
    {
        data.push(g.data[k].times(c));
        k += 1;
    }
    Matrix { data, rows: g.rows, cols: g.cols }
}

/// A fully connected feed-forward network. The extra row of each weight
/// matrix multiplies a bias column; every weight matrix but the last also
/// carries one extra column, which passes that column on to the next layer.
#[derive(Debug)]
pub struct Network<T> {
    pub layers: Vec<usize>,
    pub weights: Vec<Matrix<T>>,
    pub alpha: T,
}

/// The number of columns of the activation that layer `l` of `layers`
/// produces: its width, plus one for the bias column on all but the output.
pub open spec fn width(layers: Seq<usize>, l: int) -> int {
    if l + 1 < layers.len() {
        layers[l] + 1
    } else {
        layers[l] as int
    }
}

impl<T: Scalar> Network<T> {
    /// Weight matrix `l` maps the activation of layer `l` to that of layer `l + 1`.
    pub open spec fn wf(&self) -> bool {
        &&& self.layers@.len() >= 2
        &&& self.weights@.len() + 1 == self.layers@.len()
        &&& forall|l: int|
            0 <= l < self.weights@.len() ==> {
                &&& (#[trigger] self.weights@[l]).wf()
                &&& self.weights@[l].rows == width(self.layers@, l)
                &&& self.weights@[l].cols == width(self.layers@, l + 1)
            }
    }

    /// The width of the output layer.
    pub open spec fn output_width(&self) -> int {
        self.layers@.last() as int
    }

    /// `x` is a well-formed input that already holds its bias column.
    pub open spec fn accepts(&self, x: &Matrix<T>) -> bool {
        x.wf() && x.cols == self.layers@[0] + 1
    }

    /// `x` with its bias column and `y` form one training sample.
    pub open spec fn fits(&self, x: &Matrix<T>, y: &Matrix<T>) -> bool {
        &&& self.accepts(x)
        &&& y.wf()
        &&& y.rows == x.rows
        &&& y.cols == self.output_width()
    }

    /// `x`, before its bias column is appended, and `y` form one training sample.
    pub open spec fn fits_raw(&self, x: &Matrix<T>, y: &Matrix<T>) -> bool {
        &&& x.wf()
        &&& x.cols == self.layers@[0]
        &&& y.wf()
        &&& y.rows == x.rows
        &&& y.cols == self.output_width()
    }
    /// Creates a network with the given layer widths and learning rate; entry
    /// `(i, j)` of each weight matrix is drawn by `sample(i, j)`.
    pub fn new<F: Fn(usize, usize) -> T>(layers: &[usize], alpha: T, sample: F) -> (r: Network<T>)
        requires
            layers@.len() >= 2,
            forall|l: int| 0 <= l < layers@.len() ==> #[trigger] layers@[l] < usize::MAX,
            forall|l: int|
                0 <= l < layers@.len() - 1 ==> (#[trigger] layers@[l] + 1) * (layers@[l + 1] + 1)
                    <= usize::MAX,
            forall|i: usize, j: usize| call_requires(sample, (i, j)),
        ensures
            r.wf(),
            r.layers@ == layers@,
            r.alpha == alpha,
            forall|l: int, i: int, j: int|
                0 <= l < r.weights@.len() && 0 <= i < r.weights@[l].rows && 0 <= j
                    < r.weights@[l].cols ==> call_ensures(
                    sample,
                    (i as usize, j as usize),
                    #[trigger] r.weights@[l].at(i, j),
                ),
    {
        let n = layers.len();
        let mut widths: Vec<usize> = Vec::new();
        let mut k: usize = 0;
        while k < n
            invariant
                n == layers@.len(),
                k <= n,
                widths@ == layers@.take(k as int),
            decreases n - k,
        {
            widths.push(layers[k]);
            k += 1;
            proof {
                assert(widths@ =~= layers@.take(k as int));
            }
        }
        proof {
            assert(widths@ =~= layers@);
        }
        let mut weights: Vec<Matrix<T>> = Vec::new();
        let mut l: usize = 0;
        while l + 1 < n
            invariant
                n == layers@.len(),
                n >= 2,
                l + 1 <= n,
                forall|l: int| 0 <= l < layers@.len() ==> #[trigger] layers@[l] < usize::MAX,
                forall|l: int|
                    0 <= l < layers@.len() - 1 ==> (#[trigger] layers@[l] + 1) * (layers@[l + 1] + 1)
                        <= usize::MAX,
                forall|i: usize, j: usize| call_requires(sample, (i, j)),
                weights@.len() == l,
                forall|m: int|
                    0 <= m < l ==> {
                        &&& (#[trigger] weights@[m]).wf()
                        &&& weights@[m].rows == width(layers@, m)
                        &&& weights@[m].cols == width(layers@, m + 1)
                    },
                forall|m: int, i: int, j: int|
                    0 <= m < l && 0 <= i < weights@[m].rows && 0 <= j < weights@[m].cols
                        ==> call_ensures(sample, (i as usize, j as usize), #[trigger] weights@[m].at(i, j)),
            decreases n - l,
        {
            let rows = layers[l] + 1;
            let cols = if l + 2 < n {
                layers[l + 1] + 1
            } else {
                layers[l + 1]
            };
            proof {
                let a = layers@[l as int] + 1;
                let b = layers@[l + 1] + 1;
                assert(a * b <= usize::MAX);
                assert(a * cols <= a * b) by (nonlinear_arith)
                    requires
                        0 <= cols <= b,
                        a >= 0,
                ;
            }
            weights.push(Matrix::from_dim(rows, cols, &sample));
            l += 1;
        }
        Network { layers: widths, weights, alpha }
    }

    /// Runs `x`, which already holds its bias column, forward through every
    /// layer: each activation is the sigmoid of the previous one times the
    /// layer's weights.
    pub fn predict(&self, x: &Matrix<T>) -> (r: Result<Matrix<T>, MatrixError>)
        requires
            self.wf(),
        ensures
            x.cols != self.layers@[0] + 1 ==> r == Err::<Matrix<T>, MatrixError>(MatrixError::DimensionMismatch),
            x.cols == self.layers@[0] + 1 && !x.wf()
                ==> r == Err::<Matrix<T>, MatrixError>(MatrixError::MalformedMatrix),
            self.accepts(x) ==> r is Ok,
            r matches Ok(m) ==> {
                &&& m.wf()
                &&& m.rows == x.rows
                &&& m.cols == self.output_width()
                &&& exists|acts: Seq<Matrix<T>>|
                    #[trigger] forward(self.weights@, *x, acts) && same(acts.last(), m)
            },
    {
        if x.cols != self.weights[0].rows {
            return Err(MatrixError::DimensionMismatch);
        }
        if !x.is_well_formed() {
            return Err(MatrixError::MalformedMatrix);
        }
        let p = product(x, &self.weights[0]);
        let mut current = p.apply(sigmoid::<T>);
        let ghost mut acts: Seq<Matrix<T>> = seq![*x, current];
        proof {
            assert(is_product(acts[0], self.weights@[0], p) && is_mapped(sigmoid::<T>, p, acts[1]));
            assert(layer_step(acts[0], self.weights@[0], acts[1]));
        }
        let mut l: usize = 1;
        while l < self.weights.len()
            invariant
                self.wf(),
                x.wf(),
                1 <= l <= self.weights@.len(),
                current.wf(),
                current.rows == x.rows,
                current.cols == width(self.layers@, l as int),
                acts.len() == l + 1,
                acts[0] == *x,
                acts[l as int] == current,
                forall|m: int| 0 <= m < l ==> #[trigger] layer_step(acts[m], self.weights@[m], acts[m + 1]),
            decreases self.weights@.len() - l,
        {
            let p = product(&current, &self.weights[l]);
            let next = p.apply(sigmoid::<T>);
            proof {
                assert(is_product(acts[l as int], self.weights@[l as int], p) && is_mapped(sigmoid::<T>, p, next));
                assert(layer_step(acts[l as int], self.weights@[l as int], next));
                acts = acts.push(next);
            }
            current = next;
            l += 1;
        }
        proof {
            assert(forward(self.weights@, *x, acts));
        }
        Ok(current)
    }

    /// The summed loss over paired samples: half the sum of squared
    /// differences between each prediction and its target, added up in
    /// order. Pairs are taken while both slices last.
    pub fn calculate_loss(&self, x_data: &[Matrix<T>], y_data: &[Matrix<T>]) -> (r: Result<
        T,
        MatrixError,
    >)
        requires
            self.wf(),
        ensures
            r is Ok <==> forall|i: int|
                0 <= i < x_data@.len() && i < y_data@.len() ==> self.fits(
                    &#[trigger] x_data@[i],
                    &y_data@[i],
                ),
            r matches Ok(t) ==> loss_sum(*self, x_data@, y_data@, t),
    {
        let half = half_of::<T>();
        let mut total = zero_of::<T>();
        let ghost mut steps: Seq<T> = seq![total];
        let mut i: usize = 0;
        while i < x_data.len() && i < y_data.len()
            invariant
                self.wf(),
                i <= x_data@.len(),
                i <= y_data@.len(),
                forall|k: int| 0 <= k < i ==> self.fits(&#[trigger] x_data@[k], &y_data@[k]),
                call_ensures(half_of::<T>, (), half),
                steps.len() == i + 1,
                call_ensures(zero_of::<T>, (), steps[0]),
                steps[i as int] == total,
                forall|k: int|
                    0 <= k < i ==> #[trigger] loss_link(*self, x_data@[k], y_data@[k], steps[k], steps[k + 1]),
            decreases x_data@.len() - i,
        {
            let prediction = match self.predict(&x_data[i]) {
                Ok(m) => m,
                Err(e) => {
                    return Err(e);
                },
            };
            let diff = match prediction.zip_with(&y_data[i], minus::<T>) {
                Ok(m) => m,
                Err(e) => {
                    return Err(e);
                },
            };
            let squares = diff.apply(square::<T>);
            let z = zero_of::<T>();
            let s = squares.sum(z, plus::<T>);
            let v = half.times(s);
            let ghost before = total;
            total = total.plus(v);
            proof {
                let acts = choose|acts: Seq<Matrix<T>>|
                    #[trigger] forward(self.weights@, x_data@[i as int], acts) && same(acts.last(), prediction);
                assert(forward(self.weights@, x_data@[i as int], acts) && is_combined(minus::<T>, acts.last(), y_data@[i as int], diff)
                    && is_mapped(square::<T>, diff, squares) && call_ensures(zero_of::<T>, (), z) && folds(plus::<T>, z, squares.data@, s)
                    && call_ensures(half_of::<T>, (), half) && call_ensures(T::times, (half, s), v));
                assert(sample_loss(*self, x_data@[i as int], y_data@[i as int], v));
                steps = steps.push(total);
                assert(call_ensures(T::plus, (steps[i as int], v), steps[i + 1]));
                assert(loss_link(*self, x_data@[i as int], y_data@[i as int], steps[i as int], steps[i + 1]));
            }
            i += 1;
        }
        proof {
            assert(loss_sum(*self, x_data@, y_data@, total));
        }
        Ok(total)
    }

    /// One gradient-descent step on a single sample whose input already holds
    /// its bias column.
    fn fit_partial(&mut self, input: &Matrix<T>, target: &Matrix<T>)
        requires
            old(self).wf(),
            old(self).fits(input, target),
        ensures
            final(self).wf(),
            fit_step(*old(self), *input, *target, *final(self)),
    {
        let n = self.weights.len();
        let ghost layers = self.layers@;
        let ghost w0 = self.weights@;
        // Feed forward, keeping the activation of every layer.
        let mut activation: Vec<Matrix<T>> = Vec::new();
        activation.push(input.duplicate());
        let mut l: usize = 0;
        while l < n
            invariant
                self.wf(),
                self.fits(input, target),
                n == self.weights@.len(),
                layers == self.layers@,
                w0 == self.weights@,
                l <= n,
                activation@.len() == l + 1,
                same(activation@[0], *input),
                forall|m: int|
                    0 <= m <= l ==> {
                        &&& (#[trigger] activation@[m]).wf()
                        &&& activation@[m].rows == input.rows
                        &&& activation@[m].cols == width(layers, m)
                    },
                forall|m: int| 0 <= m < l ==> #[trigger] layer_step(activation@[m], w0[m], activation@[m + 1]),
            decreases n - l,
        {
            let p = product(&activation[l], &self.weights[l]);
            let out = p.apply(sigmoid::<T>);
            proof {
                assert(is_product(activation@[l as int], w0[l as int], p) && is_mapped(sigmoid::<T>, p, out));
                assert(layer_step(activation@[l as int], w0[l as int], out));
            }
            activation.push(out);
            l += 1;
        }
        proof {
            assert(forward(w0, *input, activation@));
        }
        // The output delta, then the deltas of the hidden layers, last first:
        // `deltas[k]` belongs to the activation of layer `n - k`.
        let last = &activation[n];
        let error = combine(last, target, minus::<T>);
        let slope = last.apply(sigmoid_deriv::<T>);
        let first_delta = combine(&error, &slope, times::<T>);
        proof {
            assert(output_delta(activation@[n as int], *target, first_delta));
        }
        let mut deltas: Vec<Matrix<T>> = Vec::new();
        deltas.push(first_delta);
        let mut li: usize = n - 1;
        while li > 0
            invariant
                self.wf(),
                n == self.weights@.len(),
                layers == self.layers@,
                w0 == self.weights@,
                activation@.len() == n + 1,
                forall|m: int|
                    0 <= m <= n ==> {
                        &&& (#[trigger] activation@[m]).wf()
                        &&& activation@[m].rows == input.rows
                        &&& activation@[m].cols == width(layers, m)
                    },
                li < n,
                deltas@.len() == n - li,
                forall|k: int|
                    0 <= k < n - li ==> {
                        &&& (#[trigger] deltas@[k]).wf()
                        &&& deltas@[k].rows == input.rows
                        &&& deltas@[k].cols == width(layers, n - k)
                    },
                output_delta(activation@[n as int], *target, deltas@[0]),
                forall|k: int|
                    0 < k < n - li ==> #[trigger] back_step(deltas@[k - 1], w0[n - k], activation@[n - k], deltas@[k]),
            decreases li,
        {
            let previous = &deltas[deltas.len() - 1];
            let wt = self.weights[li].transpose();
            let back = product(previous, &wt);
            let g = activation[li].apply(sigmoid_deriv::<T>);
            let next = combine(&back, &g, times::<T>);
            proof {
                assert(wt.is_transpose_of(&w0[li as int]) && is_product(deltas@[n - li - 1], wt, back)
                    && is_mapped(sigmoid_deriv::<T>, activation@[li as int], g) && is_combined(times::<T>, back, g, next));
                assert(back_step(deltas@[n - li - 1], w0[li as int], activation@[li as int], next));
            }
            deltas.push(next);
            li -= 1;
        }
        let ghost ds = Seq::new(n as nat, |l: int| deltas@[n - 1 - l]);
        proof {
            assert(backward(w0, activation@, *target, ds)) by {
                assert forall|l: int| 0 <= l < n - 1 implies #[trigger] back_step(ds[l + 1], w0[l + 1], activation@[l + 1], ds[l]) by {
                    let k = n - 1 - l;
                    assert(back_step(deltas@[k - 1], w0[n - k], activation@[n - k], deltas@[k]));
                }
            }
        }
        // Gradient-descent update of every weight matrix.
        let step = self.alpha.negate();
        let mut l: usize = 0;
        while l < n
            invariant
                self.wf(),
                n == self.weights@.len(),
                layers == self.layers@,
                self.alpha == old(self).alpha,
                self.layers == old(self).layers,
                w0 == old(self).weights@,
                call_ensures(T::negate, (self.alpha,), step),
                activation@.len() == n + 1,
                forall|m: int|
                    0 <= m <= n ==> {
                        &&& (#[trigger] activation@[m]).wf()
                        &&& activation@[m].rows == input.rows
                        &&& activation@[m].cols == width(layers, m)
                    },
                deltas@.len() == n,
                forall|k: int|
                    0 <= k < n ==> {
                        &&& (#[trigger] deltas@[k]).wf()
                        &&& deltas@[k].rows == input.rows
                        &&& deltas@[k].cols == width(layers, n - k)
                    },
                ds.len() == n,
                forall|m: int| 0 <= m < n ==> ds[m] == deltas@[n - 1 - m],
                l <= n,
                forall|m: int| l <= m < n ==> self.weights@[m] == w0[m],
                forall|m: int|
                    0 <= m < l ==> #[trigger] updated(w0[m], activation@[m], ds[m], self.alpha, self.weights@[m]),
            decreases n - l,
        {
            let at = activation[l].transpose();
            let gradient = product(&at, &deltas[n - 1 - l]);
            let scaled = scale(&gradient, step);
            let updated_w = combine(&self.weights[l], &scaled, plus::<T>);
            proof {
                assert(at.is_transpose_of(&activation@[l as int]) && is_product(at, ds[l as int], gradient)
                    && call_ensures(T::negate, (self.alpha,), step) && is_scaled(gradient, step, scaled)
                    && is_combined(plus::<T>, w0[l as int], scaled, updated_w));
                assert(updated(w0[l as int], activation@[l as int], ds[l as int], self.alpha, updated_w));
            }
            self.weights.set(l, updated_w);
            l += 1;
        }
        proof {
            assert(fit_step(*old(self), *input, *target, *self));
        }
    }

    /// Trains for `epochs` passes over the samples, in order, continuing from
    /// the current weights. Each input gets a bias column of ones first.
    /// `display_update` is ignored. Nothing changes when a sample does not
    /// fit the network.
    pub fn fit(&mut self, x: &[Matrix<T>], y_data: &[Matrix<T>], epochs: usize, display_update: usize) -> (r:
        Result<(), MatrixError>)
        requires
            old(self).wf(),
            x@.len() == y_data@.len(),
            forall|i: int|
                0 <= i < x@.len() ==> (#[trigger] x@[i]).cols < usize::MAX && x@[i].rows * (x@[i].cols
                    + 1) <= usize::MAX,
        ensures
            final(self).wf(),
            final(self).layers == old(self).layers,
            final(self).alpha == old(self).alpha,
            r is Ok <==> forall|i: int|
                0 <= i < x@.len() ==> old(self).fits_raw(&#[trigger] x@[i], &y_data@[i]),
            r is Err ==> *final(self) == *old(self),
            epochs == 0 ==> *final(self) == *old(self),
            r is Ok ==> exists|xb: Seq<Matrix<T>>|
                #![trigger xb.len()]
                xb.len() == x@.len() && (forall|i: int| 0 <= i < x@.len() ==> #[trigger] with_bias(x@[i], xb[i]))
                    && trained(*old(self), xb, y_data@, epochs as nat, *final(self)),
    {
        let mut i: usize = 0;
        while i < x.len()
            invariant
                self.wf(),
                x@.len() == y_data@.len(),
                i <= x@.len(),
                forall|k: int| 0 <= k < i ==> self.fits_raw(&#[trigger] x@[k], &y_data@[k]),
            decreases x@.len() - i,
        {
            let input = &x[i];
            let target = &y_data[i];
            if !input.is_well_formed() || !target.is_well_formed() {
                return Err(MatrixError::MalformedMatrix);
            }
            if input.cols != self.layers[0] {
                return Err(MatrixError::DimensionMismatch);
            }
            if target.rows != input.rows || target.cols != self.layers[self.layers.len() - 1] {
                return Err(MatrixError::ShapeMismatch);
            }
            i += 1;
        }
        let mut x_data: Vec<Matrix<T>> = Vec::new();
        let mut i: usize = 0;
        while i < x.len()
            invariant
                self.wf(),
                x@.len() == y_data@.len(),
                forall|k: int| 0 <= k < x@.len() ==> self.fits_raw(&#[trigger] x@[k], &y_data@[k]),
                forall|i: int|
                    0 <= i < x@.len() ==> (#[trigger] x@[i]).cols < usize::MAX && x@[i].rows * (
                    x@[i].cols + 1) <= usize::MAX,
                i <= x@.len(),
                x_data@.len() == i,
                forall|k: int| 0 <= k < i ==> self.fits(&#[trigger] x_data@[k], &y_data@[k]),
                forall|k: int| 0 <= k < i ==> #[trigger] with_bias(x@[k], x_data@[k]),
            decreases x@.len() - i,
        {
            let mut item = x[i].duplicate();
            let o = T::one();
            item.add_col(o);
            proof {
                assert(call_ensures(T::one, (), o));
                assert(with_bias(x@[i as int], item));
            }
            x_data.push(item);
            i += 1;
        }
        let ghost mut es: Seq<Network<T>> = seq![*self];
        let mut epoch: usize = 0;
        while epoch < epochs
            invariant
                self.wf(),
                self.layers == old(self).layers,
                self.alpha == old(self).alpha,
                x_data@.len() == y_data@.len(),
                forall|k: int| 0 <= k < x_data@.len() ==> self.fits(&#[trigger] x_data@[k], &y_data@[k]),
                epoch <= epochs,
                epoch == 0 ==> *self == *old(self),
                es.len() == epoch + 1,
                es[0] == *old(self),
                es[epoch as int] == *self,
                forall|e: int| 0 <= e < epoch ==> #[trigger] epoch_pass(es[e], x_data@, y_data@, es[e + 1]),
            decreases epochs - epoch,
        {
            let ghost start = *self;
            let ghost mut mids: Seq<Network<T>> = seq![*self];
            let mut i: usize = 0;
            while i < x_data.len()
                invariant
                    self.wf(),
                    self.layers == old(self).layers,
                    self.alpha == old(self).alpha,
                    x_data@.len() == y_data@.len(),
                    forall|k: int|
                        0 <= k < x_data@.len() ==> self.fits(&#[trigger] x_data@[k], &y_data@[k]),
                    i <= x_data@.len(),
                    mids.len() == i + 1,
                    mids[0] == start,
                    mids[i as int] == *self,
                    forall|j: int| 0 <= j < i ==> #[trigger] fit_step(mids[j], x_data@[j], y_data@[j], mids[j + 1]),
                decreases x_data@.len() - i,
            {
                self.fit_partial(&x_data[i], &y_data[i]);
                proof {
                    mids = mids.push(*self);
                }
                i += 1;
            }
            proof {
                assert(epoch_pass(start, x_data@, y_data@, *self));
                es = es.push(*self);
            }
            epoch += 1;
        }
        proof {
            assert(trained(*old(self), x_data@, y_data@, epochs as nat, *self));
        }
        Ok(())
    }
}


/// Zero epochs of training leave the network as it was, so every loss that
/// held of it before still holds after.
pub proof fn lemma_zero_epochs_keep_network<T: Scalar>(
    before: Network<T>,
    xs: Seq<Matrix<T>>,
    ys: Seq<Matrix<T>>,
    after: Network<T>,
    xl: Seq<Matrix<T>>,
    yl: Seq<Matrix<T>>,
    t: T,
)
    requires
        trained(before, xs, ys, 0, after),
    ensures
        after == before,
        loss_sum(before, xl, yl, t) == loss_sum(after, xl, yl, t),
{
    let es = choose|es: Seq<Network<T>>|
        #![trigger es.len()]
        es.len() == 0nat + 1 && es[0] == before && es[0] == after && forall|e: int|
            0 <= e < 0 ==> #[trigger] epoch_pass(es[e], xs, ys, es[e + 1]);
}

/// Training for `e1` epochs and then for `e2` more is training for
/// `e1 + e2` epochs: a later call continues from the current weights.
pub proof fn lemma_training_continues<T: Scalar>(
    n0: Network<T>,
    xs: Seq<Matrix<T>>,
    ys: Seq<Matrix<T>>,
    e1: nat,
    n1: Network<T>,
    e2: nat,
    n2: Network<T>,
)
    requires
        trained(n0, xs, ys, e1, n1),
        trained(n1, xs, ys, e2, n2),
    ensures
        trained(n0, xs, ys, e1 + e2, n2),
{
    let a = choose|es: Seq<Network<T>>|
        #![trigger es.len()]
        es.len() == e1 + 1 && es[0] == n0 && es[e1 as int] == n1 && forall|e: int|
            0 <= e < e1 ==> #[trigger] epoch_pass(es[e], xs, ys, es[e + 1]);
    let b = choose|es: Seq<Network<T>>|
        #![trigger es.len()]
        es.len() == e2 + 1 && es[0] == n1 && es[e2 as int] == n2 && forall|e: int|
            0 <= e < e2 ==> #[trigger] epoch_pass(es[e], xs, ys, es[e + 1]);
    let c = a + b.subrange(1, b.len() as int);
    assert(c.len() == e1 + e2 + 1);
    assert forall|e: int| 0 <= e < e1 + e2 implies #[trigger] epoch_pass(c[e], xs, ys, c[e + 1]) by {
        if e < e1 {
            assert(c[e] == a[e]);
            if e + 1 < e1 + 1 {
                assert(c[e + 1] == a[e + 1]);
            }
        } else {
            assert(c[e] == b[e - e1]);
            assert(c[e + 1] == b[e + 1 - e1]);
            assert(epoch_pass(b[e - e1], xs, ys, b[e - e1 + 1]));
        }
    }
    assert(c[(e1 + e2) as int] == b[e2 as int]);
    assert(trained(n0, xs, ys, e1 + e2, n2));
}

} // verus!
