use vstd::prelude::*;

verus! {

/// Proves that the flat index of an in-range entry lies inside the data.
proof fn lemma_index_in_range(i: int, j: int, rows: int, cols: int)
    requires
        0 <= i < rows,
        0 <= j < cols,
    ensures
        0 <= i * cols + j < rows * cols,
        i * cols + j >= i * cols,
{
    assert(i * cols + j < rows * cols) by (nonlinear_arith)
        requires
            0 <= i < rows,
            0 <= j < cols,
    ;
    assert(0 <= i * cols) by (nonlinear_arith)
        requires
            0 <= i,
            0 <= cols,
    ;
}

/// `acc` records the running values of folding `f` over the pairs
/// `(a[k], b[k])` from `init`: each is a result of `f` on the one before.
pub open spec fn accumulation_steps<T, F: Fn(T, T, T) -> T>(
    f: F,
    init: T,
    a: Seq<T>,
    b: Seq<T>,
    acc: Seq<T>,
) -> bool {
    &&& acc.len() == a.len() + 1
    &&& acc[0] == init
    &&& forall|k: int| 0 <= k < a.len() ==> call_ensures(f, (acc[k], a[k], b[k]), #[trigger] acc[k + 1])
}

/// `r` is what folding `f` over the pairs `(a[k], b[k])`, left to right and
/// starting from `init`, can produce.
pub open spec fn accumulates<T, F: Fn(T, T, T) -> T>(
    f: F,
    init: T,
    a: Seq<T>,
    b: Seq<T>,
    r: T,
) -> bool {
    exists|acc: Seq<T>| #[trigger] accumulation_steps(f, init, a, b, acc) && acc.last() == r
}

/// `acc` records the running values of folding `f` over `s` from `init`.
pub open spec fn fold_steps<T, F: Fn(T, T) -> T>(f: F, init: T, s: Seq<T>, acc: Seq<T>) -> bool {
    &&& acc.len() == s.len() + 1
    &&& acc[0] == init
    &&& forall|k: int| 0 <= k < s.len() ==> call_ensures(f, (acc[k], s[k]), #[trigger] acc[k + 1])
}

/// `r` is what folding `f` over `s`, left to right and starting from `init`,
/// can produce.
pub open spec fn folds<T, F: Fn(T, T) -> T>(f: F, init: T, s: Seq<T>, r: T) -> bool {
    exists|acc: Seq<T>| #[trigger] fold_steps(f, init, s, acc) && acc.last() == r
}

/// Why a matrix operation could not be carried out.
#[derive(Debug, Clone, Copy, PartialEq, Eq, Structural)]
pub enum MatrixError {
    /// The left operand's column count differs from the right operand's row count.
    DimensionMismatch,
    /// Elementwise operands do not have the same number of rows and columns.
    ShapeMismatch,
    /// The data length is not `rows * cols`, or the rows have unequal lengths.
    MalformedMatrix,
    /// A matrix was to be built from no rows at all.
    EmptyInput,
}

/// A dense matrix stored row by row in one flat vector.
#[derive(Debug, Clone, PartialEq)]
pub struct Matrix<T> {
    pub data: Vec<T>,
    pub rows: usize,
    pub cols: usize,
}

impl<T: Copy> Matrix<T> {
    /// The data holds exactly one entry per row and column.
    pub open spec fn wf(&self) -> bool {
        self.data@.len() == self.rows * self.cols
    }

    /// The entry in row `i` and column `j`.
    pub open spec fn at(&self, i: int, j: int) -> T {
        self.data@[i * self.cols + j]
    }

    /// The entries of row `i`, left to right.
    pub open spec fn row(&self, i: int) -> Seq<T> {
        Seq::new(self.cols as nat, |j: int| self.at(i, j))
    }

    /// The entries of column `j`, top to bottom.
    pub open spec fn col(&self, j: int) -> Seq<T> {
        Seq::new(self.rows as nat, |i: int| self.at(i, j))
    }

    /// `self` holds the entries of `m` with rows and columns swapped.
    pub open spec fn is_transpose_of(&self, m: &Matrix<T>) -> bool {
        &&& self.wf()
        &&& self.rows == m.cols
        &&& self.cols == m.rows
        &&& forall|i: int, j: int|
            0 <= i < self.rows && 0 <= j < self.cols ==> #[trigger] self.at(i, j) == m.at(j, i)
    }

    /// Returns the matrix with rows and columns swapped.
    pub fn transpose(&self) -> (r: Matrix<T>)
        requires
            self.wf(),
        ensures
            r.is_transpose_of(self),
    {
        let mut result: Vec<T> = Vec::new();
        let mut c: usize = 0;
        while c < self.cols
            invariant
                self.wf(),
                c <= self.cols,
                result@.len() == c * self.rows,
                forall|i: int, j: int|
                    0 <= i < c && 0 <= j < self.rows ==> #[trigger] result@[i * self.rows + j]
                        == self.at(j, i),
            decreases self.cols - c,
        {
            let mut r: usize = 0;
            while r < self.rows
                invariant
                    self.wf(),
                    c < self.cols,
                    r <= self.rows,
                    result@.len() == c * self.rows + r,
                    forall|i: int, j: int|
                        0 <= i < c && 0 <= j < self.rows ==> #[trigger] result@[i * self.rows + j]
                            == self.at(j, i),
                    forall|j: int|
                        0 <= j < r ==> #[trigger] result@[c * self.rows + j] == self.at(j, c as int),
                decreases self.rows - r,
            {
                proof {
                    lemma_index_in_range(r as int, c as int, self.rows as int, self.cols as int);
                    assert(self.data.len() == self.data@.len());
                }
                let ghost prev = result@;
                result.push(self.data[r * self.cols + c]);
                proof {
                    assert forall|i: int, j: int|
                        0 <= i < c && 0 <= j < self.rows implies #[trigger] result@[i * self.rows
                            + j] == self.at(j, i) by {
                        lemma_index_in_range(i, j, c as int, self.rows as int);
                        assert(result@[i * self.rows + j] == prev[i * self.rows + j]);
                    }
                }
                r += 1;
            }
            proof {
                assert((c + 1) * self.rows == c * self.rows + self.rows) by (nonlinear_arith);
                assert forall|i: int, j: int|
                    0 <= i < c + 1 && 0 <= j < self.rows implies #[trigger] result@[i * self.rows + j]
                        == self.at(j, i) by {
                    if i < c {
                    } else {
                        assert(i == c);
                    }
                }
            }
            c += 1;
        }
        proof {
            assert(self.cols * self.rows == self.rows * self.cols) by (nonlinear_arith);
        }
        Matrix { data: result, rows: self.cols, cols: self.rows }
    }
    /// Tells whether the data holds exactly one entry per row and column.
    pub fn is_well_formed(&self) -> (r: bool)
        ensures
            r == self.wf(),
    {
        proof {
            assert(self.data.len() == self.data@.len());
        }
        match self.rows.checked_mul(self.cols) {
            Some(n) => n == self.data.len(),
            None => false,
        }
    }

    /// Returns a matrix with the same shape and entries.
    pub fn duplicate(&self) -> (r: Matrix<T>)
        ensures
            r.rows == self.rows,
            r.cols == self.cols,
            r.data@ == self.data@,
    {
        let mut data: Vec<T> = Vec::new();
        let mut k: usize = 0;
        while k < self.data.len()
            invariant
                k <= self.data@.len(),
                data@ == self.data@.take(k as int),
            decreases self.data@.len() - k,
        {
            data.push(self.data[k]);
            k += 1;
            proof {
                assert(data@ =~= self.data@.take(k as int));
            }
        }
        proof {
            assert(data@ =~= self.data@);
        }
        Matrix { data, rows: self.rows, cols: self.cols }
    }

    /// Builds a single-row matrix from `v`.
    pub fn from_vec(v: Vec<T>) -> (r: Matrix<T>)
        ensures
            r.wf(),
            r.rows == 1,
            r.cols == v@.len(),
            r.data@ == v@,
    {
        let cols = v.len();
        Matrix { data: v, rows: 1, cols }
    }

    /// Builds a matrix from fixed-length rows.
    pub fn from_arrays<const N: usize>(rows: Vec<[T; N]>) -> (r: Result<Matrix<T>, MatrixError>)
        ensures
            rows@.len() == 0 ==> r == Err::<Matrix<T>, MatrixError>(MatrixError::EmptyInput),
            rows@.len() > 0 ==> r is Ok,
            r matches Ok(m) ==> {
                &&& m.wf()
                &&& m.rows == rows@.len()
                &&& m.cols == N
                &&& forall|i: int, j: int|
                    0 <= i < m.rows && 0 <= j < m.cols ==> #[trigger] m.at(i, j) == rows@[i]@[j]
            },
    {
        let mut nested: Vec<Vec<T>> = Vec::new();
        let mut i: usize = 0;
        while i < rows.len()
            invariant
                i <= rows@.len(),
                nested@.len() == i,
                forall|k: int| 0 <= k < i ==> (#[trigger] nested@[k])@ == rows@[k]@,
            decreases rows@.len() - i,
        {
            let mut row: Vec<T> = Vec::new();
            let mut j: usize = 0;
            while j < N
                invariant
                    i < rows@.len(),
                    j <= N,
                    row@ == rows@[i as int]@.take(j as int),
                decreases N - j,
            {
                row.push(rows[i][j]);
                j += 1;
                proof {
                    assert(row@ =~= rows@[i as int]@.take(j as int));
                }
            }
            proof {
                assert(row@ =~= rows@[i as int]@);
            }
            nested.push(row);
            i += 1;
        }
        Matrix::from_rows(nested)
    }

    /// Builds a matrix from its rows, all of the length of the first one.
    pub fn from_rows(rows: Vec<Vec<T>>) -> (r: Result<Matrix<T>, MatrixError>)
        ensures
            rows@.len() == 0 ==> r == Err::<Matrix<T>, MatrixError>(MatrixError::EmptyInput),
            rows@.len() > 0 && (exists|i: int| 0 <= i < rows@.len() && #[trigger] rows@[i]@.len() != rows@[0]@.len())
                ==> r == Err::<Matrix<T>, MatrixError>(MatrixError::MalformedMatrix),
            rows@.len() > 0 && (forall|i: int| 0 <= i < rows@.len() ==> #[trigger] rows@[i]@.len() == rows@[0]@.len())
                ==> r is Ok,
            r matches Ok(m) ==> {
                &&& m.wf()
                &&& m.rows == rows@.len()
                &&& m.cols == rows@[0]@.len()
                &&& forall|i: int, j: int|
                    0 <= i < m.rows && 0 <= j < m.cols ==> #[trigger] m.at(i, j) == rows@[i]@[j]
            },
    {
        if rows.len() == 0 {
            return Err(MatrixError::EmptyInput);
        }
        let cols = rows[0].len();
        let mut data: Vec<T> = Vec::new();
        let mut i: usize = 0;
        while i < rows.len()
            invariant
                0 < rows@.len(),
                cols == rows@[0]@.len(),
                i <= rows@.len(),
                forall|a: int| 0 <= a < i ==> #[trigger] rows@[a]@.len() == cols,
                data@.len() == i * cols,
                forall|a: int, b: int|
                    0 <= a < i && 0 <= b < cols ==> #[trigger] data@[a * cols + b] == rows@[a]@[b],
            decreases rows@.len() - i,
        {
            if rows[i].len() != cols {
                return Err(MatrixError::MalformedMatrix);
            }
            let mut j: usize = 0;
            while j < cols
                invariant
                    i < rows@.len(),
                    rows@[i as int]@.len() == cols,
                    j <= cols,
                    data@.len() == i * cols + j,
                    forall|a: int, b: int|
                        0 <= a < i && 0 <= b < cols ==> #[trigger] data@[a * cols + b]
                            == rows@[a]@[b],
                    forall|b: int| 0 <= b < j ==> #[trigger] data@[i * cols + b] == rows@[i as int]@[b],
                decreases cols - j,
            {
                let ghost prev = data@;
                data.push(rows[i][j]);
                proof {
                    assert forall|a: int, b: int|
                        0 <= a < i && 0 <= b < cols implies #[trigger] data@[a * cols + b]
                            == rows@[a]@[b] by {
                        lemma_index_in_range(a, b, i as int, cols as int);
                        assert(data@[a * cols + b] == prev[a * cols + b]);
                    }
                }
                j += 1;
            }
            proof {
                assert((i + 1) * cols == i * cols + cols) by (nonlinear_arith);
                assert forall|a: int, b: int|
                    0 <= a < i + 1 && 0 <= b < cols implies #[trigger] data@[a * cols + b]
                        == rows@[a]@[b] by {
                    if a == i {
                    }
                }
            }
            i += 1;
        }
        let n = rows.len();
        Ok(Matrix { data, rows: n, cols })
    }
    /// Returns the entries of row `index`, left to right.
    pub fn get_row(&self, index: usize) -> (r: Vec<T>)
        requires
            self.wf(),
            index < self.rows,
        ensures
            r@ == self.row(index as int),
    {
        let mut out: Vec<T> = Vec::new();
        let mut j: usize = 0;
        while j < self.cols
            invariant
                self.wf(),
                index < self.rows,
                j <= self.cols,
                out@ == self.row(index as int).take(j as int),
            decreases self.cols - j,
        {
            proof {
                lemma_index_in_range(index as int, j as int, self.rows as int, self.cols as int);
                assert(self.data.len() == self.data@.len());
            }
            out.push(self.data[index * self.cols + j]);
            j += 1;
            proof {
                assert(out@ =~= self.row(index as int).take(j as int));
            }
        }
        proof {
            assert(out@ =~= self.row(index as int));
        }
        out
    }

    /// Returns the entries of column `index`, top to bottom.
    pub fn get_col(&self, index: usize) -> (r: Vec<T>)
        requires
            self.wf(),
            index < self.cols,
        ensures
            r@ == self.col(index as int),
    {
        let mut out: Vec<T> = Vec::new();
        let mut i: usize = 0;
        while i < self.rows
            invariant
                self.wf(),
                index < self.cols,
                i <= self.rows,
                out@ == self.col(index as int).take(i as int),
            decreases self.rows - i,
        {
            proof {
                lemma_index_in_range(i as int, index as int, self.rows as int, self.cols as int);
                assert(self.data.len() == self.data@.len());
            }
            out.push(self.data[i * self.cols + index]);
            i += 1;
            proof {
                assert(out@ =~= self.col(index as int).take(i as int));
            }
        }
        proof {
            assert(out@ =~= self.col(index as int));
        }
        out
    }

    /// Appends a column holding `x` in every row.
    pub fn add_col(&mut self, x: T)
        requires
            old(self).wf(),
            old(self).cols < usize::MAX,
            old(self).rows * (old(self).cols + 1) <= usize::MAX,
        ensures
            final(self).wf(),
            final(self).rows == old(self).rows,
            final(self).cols == old(self).cols + 1,
            forall|i: int, j: int|
                0 <= i < old(self).rows && 0 <= j < old(self).cols ==> #[trigger] final(self).at(i, j)
                    == old(self).at(i, j),
            forall|i: int| 0 <= i < old(self).rows ==> #[trigger] final(self).at(i, old(self).cols as int) == x,
    {
        let cols = self.cols;
        let w = cols + 1;
        let mut data: Vec<T> = Vec::new();
        let mut i: usize = 0;
        while i < self.rows
            invariant
                self.wf(),
                cols == self.cols,
                w == cols + 1,
                self.rows * w <= usize::MAX,
                i <= self.rows,
                data@.len() == i * w,
                forall|a: int, b: int|
                    0 <= a < i && 0 <= b < w ==> #[trigger] data@[a * w + b] == (if b < cols {
                        self.at(a, b)
                    } else {
                        x
                    }),
            decreases self.rows - i,
        {
            let mut j: usize = 0;
            while j < w
                invariant
                    self.wf(),
                    cols == self.cols,
                    w == cols + 1,
                    i < self.rows,
                    j <= w,
                    data@.len() == i * w + j,
                    forall|a: int, b: int|
                        0 <= a < i && 0 <= b < w ==> #[trigger] data@[a * w + b] == (if b < cols {
                            self.at(a, b)
                        } else {
                            x
                        }),
                    forall|b: int|
                        0 <= b < j ==> #[trigger] data@[i * w + b] == (if b < cols {
                            self.at(i as int, b)
                        } else {
                            x
                        }),
                decreases w - j,
            {
                let ghost prev = data@;
                if j < cols {
                    proof {
                        lemma_index_in_range(i as int, j as int, self.rows as int, cols as int);
                        assert(self.data.len() == self.data@.len());
                    }
                    data.push(self.data[i * cols + j]);
                } else {
                    data.push(x);
                }
                proof {
                    assert forall|a: int, b: int|
                        0 <= a < i && 0 <= b < w implies #[trigger] data@[a * w + b] == (if b
                            < cols {
                            self.at(a, b)
                        } else {
                            x
                        }) by {
                        lemma_index_in_range(a, b, i as int, w as int);
                        assert(data@[a * w + b] == prev[a * w + b]);
                    }
                }
                j += 1;
            }
            proof {
                assert((i + 1) * w == i * w + w) by (nonlinear_arith);
                assert forall|a: int, b: int|
                    0 <= a < i + 1 && 0 <= b < w implies #[trigger] data@[a * w + b] == (if b
                        < cols {
                        self.at(a, b)
                    } else {
                        x
                    }) by {
                    if a == i {
                    }
                }
            }
            i += 1;
        }
        self.data = data;
        self.cols = w;
    }

    /// Returns the matrix of the same shape whose entries are `func` of this one's.
    pub fn apply<F: Fn(T) -> T>(&self, func: F) -> (r: Matrix<T>)
        requires
            forall|k: int| 0 <= k < self.data@.len() ==> call_requires(func, (#[trigger] self.data@[k],)),
        ensures
            r.rows == self.rows,
            r.cols == self.cols,
            r.data@.len() == self.data@.len(),
            forall|k: int|
                0 <= k < self.data@.len() ==> call_ensures(func, (self.data@[k],), #[trigger] r.data@[k]),
    {
        let mut data: Vec<T> = Vec::new();
        let mut k: usize = 0;
        while k < self.data.len()
            invariant
                forall|k: int| 0 <= k < self.data@.len() ==> call_requires(func, (#[trigger] self.data@[k],)),
                k <= self.data@.len(),
                data@.len() == k,
                forall|m: int| 0 <= m < k ==> call_ensures(func, (self.data@[m],), #[trigger] data@[m]),
            decreases self.data@.len() - k,
        {
            let v = func(self.data[k]);
            data.push(v);
            k += 1;
        }
        Matrix { data, rows: self.rows, cols: self.cols }
    }

    /// Combines two matrices of one shape position by position with `func`.
    pub fn zip_with<F: Fn(T, T) -> T>(&self, other: &Matrix<T>, func: F) -> (r: Result<
        Matrix<T>,
        MatrixError,
    >)
        requires
            forall|a: T, b: T| call_requires(func, (a, b)),
        ensures
            !self.wf() || !other.wf() ==> r == Err::<Matrix<T>, MatrixError>(MatrixError::MalformedMatrix),
            self.wf() && other.wf() && (self.rows != other.rows || self.cols != other.cols)
                ==> r == Err::<Matrix<T>, MatrixError>(MatrixError::ShapeMismatch),
            self.wf() && other.wf() && self.rows == other.rows && self.cols == other.cols ==> r is Ok,
            r matches Ok(m) ==> {
                &&& m.wf()
                &&& m.rows == self.rows
                &&& m.cols == self.cols
                &&& forall|k: int|
                    0 <= k < m.data@.len() ==> call_ensures(
                        func,
                        (self.data@[k], other.data@[k]),
                        #[trigger] m.data@[k],
                    )
            },
    {
        if !self.is_well_formed() || !other.is_well_formed() {
            return Err(MatrixError::MalformedMatrix);
        }
        if self.rows != other.rows || self.cols != other.cols {
            return Err(MatrixError::ShapeMismatch);
        }
        let mut data: Vec<T> = Vec::new();
        let mut k: usize = 0;
        while k < self.data.len()
            invariant
                forall|a: T, b: T| call_requires(func, (a, b)),
                self.data@.len() == other.data@.len(),
                k <= self.data@.len(),
                data@.len() == k,
                forall|m: int|
                    0 <= m < k ==> call_ensures(
                        func,
                        (self.data@[m], other.data@[m]),
                        #[trigger] data@[m],
                    ),
            decreases self.data@.len() - k,
        {
            let v = func(self.data[k], other.data[k]);
            data.push(v);
            k += 1;
        }
        Ok(Matrix { data, rows: self.rows, cols: self.cols })
    }

    /// Adds `other` into this matrix position by position, using `plus`.
    /// On an error the matrix is left as it was.
    pub fn add_assign<F: Fn(T, T) -> T>(&mut self, other: &Matrix<T>, plus: F) -> (r: Result<
        (),
        MatrixError,
    >)
        requires
            forall|a: T, b: T| call_requires(plus, (a, b)),
        ensures
            !old(self).wf() || !other.wf() ==> r == Err::<(), MatrixError>(MatrixError::MalformedMatrix),
            old(self).wf() && other.wf() && (old(self).rows != other.rows || old(self).cols != other.cols)
                ==> r == Err::<(), MatrixError>(MatrixError::ShapeMismatch),
            old(self).wf() && other.wf() && old(self).rows == other.rows && old(self).cols == other.cols
                ==> r is Ok,
            r is Err ==> *final(self) == *old(self),
            r is Ok ==> {
                &&& final(self).wf()
                &&& final(self).rows == old(self).rows
                &&& final(self).cols == old(self).cols
                &&& forall|k: int|
                    0 <= k < final(self).data@.len() ==> call_ensures(
                        plus,
                        (old(self).data@[k], other.data@[k]),
                        #[trigger] final(self).data@[k],
                    )
            },
    {
        match self.zip_with(other, plus) {
            Ok(m) => {
                *self = m;
                Ok(())
            },
            Err(e) => Err(e),
        }
    }

    /// Builds a `rows` by `cols` matrix whose entry `(i, j)` is drawn by `sample(i, j)`.
    pub fn from_dim<F: Fn(usize, usize) -> T>(rows: usize, cols: usize, sample: F) -> (r: Matrix<T>)
        requires
            rows * cols <= usize::MAX,
            forall|i: usize, j: usize| call_requires(sample, (i, j)),
        ensures
            r.wf(),
            r.rows == rows,
            r.cols == cols,
            forall|i: int, j: int|
                0 <= i < rows && 0 <= j < cols ==> call_ensures(sample, (i as usize, j as usize), #[trigger] r.at(i, j)),
    {
        let mut data: Vec<T> = Vec::new();
        let mut i: usize = 0;
        while i < rows
            invariant
                rows * cols <= usize::MAX,
                forall|i: usize, j: usize| call_requires(sample, (i, j)),
                i <= rows,
                data@.len() == i * cols,
                forall|a: int, b: int|
                    0 <= a < i && 0 <= b < cols ==> call_ensures(sample, (a as usize, b as usize), #[trigger] data@[a * cols + b]),
            decreases rows - i,
        {
            let mut j: usize = 0;
            while j < cols
                invariant
                    forall|i: usize, j: usize| call_requires(sample, (i, j)),
                    i < rows,
                    j <= cols,
                    data@.len() == i * cols + j,
                    forall|a: int, b: int|
                        0 <= a < i && 0 <= b < cols ==> call_ensures(sample, (a as usize, b as usize), #[trigger] data@[a * cols + b]),
                    forall|b: int|
                        0 <= b < j ==> call_ensures(sample, (i, b as usize), #[trigger] data@[i * cols + b]),
                decreases cols - j,
            {
                let ghost prev = data@;
                let v = sample(i, j);
                data.push(v);
                proof {
                    assert forall|a: int, b: int|
                        0 <= a < i && 0 <= b < cols implies call_ensures(sample, (a as usize, b as usize), #[trigger] data@[a * cols + b]) by {
                        lemma_index_in_range(a, b, i as int, cols as int);
                        assert(data@[a * cols + b] == prev[a * cols + b]);
                    }
                }
                j += 1;
            }
            proof {
                assert((i + 1) * cols == i * cols + cols) by (nonlinear_arith);
                assert forall|a: int, b: int|
                    0 <= a < i + 1 && 0 <= b < cols implies call_ensures(sample, (a as usize, b as usize), #[trigger] data@[a * cols + b]) by {
                    if a == i {
                    }
                }
            }
            i += 1;
        }
        Matrix { data, rows, cols }
    }
    /// Returns the matrix product: entry `(i, j)` folds `mul_add` over row `i`
    /// of `self` and column `j` of `other`, starting from `zero`.
    pub fn multiply<F: Fn(T, T, T) -> T>(&self, other: &Matrix<T>, zero: T, mul_add: F) -> (r:
        Result<Matrix<T>, MatrixError>)
        requires
            forall|acc: T, a: T, b: T| call_requires(mul_add, (acc, a, b)),
        ensures
            self.cols != other.rows ==> r == Err::<Matrix<T>, MatrixError>(MatrixError::DimensionMismatch),
            self.cols == other.rows && (!self.wf() || !other.wf())
                ==> r == Err::<Matrix<T>, MatrixError>(MatrixError::MalformedMatrix),
            self.cols == other.rows && self.wf() && other.wf() ==> r is Ok,
            r matches Ok(m) ==> {
                &&& m.wf()
                &&& m.rows == self.rows
                &&& m.cols == other.cols
                &&& forall|i: int, j: int|
                    0 <= i < m.rows && 0 <= j < m.cols ==> accumulates(
                        mul_add,
                        zero,
                        self.row(i),
                        other.col(j),
                        #[trigger] m.at(i, j),
                    )
            },
    {
        if self.cols != other.rows {
            return Err(MatrixError::DimensionMismatch);
        }
        if !self.is_well_formed() || !other.is_well_formed() {
            return Err(MatrixError::MalformedMatrix);
        }
        let w = other.cols;
        let mut data: Vec<T> = Vec::new();
        let mut i: usize = 0;
        while i < self.rows
            invariant
                forall|acc: T, a: T, b: T| call_requires(mul_add, (acc, a, b)),
                self.wf(),
                other.wf(),
                self.cols == other.rows,
                w == other.cols,
                i <= self.rows,
                data@.len() == i * w,
                forall|a: int, b: int|
                    0 <= a < i && 0 <= b < w ==> accumulates(
                        mul_add,
                        zero,
                        self.row(a),
                        other.col(b),
                        #[trigger] data@[a * w + b],
                    ),
            decreases self.rows - i,
        {
            let row = self.get_row(i);
            let mut j: usize = 0;
            while j < w
                invariant
                    forall|acc: T, a: T, b: T| call_requires(mul_add, (acc, a, b)),
                    self.wf(),
                    other.wf(),
                    self.cols == other.rows,
                    w == other.cols,
                    i < self.rows,
                    j <= w,
                    row@ == self.row(i as int),
                    data@.len() == i * w + j,
                    forall|a: int, b: int|
                        0 <= a < i && 0 <= b < w ==> accumulates(
                            mul_add,
                            zero,
                            self.row(a),
                            other.col(b),
                            #[trigger] data@[a * w + b],
                        ),
                    forall|b: int|
                        0 <= b < j ==> accumulates(
                            mul_add,
                            zero,
                            self.row(i as int),
                            other.col(b),
                            #[trigger] data@[i * w + b],
                        ),
                decreases w - j,
            {
                let col = other.get_col(j);
                let mut total = zero;
                let mut k: usize = 0;
                let ghost mut steps: Seq<T> = seq![zero];
                while k < row.len()
                    invariant
                        forall|acc: T, a: T, b: T| call_requires(mul_add, (acc, a, b)),
                        row@.len() == col@.len(),
                        k <= row@.len(),
                        steps.len() == k + 1,
                        steps[0] == zero,
                        steps[k as int] == total,
                        forall|m: int|
                            0 <= m < k ==> call_ensures(
                                mul_add,
                                (steps[m], row@[m], col@[m]),
                                #[trigger] steps[m + 1],
                            ),
                    decreases row@.len() - k,
                {
                    total = mul_add(total, row[k], col[k]);
                    proof {
                        steps = steps.push(total);
                    }
                    k += 1;
                }
                proof {
                    assert(accumulation_steps(mul_add, zero, row@, col@, steps));
                }
                let ghost prev = data@;
                data.push(total);
                proof {
                    assert forall|a: int, b: int|
                        0 <= a < i && 0 <= b < w implies accumulates(
                            mul_add,
                            zero,
                            self.row(a),
                            other.col(b),
                            #[trigger] data@[a * w + b],
                        ) by {
                        lemma_index_in_range(a, b, i as int, w as int);
                        assert(data@[a * w + b] == prev[a * w + b]);
                    }
                }
                j += 1;
            }
            proof {
                assert((i + 1) * w == i * w + w) by (nonlinear_arith);
                assert forall|a: int, b: int|
                    0 <= a < i + 1 && 0 <= b < w implies accumulates(
                        mul_add,
                        zero,
                        self.row(a),
                        other.col(b),
                        #[trigger] data@[a * w + b],
                    ) by {
                    if a == i {
                    }
                }
            }
            i += 1;
        }
        let m = Matrix { data, rows: self.rows, cols: w };
        proof {
            assert forall|a: int, b: int| 0 <= a < m.rows && 0 <= b < m.cols implies accumulates(
                mul_add,
                zero,
                self.row(a),
                other.col(b),
                #[trigger] m.at(a, b),
            ) by {
                assert(m.at(a, b) == data@[a * w + b]);
            }
        }
        Ok(m)
    }

    /// Returns the sum of all entries, folded with `plus` from `zero`, in storage order.
    pub fn sum<F: Fn(T, T) -> T>(&self, zero: T, plus: F) -> (r: T)
        requires
            forall|a: T, b: T| call_requires(plus, (a, b)),
        ensures
            folds(plus, zero, self.data@, r),
    {
        let mut total = zero;
        let mut k: usize = 0;
        let ghost mut steps: Seq<T> = seq![zero];
        while k < self.data.len()
            invariant
                forall|a: T, b: T| call_requires(plus, (a, b)),
                k <= self.data@.len(),
                steps.len() == k + 1,
                steps[0] == zero,
                steps[k as int] == total,
                forall|m: int|
                    0 <= m < k ==> call_ensures(plus, (steps[m], self.data@[m]), #[trigger] steps[m + 1]),
            decreases self.data@.len() - k,
        {
            total = plus(total, self.data[k]);
            proof {
                steps = steps.push(total);
            }
            k += 1;
        }
        proof {
            assert(fold_steps(plus, zero, self.data@, steps));
        }
        total
    }
}

/// Combining position by position with an operation that is commutative
/// gives the same matrix whichever operand comes first.
pub proof fn lemma_zip_with_commutes<T: Copy, F: Fn(T, T) -> T>(
    f: F,
    a: &Matrix<T>,
    b: &Matrix<T>,
    ab: &Matrix<T>,
    ba: &Matrix<T>,
)
    requires
        forall|x: T, y: T, r: T, s: T|
            call_ensures(f, (x, y), r) && call_ensures(f, (y, x), s) ==> r == s,
        ab.data@.len() == a.data@.len() == b.data@.len() == ba.data@.len(),
        forall|k: int|
            0 <= k < ab.data@.len() ==> call_ensures(f, (a.data@[k], b.data@[k]), #[trigger] ab.data@[k]),
        forall|k: int|
            0 <= k < ba.data@.len() ==> call_ensures(f, (b.data@[k], a.data@[k]), #[trigger] ba.data@[k]),
    ensures
        ab.data@ == ba.data@,
{
    assert forall|k: int| 0 <= k < ab.data@.len() implies ab.data@[k] == ba.data@[k] by {
        assert(call_ensures(f, (a.data@[k], b.data@[k]), ab.data@[k]));
        assert(call_ensures(f, (b.data@[k], a.data@[k]), ba.data@[k]));
    }
    assert(ab.data@ =~= ba.data@);
}

/// Transposing twice gives back the matrix one started from.
pub proof fn lemma_transpose_twice<T: Copy>(m: &Matrix<T>, t: &Matrix<T>, tt: &Matrix<T>)
    requires
        m.wf(),
        t.is_transpose_of(m),
        tt.is_transpose_of(t),
    ensures
        tt.rows == m.rows,
        tt.cols == m.cols,
        tt.data@ == m.data@,
{
    assert forall|k: int| 0 <= k < m.data@.len() implies tt.data@[k] == m.data@[k] by {
        let c = m.cols as int;
        let i = k / c;
        let j = k % c;
        assert(c > 0) by (nonlinear_arith)
            requires
                0 <= k < m.rows * c,
                m.rows >= 0,
        ;
        vstd::arithmetic::div_mod::lemma_fundamental_div_mod(k, c);
        assert(0 <= j < c) by {
            vstd::arithmetic::div_mod::lemma_mod_bound(k, c);
        }
        assert(0 <= i < m.rows) by (nonlinear_arith)
            requires
                k == c * i + j,
                0 <= j < c,
                0 <= k < m.rows * c,
        ;
        assert(k == i * c + j) by (nonlinear_arith)
            requires
                k == c * i + j,
        ;
        assert(tt.at(i, j) == t.at(j, i));
        assert(t.at(j, i) == m.at(i, j));
    }
    assert(tt.data@ =~= m.data@);
}

} // verus!
