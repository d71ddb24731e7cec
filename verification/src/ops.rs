//! Elementwise vector arithmetic and matrix-vector multiplication over
//! integer vectors, with exact contracts.

use vstd::prelude::*;

verus! {

/// Failure of a vector or matrix operation.
#[derive(Debug, Clone, Copy, PartialEq, Eq, Structural)]
pub enum MathError {
    /// The operands' lengths or shapes do not agree.
    DimensionMismatch,
    /// The matrix or the vector has no elements at all.
    EmptyInput,
}

/// A container whose elements can be combined pairwise by an arbitrary
/// binary operation, yielding a fresh vector.
pub trait ElementwiseOp<T>: Sized {
    /// The elements of the container, in order.
    spec fn elems(&self) -> Seq<T>;

    /// Combine `self` and `rhs` pairwise with `op`, preserving order.
    /// Fails with `DimensionMismatch` exactly when the lengths differ.
    fn elementwise_op<F: Fn(T, T) -> T>(&self, rhs: &Self, op: F) -> (r: Result<
        Vec<T>,
        MathError,
    >)
        requires
            self.elems().len() == rhs.elems().len() ==> forall|i: int|
                0 <= i < self.elems().len() ==> call_requires(
                    op,
                    (self.elems()[i], rhs.elems()[i]),
                ),
        ensures
            match r {
                Ok(out) => {
                    &&& self.elems().len() == rhs.elems().len()
                    &&& out@.len() == self.elems().len()
                    &&& forall|i: int|
                        0 <= i < out@.len() ==> call_ensures(
                            op,
                            (self.elems()[i], rhs.elems()[i]),
                            out@[i],
                        )
                },
                Err(e) => {
                    &&& e == MathError::DimensionMismatch
                    &&& self.elems().len() != rhs.elems().len()
                },
            },
    ;
}

impl<T: Copy> ElementwiseOp<T> for Vec<T> {
    open spec fn elems(&self) -> Seq<T> {
        self@
    }

    fn elementwise_op<F: Fn(T, T) -> T>(&self, rhs: &Self, op: F) -> (r: Result<
        Vec<T>,
        MathError,
    >) {
        if self.len() != rhs.len() {
            return Err(MathError::DimensionMismatch);
        }
        let n = self.len();
        let mut out: Vec<T> = Vec::new();
        let mut j: usize = 0;
        while j < n
            invariant
                n == self@.len(),
                n == rhs@.len(),
                0 <= j <= n,
                out@.len() == j,
                forall|i: int|
                    0 <= i < self@.len() ==> call_requires(op, (self@[i], rhs@[i])),
                forall|i: int| 0 <= i < j ==> call_ensures(op, (self@[i], rhs@[i]), out@[i]),
            decreases n - j,
        {
            let v = op(self[j], rhs[j]);
            out.push(v);
            j = j + 1;
        }
        Ok(out)
    }
}

/// Vectors that support exact elementwise addition and subtraction.
pub trait VecElementwiseArithmetic<T>: Sized {
    /// The elements of the vector, in order.
    spec fn ew_elems(&self) -> Seq<T>;

    /// No elementwise sum overflows the machine range.
    spec fn add_fits(&self, rhs: &Self) -> bool;

    /// No elementwise difference overflows the machine range.
    spec fn sub_fits(&self, rhs: &Self) -> bool;

    /// The exact elementwise sum of the two vectors.
    spec fn add_result(&self, rhs: &Self) -> Seq<T>;

    /// The exact elementwise difference of the two vectors.
    spec fn sub_result(&self, rhs: &Self) -> Seq<T>;

    /// Add the vectors pairwise; `DimensionMismatch` exactly when the
    /// lengths differ.
    fn elementwise_add(&self, rhs: &Self) -> (r: Result<Vec<T>, MathError>)
        requires
            self.add_fits(rhs),
        ensures
            match r {
                Ok(out) => {
                    &&& self.ew_elems().len() == rhs.ew_elems().len()
                    &&& out@ == self.add_result(rhs)
                },
                Err(e) => {
                    &&& e == MathError::DimensionMismatch
                    &&& self.ew_elems().len() != rhs.ew_elems().len()
                },
            },
    ;

    /// Subtract the vectors pairwise; `DimensionMismatch` exactly when the
    /// lengths differ.
    fn elementwise_sub(&self, rhs: &Self) -> (r: Result<Vec<T>, MathError>)
        requires
            self.sub_fits(rhs),
        ensures
            match r {
                Ok(out) => {
                    &&& self.ew_elems().len() == rhs.ew_elems().len()
                    &&& out@ == self.sub_result(rhs)
                },
                Err(e) => {
                    &&& e == MathError::DimensionMismatch
                    &&& self.ew_elems().len() != rhs.ew_elems().len()
                },
            },
    ;
}

impl VecElementwiseArithmetic<i64> for Vec<i64> {
    open spec fn ew_elems(&self) -> Seq<i64> {
        self@
    }

    open spec fn add_fits(&self, rhs: &Self) -> bool {
        self@.len() == rhs@.len() ==> forall|i: int|
            0 <= i < self@.len() ==> i64::MIN <= #[trigger] (self@[i] + rhs@[i]) <= i64::MAX
    }

    open spec fn sub_fits(&self, rhs: &Self) -> bool {
        self@.len() == rhs@.len() ==> forall|i: int|
            0 <= i < self@.len() ==> i64::MIN <= #[trigger] (self@[i] - rhs@[i]) <= i64::MAX
    }

    open spec fn add_result(&self, rhs: &Self) -> Seq<i64> {
        Seq::new(self@.len(), |i: int| (self@[i] + rhs@[i]) as i64)
    }

    open spec fn sub_result(&self, rhs: &Self) -> Seq<i64> {
        Seq::new(self@.len(), |i: int| (self@[i] - rhs@[i]) as i64)
    }

    fn elementwise_add(&self, rhs: &Self) -> (r: Result<Vec<i64>, MathError>) {
        if self.len() != rhs.len() {
            return Err(MathError::DimensionMismatch);
        }
        let n = self.len();
        let mut out: Vec<i64> = Vec::new();
        let mut j: usize = 0;
        while j < n
            invariant
                n == self@.len(),
                n == rhs@.len(),
                self.add_fits(rhs),
                0 <= j <= n,
                out@.len() == j,
                forall|i: int| 0 <= i < j ==> out@[i] == self@[i] + rhs@[i],
            decreases n - j,
        {
            out.push(self[j] + rhs[j]);
            j = j + 1;
        }
        assert(out@ =~= self.add_result(rhs));
        Ok(out)
    }

    fn elementwise_sub(&self, rhs: &Self) -> (r: Result<Vec<i64>, MathError>) {
        if self.len() != rhs.len() {
            return Err(MathError::DimensionMismatch);
        }
        let n = self.len();
        let mut out: Vec<i64> = Vec::new();
        let mut j: usize = 0;
        while j < n
            invariant
                n == self@.len(),
                n == rhs@.len(),
                self.sub_fits(rhs),
                0 <= j <= n,
                out@.len() == j,
                forall|i: int| 0 <= i < j ==> out@[i] == self@[i] - rhs@[i],
            decreases n - j,
        {
            out.push(self[j] - rhs[j]);
            j = j + 1;
        }
        assert(out@ =~= self.sub_result(rhs));
        Ok(out)
    }
}

/// Sum of the first `k` products of corresponding entries of `row` and `v`.
pub open spec fn dot_prefix(row: Seq<i64>, v: Seq<i64>, k: int) -> int
    decreases k,
{
    if k <= 0 {
        0
    } else {
        dot_prefix(row, v, k - 1) + row[k - 1] * v[k - 1]
    }
}

/// The full dot product of `row` and `v` (over the length of `v`).
pub open spec fn dot(row: Seq<i64>, v: Seq<i64>) -> int {
    dot_prefix(row, v, v.len() as int)
}

/// Every row of `a` has the same length as the first.
pub open spec fn rectangular(a: Seq<Seq<i64>>) -> bool {
    forall|i: int| 0 <= i < a.len() ==> (#[trigger] a[i]).len() == a[0].len()
}

/// Every product and every partial sum formed by the multiplication of
/// `a` and `v` stays within the machine range.
pub open spec fn matmul_fits(a: Seq<Seq<i64>>, v: Seq<i64>) -> bool {
    &&& forall|i: int, k: int|
        0 <= i < a.len() && 0 <= k < v.len() && k < a[i].len() ==> i64::MIN <= #[trigger] (
        a[i][k] * v[k]) <= i64::MAX
    &&& forall|i: int, k: int|
        0 <= i < a.len() && 0 <= k <= v.len() ==> i64::MIN <= #[trigger] dot_prefix(a[i], v, k)
            <= i64::MAX
}

/// The sequence of rows of a matrix, each row as a sequence.
pub open spec fn mat_view(a: Seq<Vec<i64>>) -> Seq<Seq<i64>> {
    a.map_values(|row: Vec<i64>| row@)
}

/// A matrix that can be multiplied with `Rhs`.
pub trait MatMul<Rhs> {
    type Output;

    /// The inputs on which the multiplication is free of machine overflow.
    spec fn mm_fits(&self, rhs: &Rhs) -> bool;

    /// The error that the multiplication reports, `None` when the shapes agree.
    spec fn mm_err(&self, rhs: &Rhs) -> Option<MathError>;

    /// The result of a successful multiplication.
    spec fn mm_ok(&self, rhs: &Rhs, out: &Self::Output) -> bool;

    /// Multiply `self` by `rhs`; succeeds exactly when `mm_err` is `None`.
    fn matmul(&self, rhs: &Rhs) -> (r: Result<Self::Output, MathError>)
        requires
            self.mm_fits(rhs),
        ensures
            match r {
                Ok(out) => self.mm_err(rhs) is None && self.mm_ok(rhs, &out),
                Err(e) => self.mm_err(rhs) == Some(e),
            },
    ;
}

impl MatMul<Vec<i64>> for Vec<Vec<i64>> {
    type Output = Vec<i64>;

    /// Rows all have one length and, when the shapes agree so that the
    /// product is computed at all, no product or partial sum overflows.
    open spec fn mm_fits(&self, rhs: &Vec<i64>) -> bool {
        &&& rectangular(mat_view(self@))
        &&& (self@.len() > 0 && rhs@.len() > 0 && self@[0]@.len() == rhs@.len())
            ==> matmul_fits(mat_view(self@), rhs@)
    }

    open spec fn mm_err(&self, rhs: &Vec<i64>) -> Option<MathError> {
        if self@.len() == 0 || rhs@.len() == 0 {
            Some(MathError::EmptyInput)
        } else if self@[0]@.len() != rhs@.len() {
            Some(MathError::DimensionMismatch)
        } else {
            None
        }
    }

    /// `out` has one entry per row: the exact dot product of that row with `rhs`.
    open spec fn mm_ok(&self, rhs: &Vec<i64>, out: &Vec<i64>) -> bool {
        &&& out@.len() == self@.len()
        &&& forall|i: int| 0 <= i < out@.len() ==> out@[i] == dot(self@[i]@, rhs@)
    }

    fn matmul(&self, rhs: &Vec<i64>) -> (r: Result<Vec<i64>, MathError>) {
        if self.len() == 0 || rhs.len() == 0 {
            return Err(MathError::EmptyInput);
        }
        if self[0].len() != rhs.len() {
            return Err(MathError::DimensionMismatch);
        }
        let rows = self.len();
        let cols = rhs.len();
        let mut result: Vec<i64> = Vec::new();
        let mut i: usize = 0;
        while i < rows
            invariant
                rows == self@.len(),
                cols == rhs@.len(),
                rectangular(mat_view(self@)),
                matmul_fits(mat_view(self@), rhs@),
                self@[0]@.len() == rhs@.len(),
                0 <= i <= rows,
                result@.len() == i,
                forall|p: int| 0 <= p < i ==> result@[p] == dot(self@[p]@, rhs@),
            decreases rows - i,
        {
            let mut acc: i64 = 0;
            let mut j: usize = 0;
            assert(mat_view(self@)[i as int] == self@[i as int]@);
            while j < cols
                invariant
                    rows == self@.len(),
                    cols == rhs@.len(),
                    rectangular(mat_view(self@)),
                    matmul_fits(mat_view(self@), rhs@),
                    self@[0]@.len() == rhs@.len(),
                    0 <= i < rows,
                    0 <= j <= cols,
                    self@[i as int]@.len() == cols,
                    mat_view(self@)[i as int] == self@[i as int]@,
                    acc == dot_prefix(self@[i as int]@, rhs@, j as int),
                decreases cols - j,
            {
                assert(i64::MIN <= self@[i as int]@[j as int] * rhs@[j as int] <= i64::MAX);
                assert(i64::MIN <= dot_prefix(self@[i as int]@, rhs@, j + 1) <= i64::MAX);
                acc = acc + self[i][j] * rhs[j];
                j = j + 1;
            }
            result.push(acc);
            i = i + 1;
        }
        Ok(result)
    }
}

} // verus!
