//! Matrix arithmetic over a [`Scalar`].
use vstd::prelude::*;

use crate::matrix::Matrix;
use crate::scalar::Scalar;

verus! {

/// `a[i][0] * b[0][j] + ... + a[i][k-1] * b[k-1][j]`, summed left to right from zero.
pub open spec fn dot<T: Scalar>(a: Matrix<T>, b: Matrix<T>, i: int, j: int, k: int) -> T
    decreases k,
{
    if k <= 0 {
        T::spec_zero()
    } else {
        dot(a, b, i, j, k - 1).spec_plus(a.entry(i, k - 1).spec_times(b.entry(k - 1, j)))
    }
}

/// The sum of the squares of `row[0] .. row[k-1]` of row `i`, left to right from zero.
pub open spec fn row_sq_sum<T: Scalar>(m: Matrix<T>, i: int, k: int) -> T
    decreases k,
{
    if k <= 0 {
        T::spec_zero()
    } else {
        row_sq_sum(m, i, k - 1).spec_plus(m.entry(i, k - 1).spec_times(m.entry(i, k - 1)))
    }
}

/// The sum of the squares of the first `k` elements of column `j`, left to right from zero.
pub open spec fn col_sq_sum<T: Scalar>(m: Matrix<T>, j: int, k: int) -> T
    decreases k,
{
    if k <= 0 {
        T::spec_zero()
    } else {
        col_sq_sum(m, j, k - 1).spec_plus(m.entry(k - 1, j).spec_times(m.entry(k - 1, j)))
    }
}

/// The Euclidean norm of column `j`.
pub open spec fn col_norm_spec<T: Scalar>(m: Matrix<T>, j: int) -> T {
    col_sq_sum(m, j, m.rows as int).spec_sqrt()
}

/// The Euclidean norm of row `i`.
pub open spec fn row_norm_spec<T: Scalar>(m: Matrix<T>, i: int) -> T {
    row_sq_sum(m, i, m.cols as int).spec_sqrt()
}

impl<T: Scalar> Matrix<T> {
    /// The `n x n` identity.
    pub fn identity(n: usize) -> (m: Matrix<T>)
        requires
            n * n <= usize::MAX,
        ensures
            m.wf(),
            m.rows == n,
            m.cols == n,
            m.is_identity_with(T::spec_zero(), T::spec_one()),
    {
        let z = T::zero();
        let o = T::one();
        Matrix::diagonal_fill(n, z, o)
    }

    /// The matrix product `self * o`.
    pub fn mul(&self, o: &Matrix<T>) -> (p: Matrix<T>)
        requires
            self.wf(),
            o.wf(),
            self.cols == o.rows,
            self.rows * o.cols <= usize::MAX,
        ensures
            p.wf(),
            p.rows == self.rows,
            p.cols == o.cols,
            forall|i: int, j: int| 0 <= i < p.rows && 0 <= j < p.cols
                ==> p.entry(i, j) == dot(*self, *o, i, j, self.cols as int),
    {
        let mut p = Matrix::filled(self.rows, o.cols, T::zero());
        let mut i: usize = 0;
        while i < self.rows
            invariant
                self.wf(),
                o.wf(),
                self.cols == o.rows,
                i <= self.rows,
                p.wf(),
                p.rows == self.rows,
                p.cols == o.cols,
                forall|a: int, b: int| 0 <= a < i && 0 <= b < p.cols
                    ==> p.entry(a, b) == dot(*self, *o, a, b, self.cols as int),
            decreases self.rows - i,
        {
            let mut j: usize = 0;
            while j < o.cols
                invariant
                    i < self.rows,
                    self.wf(),
                    o.wf(),
                    self.cols == o.rows,
                    p.wf(),
                    p.rows == self.rows,
                    p.cols == o.cols,
                    j <= o.cols,
                    forall|a: int, b: int| 0 <= a < p.rows && 0 <= b < p.cols && (a < i || (a == i && b < j))
                        ==> p.entry(a, b) == dot(*self, *o, a, b, self.cols as int),
                decreases o.cols - j,
            {
                let mut s = T::zero();
                let mut k: usize = 0;
                while k < self.cols
                    invariant
                        i < self.rows,
                        j < o.cols,
                        self.wf(),
                        o.wf(),
                        self.cols == o.rows,
                        k <= self.cols,
                        s == dot(*self, *o, i as int, j as int, k as int),
                    decreases self.cols - k,
                {
                    s = s.plus(self.get(i, k).times(o.get(k, j)));
                    k = k + 1;
                }
                p.set(i, j, s);
                j = j + 1;
            }
            i = i + 1;
        }
        p
    }

    /// Element-wise `self - factor * o`.
    pub fn minus_scaled(&self, o: &Matrix<T>, factor: T) -> (d: Matrix<T>)
        requires
            self.wf(),
            o.wf(),
            self.rows == o.rows,
            self.cols == o.cols,
        ensures
            d.wf(),
            d.rows == self.rows,
            d.cols == self.cols,
            forall|k: int| 0 <= k < d.data@.len()
                ==> d.data@[k] == self.data@[k].spec_minus(factor.spec_times(o.data@[k])),
    {
        let mut d = Matrix { rows: self.rows, cols: self.cols, data: Vec::new() };
        let mut k: usize = 0;
        while k < self.data.len()
            invariant
                self.wf(),
                o.wf(),
                self.rows == o.rows,
                self.cols == o.cols,
                d.rows == self.rows,
                d.cols == self.cols,
                k <= self.data@.len(),
                d.data@.len() == k,
                forall|t: int| 0 <= t < k
                    ==> d.data@[t] == self.data@[t].spec_minus(factor.spec_times(o.data@[t])),
            decreases self.data@.len() - k,
        {
            d.data.push(self.data[k].minus(factor.times(o.data[k])));
            k = k + 1;
        }
        d
    }

    /// Adds `s` to every diagonal element; every other element is kept.
    pub fn shift_diagonal(&mut self, s: T)
        requires
            old(self).wf(),
        ensures
            final(self).wf(),
            final(self).rows == old(self).rows,
            final(self).cols == old(self).cols,
            forall|a: int, b: int| 0 <= a < old(self).rows && 0 <= b < old(self).cols && a != b
                ==> final(self).entry(a, b) == old(self).entry(a, b),
            forall|a: int| 0 <= a < old(self).rows && a < old(self).cols
                ==> final(self).entry(a, a) == old(self).entry(a, a).spec_plus(s),
    {
        let ghost before = *self;
        let mut i: usize = 0;
        while i < self.rows && i < self.cols
            invariant
                self.wf(),
                self.rows == before.rows,
                self.cols == before.cols,
                forall|a: int, b: int| 0 <= a < before.rows && 0 <= b < before.cols && a != b
                    ==> self.entry(a, b) == before.entry(a, b),
                forall|a: int| 0 <= a < before.rows && a < before.cols
                    ==> self.entry(a, a) == (if a < i { before.entry(a, a).spec_plus(s) } else { before.entry(a, a) }),
            decreases self.rows - i,
        {
            let v = self.get(i, i).plus(s);
            self.set(i, i, v);
            i = i + 1;
        }
    }

    /// The Euclidean norm of row `i`.
    pub fn row_norm(&self, i: usize) -> (r: T)
        requires
            self.wf(),
            i < self.rows,
        ensures
            r == row_norm_spec(*self, i as int),
    {
        let mut s = T::zero();
        let mut j: usize = 0;
        while j < self.cols
            invariant
                self.wf(),
                i < self.rows,
                j <= self.cols,
                s == row_sq_sum(*self, i as int, j as int),
            decreases self.cols - j,
        {
            let v = self.get(i, j);
            s = s.plus(v.times(v));
            j = j + 1;
        }
        s.sqrt()
    }

    /// The Euclidean norm of column `j`.
    pub fn col_norm(&self, j: usize) -> (r: T)
        requires
            self.wf(),
            j < self.cols,
        ensures
            r == col_norm_spec(*self, j as int),
    {
        let mut s = T::zero();
        let mut i: usize = 0;
        while i < self.rows
            invariant
                self.wf(),
                j < self.cols,
                i <= self.rows,
                s == col_sq_sum(*self, j as int, i as int),
            decreases self.rows - i,
        {
            let v = self.get(i, j);
            s = s.plus(v.times(v));
            i = i + 1;
        }
        s.sqrt()
    }
}

} // verus!
