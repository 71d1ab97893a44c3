//! Balancing, Hessenberg reduction and the eigenvalue iterations.
use vstd::prelude::*;

use crate::error::DecompError;
use crate::matrix::{index_range, Matrix};
use crate::ops::{col_norm_spec, col_sq_sum, row_norm_spec, row_sq_sum};
use crate::scalar::Scalar;

verus! {

/// Sweeps over all rows and columns that balancing makes at most.
pub const MAX_BALANCE_SWEEPS: usize = 1000;

/// Doublings or halvings of one scale factor that balancing tries at most;
/// enough to cross the exponent range of a double.
pub const MAX_SCALE_STEPS: usize = 2200;

/// Shifted QR steps spent at most on one eigenvalue.
pub const MAX_QR_ITERS: usize = 100;

/// Francis double-shift sweeps made at most by `eigendecomp`.
pub const MAX_FRANCIS_SWEEPS: usize = 1000;

/// The balancing radix, `1 + 1`.
pub open spec fn balance_radix<T: Scalar>() -> T {
    T::spec_one().spec_plus(T::spec_one())
}

/// The acceptance ratio of a rescaling, `19 / 20`.
pub open spec fn balance_threshold<T: Scalar>() -> T {
    T::spec_from_u64(19).spec_divide(T::spec_from_u64(20))
}

/// Doubles `c` and halves `r` (tracking the factor `f`) while `c < r / 2`,
/// from step `steps` up to `MAX_SCALE_STEPS`.
pub open spec fn scale_up<T: Scalar>(c: T, r: T, f: T, steps: int) -> (T, T, T)
    decreases MAX_SCALE_STEPS - steps,
{
    if steps < MAX_SCALE_STEPS && c.spec_less_than(r.spec_divide(balance_radix())) {
        scale_up(c.spec_times(balance_radix()), r.spec_divide(balance_radix()), f.spec_times(balance_radix()), steps + 1)
    } else {
        (c, r, f)
    }
}

/// Halves `c` and doubles `r` (tracking the factor `f`) while not `c < r * 2`,
/// from step `steps` up to `MAX_SCALE_STEPS`.
pub open spec fn scale_down<T: Scalar>(c: T, r: T, f: T, steps: int) -> (T, T, T)
    decreases MAX_SCALE_STEPS - steps,
{
    if steps < MAX_SCALE_STEPS && !c.spec_less_than(r.spec_times(balance_radix())) {
        scale_down(c.spec_divide(balance_radix()), r.spec_times(balance_radix()), f.spec_divide(balance_radix()), steps + 1)
    } else {
        (c, r, f)
    }
}

/// Whether balancing rescales index `i` of `m`: the norms `c` of column `i`
/// and `r` of row `i` are non-zero and, once brought within a factor 2 of each
/// other, `c^2 + r^2` falls below 95% of its value.
pub open spec fn rescales_at<T: Scalar>(m: Matrix<T>, i: int) -> bool {
    let c = col_norm_spec(m, i);
    let r = row_norm_spec(m, i);
    let up = scale_up(c, r, T::spec_one(), 0);
    let down = scale_down(up.0, up.1, up.2, 0);
    &&& !c.spec_equals(T::spec_zero())
    &&& !r.spec_equals(T::spec_zero())
    &&& down.0.spec_times(down.0).spec_plus(down.1.spec_times(down.1)).spec_less_than(
        balance_threshold::<T>().spec_times(c.spec_times(c).spec_plus(r.spec_times(r))),
    )
}

/// No index of `m` is rescaled by balancing.
pub open spec fn is_balanced<T: Scalar>(m: Matrix<T>) -> bool {
    forall|i: int| 0 <= i < m.rows ==> !#[trigger] rescales_at(m, i)
}

/// The norms of a matrix depend on its elements and shape only.
pub proof fn lemma_norms_follow_elements<T: Scalar>(a: Matrix<T>, b: Matrix<T>, i: int)
    requires
        a.data@ == b.data@,
        a.rows == b.rows,
        a.cols == b.cols,
    ensures
        col_norm_spec(a, i) == col_norm_spec(b, i),
        row_norm_spec(a, i) == row_norm_spec(b, i),
{
    lemma_col_sq_sum_follows(a, b, i, a.rows as int);
    lemma_row_sq_sum_follows(a, b, i, a.cols as int);
}

/// Whether a matrix is balanced depends on its elements and shape only.
pub proof fn lemma_balanced_follows_elements<T: Scalar>(a: Matrix<T>, b: Matrix<T>)
    requires
        a.data@ == b.data@,
        a.rows == b.rows,
        a.cols == b.cols,
    ensures
        is_balanced(a) == is_balanced(b),
{
    assert forall|i: int| 0 <= i < a.rows implies rescales_at(a, i) == rescales_at(b, i) by {
        lemma_norms_follow_elements(a, b, i);
    }
    if is_balanced(a) {
        assert forall|i: int| 0 <= i < b.rows implies !#[trigger] rescales_at(b, i) by {
            assert(!rescales_at(a, i));
        }
    }
    if is_balanced(b) {
        assert forall|i: int| 0 <= i < a.rows implies !#[trigger] rescales_at(a, i) by {
            assert(!rescales_at(b, i));
        }
    }
}

proof fn lemma_col_sq_sum_follows<T: Scalar>(a: Matrix<T>, b: Matrix<T>, j: int, k: int)
    requires
        a.data@ == b.data@,
        a.cols == b.cols,
    ensures
        col_sq_sum(a, j, k) == col_sq_sum(b, j, k),
    decreases k,
{
    if k > 0 {
        lemma_col_sq_sum_follows(a, b, j, k - 1);
    }
}

proof fn lemma_row_sq_sum_follows<T: Scalar>(a: Matrix<T>, b: Matrix<T>, i: int, k: int)
    requires
        a.data@ == b.data@,
        a.cols == b.cols,
    ensures
        row_sq_sum(a, i, k) == row_sq_sum(b, i, k),
    decreases k,
{
    if k > 0 {
        lemma_row_sq_sum_follows(a, b, i, k - 1);
    }
}

/// Products of sizes up to `n` fit below `n * n`.
pub proof fn lemma_block_fits(a: int, b: int, n: int)
    requires
        0 <= a <= n,
        0 <= b <= n,
    ensures
        a * b <= n * n,
{
    assert(a * b <= n * n) by (nonlinear_arith)
        requires
            0 <= a <= n,
            0 <= b <= n,
    ;
}

/// Eigenvalue estimates, each with the number of shifted QR steps spent on it
/// and whether its iteration met the deflation threshold (`true`) or stopped
/// at the iteration cap (`false`).
#[derive(Debug)]
pub struct Eigenvalues<T> {
    pub values: Vec<T>,
    pub iterations: Vec<usize>,
    pub converged: Vec<bool>,
}

impl<T: Scalar> Matrix<T> {
    /// One sweep of Osborne balancing with radix 2: for each `i`, a power of 2
    /// `f` that brings the norms `c` of column `i` and `r` of row `i` within a
    /// factor 2 of each other; column `i` is multiplied by `f` and row `i`
    /// divided by it only where that lowers `c^2 + r^2` below 95% of its value.
    /// A zero row or column is left alone. Returns whether a rescaling was
    /// applied; a sweep that applies none leaves the matrix as it was.
    pub fn balance_sweep(&mut self) -> (changed: bool)
        requires
            old(self).wf(),
            old(self).is_square(),
        ensures
            final(self).wf(),
            final(self).rows == old(self).rows,
            final(self).cols == old(self).cols,
            !changed ==> final(self).data@ == old(self).data@,
            !changed <==> is_balanced(*old(self)),
    {
        let ghost before = self.data@;
        let ghost start = *self;
        let n = self.rows;
        let z = T::zero();
        let o = T::one();
        let radix = o.plus(o);
        let threshold = T::from_u64(19).divide(T::from_u64(20));
        let mut changed = false;
        let mut i: usize = 0;
        while i < n
            invariant
                self.wf(),
                self.rows == n,
                self.cols == n,
                start.rows == n,
                start.cols == n,
                start.data@ == before,
                i <= n,
                z == T::spec_zero(),
                o == T::spec_one(),
                radix == balance_radix::<T>(),
                threshold == balance_threshold::<T>(),
                !changed ==> self.data@ == before,
                !changed ==> forall|k: int| 0 <= k < i ==> !#[trigger] rescales_at(start, k),
                changed ==> !is_balanced(start),
            decreases n - i,
        {
            let mut c = self.col_norm(i);
            let mut r = self.row_norm(i);
            proof {
                if !changed {
                    lemma_norms_follow_elements(*self, start, i as int);
                }
            }
            let ghost c0 = c;
            let ghost r0 = r;
            if !c.equals(z) && !r.equals(z) {
                let s = c.times(c).plus(r.times(r));
                let mut f = o;
                let mut steps: usize = 0;
                while c.less_than(r.divide(radix)) && steps < MAX_SCALE_STEPS
                    invariant
                        radix == balance_radix::<T>(),
                        steps <= MAX_SCALE_STEPS,
                        scale_up(c0, r0, T::spec_one(), 0) == scale_up(c, r, f, steps as int),
                    decreases MAX_SCALE_STEPS - steps,
                {
                    c = c.times(radix);
                    r = r.divide(radix);
                    f = f.times(radix);
                    steps = steps + 1;
                }
                let ghost up = scale_up(c0, r0, T::spec_one(), 0);
                assert(up == (c, r, f));
                let mut steps: usize = 0;
                while !c.less_than(r.times(radix)) && steps < MAX_SCALE_STEPS
                    invariant
                        radix == balance_radix::<T>(),
                        steps <= MAX_SCALE_STEPS,
                        scale_down(up.0, up.1, up.2, 0) == scale_down(c, r, f, steps as int),
                    decreases MAX_SCALE_STEPS - steps,
                {
                    c = c.divide(radix);
                    r = r.times(radix);
                    f = f.divide(radix);
                    steps = steps + 1;
                }
                assert(scale_down(up.0, up.1, up.2, 0) == (c, r, f));
                if c.times(c).plus(r.times(r)).less_than(threshold.times(s)) {
                    proof {
                        if !changed {
                            assert(rescales_at(start, i as int));
                        }
                    }
                    changed = true;
                    let mut j: usize = 0;
                    while j < n
                        invariant
                            i < n,
                            self.wf(),
                            self.rows == n,
                            self.cols == n,
                            start.rows == n,
                            start.cols == n,
                            start.data@ == before,
                            z == T::spec_zero(),
                            o == T::spec_one(),
                            radix == balance_radix::<T>(),
                            threshold == balance_threshold::<T>(),
                            changed,
                            !is_balanced(start),
                        decreases n - j,
                    {
                        let v = f.times(self.get(j, i));
                        self.set(j, i, v);
                        let w = self.get(i, j).divide(f);
                        self.set(i, j, w);
                        j = j + 1;
                    }
                }
            }
            i = i + 1;
        }
        changed
    }

    /// Osborne balancing: sweeps until one applies no rescaling, at most
    /// `MAX_BALANCE_SWEEPS` times. Returns whether such a sweep was reached;
    /// the result is then balanced, so balancing it again changes nothing.
    pub fn balance_matrix(&mut self) -> (converged: bool)
        requires
            old(self).wf(),
            old(self).is_square(),
        ensures
            final(self).wf(),
            final(self).rows == old(self).rows,
            final(self).cols == old(self).cols,
            converged ==> is_balanced(*final(self)),
            is_balanced(*old(self)) ==> converged && final(self).data@ == old(self).data@,
    {
        let ghost start = *self;
        let n = self.rows;
        let mut converged = false;
        let mut sweeps: usize = 0;
        while !converged && sweeps < MAX_BALANCE_SWEEPS
            invariant
                self.wf(),
                self.rows == n,
                self.cols == n,
                start.rows == n,
                start.cols == n,
                converged ==> is_balanced(*self),
                is_balanced(start) ==> self.data@ == start.data@,
                is_balanced(start) && sweeps > 0 ==> converged,
            decreases MAX_BALANCE_SWEEPS - sweeps,
        {
            let ghost prev = *self;
            proof {
                if is_balanced(start) {
                    lemma_balanced_follows_elements(prev, start);
                }
            }
            let changed = self.balance_sweep();
            proof {
                if !changed {
                    lemma_balanced_follows_elements(*self, prev);
                }
            }
            converged = !changed;
            sweeps = sweeps + 1;
        }
        converged
    }

    /// A matrix similar to `self` in upper Hessenberg form.
    ///
    /// A balanced copy is reduced column by column with two-sided Householder
    /// updates `H A H`; a column already zero below its sub-diagonal is
    /// skipped. The elements below the first sub-diagonal are then set to
    /// exact zeros.
    pub fn upper_hessenberg(&self) -> (res: Result<Matrix<T>, DecompError>)
        requires
            self.wf(),
        ensures
            (res is Err) <==> !self.is_square(),
            res matches Err(e) ==> e == DecompError::Shape,
            res matches Ok(h) ==> {
                &&& h.wf()
                &&& h.rows == self.rows
                &&& h.cols == self.rows
                &&& h.is_upper_hessenberg_with(T::spec_zero())
            },
    {
        if self.rows != self.cols {
            return Err(DecompError::Shape);
        }
        let n = self.rows;
        let _storage_len: usize = self.data.len();
        let all = index_range(0, n);
        let mut dummy = self.select(&all, &all);
        dummy.balance_matrix();
        let o = T::one();
        let two = o.plus(o);
        let mut i: usize = 0;
        while n - i > 2
            invariant
                i <= n,
                n * n <= usize::MAX,
                all@.len() == n,
                forall|k: int| 0 <= k < n ==> all@[k] == k,
                dummy.wf(),
                dummy.rows == n,
                dummy.cols == n,
            decreases n - i,
        {
            let lower = index_range(i + 1, n);
            let col_idx = index_range(i, i + 1);
            proof {
                lemma_block_fits((n - i - 1) as int, 1, n as int);
            }
            let column = dummy.select(&lower, &col_idx);
            match Matrix::make_householder_vec(column) {
                Ok(v) => {
                    let vt = v.transpose();
                    let cols_i = index_range(i, n);
                    proof {
                        lemma_block_fits((n - i - 1) as int, (n - i) as int, n as int);
                        lemma_block_fits(1, (n - i) as int, n as int);
                        lemma_block_fits(n as int, (n - i - 1) as int, n as int);
                        lemma_block_fits(n as int, 1, n as int);
                    }
                    let block = dummy.select(&lower, &cols_i);
                    let prod = v.mul(&vt.mul(&block));
                    let reduced = block.minus_scaled(&prod, two);
                    dummy.write_block(i + 1, i, &reduced);
                    let block2 = dummy.select(&all, &lower);
                    let prod2 = block2.mul(&v).mul(&vt);
                    let reduced2 = block2.minus_scaled(&prod2, two);
                    dummy.write_block(0, i + 1, &reduced2);
                },
                Err(_) => {},
            }
            i = i + 1;
        }
        let z = T::zero();
        dummy.zero_below_subdiagonal(z);
        Ok(dummy)
    }

    /// Real eigenvalues by shifted QR iteration with deflation on the
    /// Hessenberg form.
    ///
    /// The trailing diagonal element is the shift; iteration on the active
    /// block stops when the element left of it falls to twice the smallest
    /// positive normal value, or after `MAX_QR_ITERS` steps, and that element
    /// is recorded with whether the threshold was met. The block then loses
    /// its last row and column.
    pub fn eigenvalues(&self) -> (res: Result<Eigenvalues<T>, DecompError>)
        requires
            self.wf(),
        ensures
            (res is Err) <==> !self.is_square(),
            res matches Err(e) ==> e == DecompError::Shape,
            res matches Ok(e) ==> {
                &&& e.values@.len() == self.rows
                &&& e.iterations@.len() == self.rows
                &&& e.converged@.len() == self.rows
                &&& forall|k: int| 0 <= k < self.rows ==> e.iterations@[k] <= MAX_QR_ITERS
                &&& forall|k: int| 0 <= k < self.rows && !e.converged@[k]
                    ==> e.iterations@[k] == MAX_QR_ITERS
            },
    {
        let mut h = match self.upper_hessenberg() {
            Ok(h) => h,
            Err(e) => {
                return Err(e);
            },
        };
        let n = self.rows;
        let _storage_len: usize = self.data.len();
        let mut values: Vec<T> = Vec::new();
        let mut iterations: Vec<usize> = Vec::new();
        let mut converged: Vec<bool> = Vec::new();
        if n == 0 {
            return Ok(Eigenvalues { values, iterations, converged });
        }
        let eps = T::min_positive().plus(T::min_positive());
        let mut m: usize = n - 1;
        while m > 0
            invariant
                n * n <= usize::MAX,
                m < n,
                h.wf(),
                h.rows == m + 1,
                h.cols == m + 1,
                values@.len() == n - 1 - m,
                iterations@.len() == n - 1 - m,
                converged@.len() == n - 1 - m,
                forall|k: int| 0 <= k < iterations@.len() ==> iterations@[k] <= MAX_QR_ITERS,
                forall|k: int| 0 <= k < converged@.len() && !converged@[k]
                    ==> iterations@[k] == MAX_QR_ITERS,
            decreases m,
        {
            proof {
                lemma_block_fits((m + 1) as int, (m + 1) as int, n as int);
            }
            let mut iters: usize = 0;
            while eps.less_than(h.get(m, m - 1).abs()) && iters < MAX_QR_ITERS
                invariant
                    0 < m < n,
                    (m + 1) * (m + 1) <= usize::MAX,
                    h.wf(),
                    h.rows == m + 1,
                    h.cols == m + 1,
                    iters <= MAX_QR_ITERS,
                decreases MAX_QR_ITERS - iters,
            {
                iters = iters + 1;
                let shift = h.get(m, m);
                h.shift_diagonal(shift.negate());
                let (q, r) = h.qr_decomp();
                h = r.mul(&q);
                h.shift_diagonal(shift);
            }
            let met = !eps.less_than(h.get(m, m - 1).abs());
            assert(met || iters == MAX_QR_ITERS);
            converged.push(met);
            iterations.push(iters);
            values.push(h.get(m, m));
            let upper = index_range(0, m);
            proof {
                lemma_block_fits(m as int, m as int, n as int);
            }
            h = h.select(&upper, &upper);
            m = m - 1;
        }
        values.push(h.get(0, 0));
        iterations.push(0);
        converged.push(true);
        Ok(Eigenvalues { values, iterations, converged })
    }
}

impl<T: Scalar> Matrix<T> {
    /// Eigenvalues by implicit double-shift (Francis) QR sweeps on the
    /// Hessenberg form, as `(values, vectors, converged)`.
    ///
    /// Each sweep seeds a bulge from the trailing `2 x 2` block's trace and
    /// determinant, chases it down with `3 x 1` Householder reflectors and
    /// closes with a Givens rotation, unless the bulge is already zero. The active window `[0, p]` shrinks by one
    /// or two when a sub-diagonal element falls below `1e-15` times the
    /// neighbouring diagonal magnitudes. `values` is the final diagonal.
    /// Eigenvectors are not computed: `vectors` is always `0 x 0`.
    /// `sweeps` counts the sweeps made; `converged` is `false` when the window
    /// had not closed after `MAX_FRANCIS_SWEEPS` of them.
    pub fn eigendecomp(&self) -> (res: Result<(Vec<T>, Matrix<T>, usize, bool), DecompError>)
        requires
            self.wf(),
        ensures
            (res is Err) <==> !self.is_square(),
            res matches Err(e) ==> e == DecompError::Shape,
            res matches Ok((values, vectors, sweeps, converged)) ==> {
                &&& values@.len() == self.rows
                &&& vectors.wf()
                &&& vectors.rows == 0
                &&& vectors.cols == 0
                &&& sweeps <= MAX_FRANCIS_SWEEPS
                &&& !converged ==> sweeps == MAX_FRANCIS_SWEEPS
            },
    {
        let mut h = match self.upper_hessenberg() {
            Ok(h) => h,
            Err(e) => {
                return Err(e);
            },
        };
        let n = self.rows;
        let _storage_len: usize = self.data.len();
        let z0 = T::zero();
        if n == 0 {
            let none: Vec<T> = Vec::new();
            let no_data: Vec<T> = Vec::new();
            assert(no_data@.len() == 0 * 0);
            return Ok((none, Matrix::new(0, 0, no_data), 0, true));
        }
        let eps = T::one().divide(T::from_u64(1000000000000000));
        let mut p: usize = n - 1;
        let mut sweeps: usize = 0;
        while p > 1 && sweeps < MAX_FRANCIS_SWEEPS
            invariant
                n * n <= usize::MAX,
                p < n,
                sweeps <= MAX_FRANCIS_SWEEPS,
                h.wf(),
                h.rows == n,
                h.cols == n,
            decreases MAX_FRANCIS_SWEEPS - sweeps,
        {
            sweeps = sweeps + 1;
            let q = p - 1;
            let s = h.get(q, q).plus(h.get(p, p));
            let t = h.get(q, q).times(h.get(p, p)).minus(h.get(q, p).times(h.get(p, q)));
            let h00 = h.get(0, 0);
            let mut x = h00.times(h00).plus(h.get(0, 1).times(h.get(1, 0))).minus(h00.times(s)).plus(t);
            let mut y = h.get(1, 0).times(h00.plus(h.get(1, 1)).minus(s));
            let mut z = h.get(1, 0).times(h.get(2, 1));
            let mut k: usize = 0;
            while k + 1 < p
                invariant
                    n * n <= usize::MAX,
                    1 < p < n,
                    k <= p,
                    h.wf(),
                    h.rows == n,
                    h.cols == n,
                decreases p - k,
            {
                let first: usize = if k > 0 { k - 1 } else { 0 };
                let mut seed_data: Vec<T> = Vec::new();
                seed_data.push(x);
                seed_data.push(y);
                seed_data.push(z);
                let seed = Matrix::new(3, 1, seed_data);
                match Matrix::make_householder(seed) {
                    Ok(hh) => {
                        let rows3 = index_range(k, k + 3);
                        let cols_r = index_range(first, n);
                        proof {
                            lemma_block_fits(3, (n - first) as int, n as int);
                        }
                        let block = h.select(&rows3, &cols_r);
                        let reduced = hh.mul(&block);
                        h.write_block(k, first, &reduced);
                        let last: usize = if p - k > 3 { k + 4 } else { p + 1 };
                        let rows_top = index_range(0, last);
                        proof {
                            lemma_block_fits(last as int, 3, n as int);
                        }
                        let block2 = h.select(&rows_top, &rows3);
                        let reduced2 = block2.mul(&hh.transpose());
                        h.write_block(0, k, &reduced2);
                    },
                    Err(_) => {},
                }
                x = h.get(k + 1, k);
                y = h.get(k + 2, k);
                if k + 2 < p {
                    z = h.get(k + 3, k);
                }
                k = k + 1;
            }
            // A zero bulge needs no closing rotation (and has none: 0 / 0).
            if !(x.equals(z0) && y.equals(z0)) {
                let (c, sn) = Matrix::givens_rot(x, y);
                let mut g_data: Vec<T> = Vec::new();
                g_data.push(c);
                g_data.push(sn.negate());
                g_data.push(sn);
                g_data.push(c);
                let g = Matrix::new(2, 2, g_data);
                let rows_qp = index_range(q, p + 1);
                let cols_tail = index_range(p - 2, n);
                proof {
                    lemma_block_fits(2, (n - (p - 2)) as int, n as int);
                    lemma_block_fits(p as int, 2, n as int);
                }
                let block = h.select(&rows_qp, &cols_tail);
                let reduced = g.mul(&block);
                h.write_block(q, p - 2, &reduced);
                let rows_top = index_range(0, p);
                let cols_qp = index_range(p - 1, p + 1);
                let block2 = h.select(&rows_top, &cols_qp);
                let reduced2 = block2.mul(&g.transpose());
                h.write_block(0, p - 1, &reduced2);
            }

            if h.get(p, q).abs().less_than(eps.times(h.get(q, q).abs().plus(h.get(p, p).abs()))) {
                h.set(p, q, z0);
                p = p - 1;
            } else if h.get(p - 1, q - 1).abs().less_than(
                eps.times(h.get(q - 1, q - 1).abs().plus(h.get(q, q).abs())),
            ) {
                h.set(p - 1, q - 1, z0);
                p = p - 2;
            }
        }
        let converged = p <= 1;
        let no_data: Vec<T> = Vec::new();
        assert(no_data@.len() == 0 * 0);
        Ok((h.diag(), Matrix::new(0, 0, no_data), sweeps, converged))
    }
}

} // verus!
