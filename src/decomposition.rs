//! The decompositions, over any [`Scalar`].
use vstd::prelude::*;

use crate::error::DecompError;
use crate::matrix::{hits, index_range, is_permutation, Matrix};
use crate::ops::col_norm_spec;
use crate::scalar::Scalar;

verus! {

/// The reflector denominator of the column `x`: `x[0] + sign(x[0]) * |x|`.
pub open spec fn householder_denom<T: Scalar>(x: Matrix<T>) -> T {
    x.entry(0, 0).spec_plus(x.entry(0, 0).spec_signum().spec_times(col_norm_spec(x, 0)))
}

/// The reflector direction of the column `x`: `1`, then `x[k] / householder_denom(x)`.
pub open spec fn householder_dir<T: Scalar>(x: Matrix<T>) -> Seq<T> {
    Seq::new(
        x.rows as nat,
        |k: int|
            if k == 0 {
                T::spec_one()
            } else {
                x.entry(k, 0).spec_divide(householder_denom(x))
            },
    )
}

/// `v[0]^2 + ... + v[k-1]^2`, left to right from zero.
pub open spec fn seq_sq_sum<T: Scalar>(v: Seq<T>, k: int) -> T
    decreases k,
{
    if k <= 0 {
        T::spec_zero()
    } else {
        seq_sq_sum(v, k - 1).spec_plus(v[k - 1].spec_times(v[k - 1]))
    }
}

/// Element `(a, b)` of `I - (2 / (v^T v)) v v^T` for the direction of the column `x`.
pub open spec fn householder_entry<T: Scalar>(x: Matrix<T>, a: int, b: int) -> T {
    let v = householder_dir(x);
    let factor = T::spec_one().spec_plus(T::spec_one()).spec_divide(seq_sq_sum(v, x.rows as int));
    (if a == b { T::spec_one() } else { T::spec_zero() }).spec_minus(
        v[a].spec_times(v[b]).spec_times(factor),
    )
}

/// Scans rows `j..` of column `col` for an element of larger magnitude than
/// the one in row `best`; a later row replaces `best` only when strictly larger.
pub open spec fn pivot_scan<T: Scalar>(m: Matrix<T>, col: int, j: int, best: int) -> int
    decreases m.rows - j,
{
    if j >= m.rows {
        best
    } else if m.entry(best, col).spec_abs().spec_less_than(m.entry(j, col).spec_abs()) {
        pivot_scan(m, col, j + 1, j)
    } else {
        pivot_scan(m, col, j + 1, best)
    }
}

/// The pivot row of column `col`: the first row at or below `col` whose
/// element in column `col` has the largest magnitude.
pub open spec fn pivot_of<T: Scalar>(m: Matrix<T>, col: int) -> int {
    pivot_scan(m, col, col + 1, col)
}

/// The row order after the pivot swaps of columns `0..i`: starting from
/// `0, 1, ..., n - 1`, the entries at `c` and `pivot_of(m, c)` swap for each
/// column `c` in turn.
pub open spec fn pivot_order<T: Scalar>(m: Matrix<T>, i: int) -> Seq<usize>
    decreases i,
{
    if i <= 0 {
        Seq::new(m.rows as nat, |k: int| k as usize)
    } else {
        let p = pivot_order(m, i - 1);
        let r = pivot_of(m, i - 1);
        p.update(i - 1, p[r]).update(r, p[i - 1])
    }
}

/// `l[j][0] * u[0][c] + ... + l[j][t-1] * u[t-1][c]`, left to right from zero.
pub open spec fn lu_sum<T: Scalar>(l: Matrix<T>, u: Matrix<T>, j: int, c: int, t: int) -> T
    decreases t,
{
    if t <= 0 {
        T::spec_zero()
    } else {
        lu_sum(l, u, j, c, t - 1).spec_plus(l.entry(j, t - 1).spec_times(u.entry(t - 1, c)))
    }
}

/// Doolittle's equation for `u[j][c]` (`j <= c`), where row `j` of the
/// permuted matrix is row `sigma[j]` of `a`.
pub open spec fn u_holds<T: Scalar>(a: Matrix<T>, sigma: Seq<usize>, l: Matrix<T>, u: Matrix<T>, j: int, c: int) -> bool {
    u.entry(j, c) == a.entry(sigma[j] as int, c).spec_minus(lu_sum(l, u, j, c, j))
}

/// Doolittle's equation for `l[j][c]` (`c < j`).
pub open spec fn l_holds<T: Scalar>(a: Matrix<T>, sigma: Seq<usize>, l: Matrix<T>, u: Matrix<T>, j: int, c: int) -> bool {
    l.entry(j, c) == a.entry(sigma[j] as int, c).spec_minus(lu_sum(l, u, j, c, c)).spec_divide(u.entry(c, c))
}

/// `lu_sum` reads only `l[j][k]` and `u[k][c]` for `k < t`.
pub proof fn lemma_lu_sum_frame<T: Scalar>(
    l1: Matrix<T>,
    u1: Matrix<T>,
    l2: Matrix<T>,
    u2: Matrix<T>,
    j: int,
    c: int,
    t: int,
)
    requires
        forall|k: int| 0 <= k < t ==> l1.entry(j, k) == l2.entry(j, k) && u1.entry(k, c) == u2.entry(k, c),
    ensures
        lu_sum(l1, u1, j, c, t) == lu_sum(l2, u2, j, c, t),
    decreases t,
{
    if t > 0 {
        lemma_lu_sum_frame(l1, u1, l2, u2, j, c, t - 1);
    }
}

/// `l[i][0] * l[j][0] + ... + l[i][t-1] * l[j][t-1]`, left to right from zero.
pub open spec fn ll_sum<T: Scalar>(l: Matrix<T>, i: int, j: int, t: int) -> T
    decreases t,
{
    if t <= 0 {
        T::spec_zero()
    } else {
        ll_sum(l, i, j, t - 1).spec_plus(l.entry(i, t - 1).spec_times(l.entry(j, t - 1)))
    }
}

/// The Cholesky-Banachiewicz equation for `l[i][j]` (`j <= i`): the square
/// root of `a[i][i] - sum` on the diagonal, `(a[i][j] - sum) / l[j][j]` below it.
pub open spec fn chol_holds<T: Scalar>(a: Matrix<T>, l: Matrix<T>, i: int, j: int) -> bool {
    l.entry(i, j) == chol_value(a, l, i, j)
}

/// The value that the Cholesky-Banachiewicz equation gives `l[i][j]` from
/// the entries before it.
pub open spec fn chol_value<T: Scalar>(a: Matrix<T>, l: Matrix<T>, i: int, j: int) -> T {
    if i == j {
        a.entry(i, i).spec_minus(ll_sum(l, i, i, i)).spec_sqrt()
    } else {
        a.entry(i, j).spec_minus(ll_sum(l, i, j, j)).spec_divide(l.entry(j, j))
    }
}

/// `l` is a square matrix of `a`'s size whose entries before `(i, j)`, row by
/// row over the lower triangle, meet the Cholesky-Banachiewicz equation and
/// are not NaN.
pub open spec fn chol_until<T: Scalar>(a: Matrix<T>, l: Matrix<T>, i: int, j: int) -> bool {
    &&& l.wf() && l.rows == a.rows && l.cols == a.rows
    &&& 0 <= j <= i < a.rows
    &&& forall|x: int, y: int| 0 <= y <= x < i ==> #[trigger] chol_holds(a, l, x, y)
    &&& forall|x: int, y: int| 0 <= y <= x < i ==> !#[trigger] l.entry(x, y).spec_is_nan()
    &&& forall|y: int| 0 <= y < j ==> #[trigger] chol_holds(a, l, i, y)
    &&& forall|y: int| 0 <= y < j ==> !#[trigger] l.entry(i, y).spec_is_nan()
}

/// `l` and `u` are square matrices of `a`'s size that meet Doolittle's
/// equations in columns `0..=c` of `u` and `0..c` of `l`, with non-zero
/// pivots before column `c`.
pub open spec fn doolittle_until<T: Scalar>(a: Matrix<T>, sigma: Seq<usize>, l: Matrix<T>, u: Matrix<T>, c: int) -> bool {
    &&& l.wf() && l.rows == a.rows && l.cols == a.rows
    &&& u.wf() && u.rows == a.rows && u.cols == a.rows
    &&& 0 <= c < a.rows
    &&& forall|j: int, k: int| 0 <= j <= k <= c ==> #[trigger] u_holds(a, sigma, l, u, j, k)
    &&& forall|j: int, k: int| 0 <= k < c && k < j < a.rows ==> #[trigger] l_holds(a, sigma, l, u, j, k)
    &&& forall|k: int| 0 <= k < c ==> !#[trigger] u.entry(k, k).spec_equals(T::spec_zero())
}

/// `ll_sum` reads only `l[i][k]` and `l[j][k]` for `k < t`.
pub proof fn lemma_ll_sum_frame<T: Scalar>(l1: Matrix<T>, l2: Matrix<T>, i: int, j: int, t: int)
    requires
        forall|k: int| 0 <= k < t ==> l1.entry(i, k) == l2.entry(i, k) && l1.entry(j, k) == l2.entry(j, k),
    ensures
        ll_sum(l1, i, j, t) == ll_sum(l2, i, j, t),
    decreases t,
{
    if t > 0 {
        lemma_ll_sum_frame(l1, l2, i, j, t - 1);
    }
}

/// The permutation matrix whose row `i` has its one in column `perm[i]`.
pub fn permutation_matrix<T: Copy>(perm: &Vec<usize>, z: T, o: T) -> (p: Matrix<T>)
    requires
        is_permutation(perm@, perm@.len() as int),
        perm@.len() * perm@.len() <= usize::MAX,
    ensures
        p.wf(),
        p.rows == perm@.len(),
        p.cols == perm@.len(),
        p.permutes_identity(perm@, z, o),
        p.is_permutation_with(z, o),
{
    let n = perm.len();
    let mut p = Matrix::filled(n, n, z);
    let mut i: usize = 0;
    while i < n
        invariant
            i <= n,
            n == perm@.len(),
            is_permutation(perm@, n as int),
            p.wf(),
            p.rows == n,
            p.cols == n,
            forall|a: int, b: int| 0 <= a < n && 0 <= b < n
                ==> p.entry(a, b) == (if a < i && perm@[a] == b { o } else { z }),
        decreases n - i,
    {
        p.set(i, perm[i], o);
        i = i + 1;
    }
    assert(p.permutes_identity(perm@, z, o));
    p
}

/// Swaps two positions of an index vector.
fn swap_indices(perm: &mut Vec<usize>, a: usize, b: usize)
    requires
        a < old(perm)@.len(),
        b < old(perm)@.len(),
    ensures
        final(perm)@ == old(perm)@.update(a as int, old(perm)@[b as int]).update(
            b as int,
            old(perm)@[a as int],
        ),
{
    let ta = perm[a];
    let tb = perm[b];
    perm.set(a, tb);
    perm.set(b, ta);
}

impl<T: Scalar> Matrix<T> {
    /// Index of the element of largest magnitude in column `col`, among rows
    /// `col..rows`; the first such row wins a tie.
    fn pivot_row(&self, col: usize) -> (r: usize)
        requires
            self.wf(),
            col < self.rows,
            col < self.cols,
        ensures
            col <= r < self.rows,
            r == pivot_of(*self, col as int),
    {
        let mut best: usize = col;
        let mut best_v = self.get(col, col).abs();
        let mut j: usize = col + 1;
        while j < self.rows
            invariant
                self.wf(),
                col < self.cols,
                col <= best < self.rows,
                col < j <= self.rows,
                best_v == self.entry(best as int, col as int).spec_abs(),
                pivot_of(*self, col as int) == pivot_scan(*self, col as int, j as int, best as int),
            decreases self.rows - j,
        {
            let v = self.get(j, col).abs();
            if best_v.less_than(v) {
                best = j;
                best_v = v;
            }
            j = j + 1;
        }
        best
    }

    /// LUP factorization with partial pivoting: `(L, U, P)` with `P * A = L * U`.
    ///
    /// `P` is built by swapping, for each column `i`, row `i` with the row at or
    /// below `i` whose element in column `i` has the largest magnitude. `L` is
    /// unit lower triangular, `U` upper triangular; both come from Doolittle's
    /// method on the permuted rows of `A`.
    pub fn lup_decomp(&self) -> (res: Result<(Matrix<T>, Matrix<T>, Matrix<T>), DecompError>)
        requires
            self.wf(),
        ensures
            (res matches Err(e) && e == DecompError::Shape) <==> !self.is_square(),
            res matches Err(e) ==> (e == DecompError::Shape || e == DecompError::SingularMatrix),
            res matches Err(e) && e == DecompError::SingularMatrix ==> exists|l: Matrix<T>, u: Matrix<T>, c: int|
                #[trigger] doolittle_until(*self, pivot_order(*self, self.rows as int), l, u, c)
                    && u.entry(c, c).spec_equals(T::spec_zero()),
            res matches Ok((l, u, p)) ==> {
                &&& l.wf() && u.wf() && p.wf()
                &&& l.rows == self.rows && l.cols == self.rows
                &&& u.rows == self.rows && u.cols == self.rows
                &&& p.rows == self.rows && p.cols == self.rows
                &&& l.is_unit_lower_with(T::spec_zero(), T::spec_one())
                &&& u.is_upper_triangular_with(T::spec_zero())
                &&& p.is_permutation_with(T::spec_zero(), T::spec_one())
                &&& p.permutes_identity(pivot_order(*self, self.rows as int), T::spec_zero(), T::spec_one())
                &&& forall|j: int, c: int| 0 <= j <= c < self.rows
                    ==> #[trigger] u_holds(*self, pivot_order(*self, self.rows as int), l, u, j, c)
                &&& forall|j: int, c: int| 0 <= c < j < self.rows
                    ==> #[trigger] l_holds(*self, pivot_order(*self, self.rows as int), l, u, j, c)
                &&& forall|c: int| 0 <= c < self.rows ==> !#[trigger] u.entry(c, c).spec_equals(T::spec_zero())
            },
    {
        if self.rows != self.cols {
            return Err(DecompError::Shape);
        }
        let n = self.cols;
        let _storage_len: usize = self.data.len();
        assert(n * n <= usize::MAX);
        let z = T::zero();
        let o = T::one();

        let mut perm = index_range(0, n);
        assert forall|j: int| 0 <= j < n implies #[trigger] hits(perm@, n as int, j) by {
            assert(perm@[j] == j);
        }
        assert(perm@ =~= pivot_order(*self, 0));
        let mut i: usize = 0;
        while i < n
            invariant
                self.wf(),
                n == self.rows,
                n == self.cols,
                i <= n,
                is_permutation(perm@, n as int),
                perm@.len() == n,
                n * n <= usize::MAX,
                perm@ == pivot_order(*self, i as int),
            decreases n - i,
        {
            let row = self.pivot_row(i);
            proof {
                let p = pivot_order(*self, i as int);
                assert(pivot_order(*self, i + 1) == p.update(i as int, p[row as int]).update(row as int, p[i as int]));
                if row == i {
                    assert(p.update(i as int, p[row as int]).update(row as int, p[i as int]) =~= p);
                }
            }
            if row != i {
                let ghost before = perm@;
                swap_indices(&mut perm, i, row);
                assert forall|a: int, b: int| 0 <= a < n && 0 <= b < n && a != b
                    implies perm@[a] != perm@[b] by {
                    assert(before[a] != before[b]);
                    assert(before[a] != before[i as int] || a == i);
                    assert(before[a] != before[row as int] || a == row);
                }
                assert forall|j: int| 0 <= j < n implies #[trigger] hits(perm@, n as int, j) by {
                    assert(hits(before, n as int, j));
                    let a0 = choose|a: int| 0 <= a < n && #[trigger] before[a] == j;
                    if a0 == i {
                        assert(perm@[row as int] == j);
                    } else if a0 == row {
                        assert(perm@[i as int] == j);
                    } else {
                        assert(perm@[a0] == j);
                    }
                }
            }
            i = i + 1;
        }
        let p = permutation_matrix(&perm, z, o);
        let all = index_range(0, n);
        let a2 = self.select(&perm, &all);

        let ghost sig = perm@;
        assert forall|j: int, c: int| 0 <= j < n && 0 <= c < n
            implies #[trigger] a2.entry(j, c) == self.entry(sig[j] as int, c) by {
            assert(all@[c] == c);
        }
        let mut l = Matrix::filled(n, n, z);
        let mut u = Matrix::filled(n, n, z);
        let mut i: usize = 0;
        while i < n
            invariant
                i <= n,
                n * n <= usize::MAX,
                n == self.rows && n == self.cols,
                a2.wf() && a2.rows == n && a2.cols == n,
                sig.len() == n,
                sig == pivot_order(*self, n as int),
                z == T::spec_zero(),
                o == T::spec_one(),
                forall|j: int, c: int| 0 <= j < n && 0 <= c < n
                    ==> #[trigger] a2.entry(j, c) == self.entry(sig[j] as int, c),
                l.wf() && l.rows == n && l.cols == n,
                u.wf() && u.rows == n && u.cols == n,
                l.is_lower_triangular_with(z),
                forall|a: int| 0 <= a < i ==> l.entry(a, a) == o,
                u.is_upper_triangular_with(z),
                forall|j: int, c: int| 0 <= j <= c < i ==> #[trigger] u_holds(*self, sig, l, u, j, c),
                forall|j: int, c: int| 0 <= c < i && c < j < n ==> #[trigger] l_holds(*self, sig, l, u, j, c),
                forall|c: int| 0 <= c < i ==> !#[trigger] u.entry(c, c).spec_equals(T::spec_zero()),
            decreases n - i,
        {
            let ghost l0 = l;
            l.set(i, i, o);
            proof {
                assert forall|j: int, c: int| 0 <= j <= c < i implies #[trigger] u_holds(*self, sig, l, u, j, c) by {
                    assert(u_holds(*self, sig, l0, u, j, c));
                    lemma_lu_sum_frame(l0, u, l, u, j, c, j);
                }
                assert forall|j: int, c: int| 0 <= c < i && c < j < n implies #[trigger] l_holds(*self, sig, l, u, j, c) by {
                    assert(l_holds(*self, sig, l0, u, j, c));
                    lemma_lu_sum_frame(l0, u, l, u, j, c, c);
                }
            }
            let mut j: usize = 0;
            while j <= i
                invariant
                    i < n,
                    j <= i + 1,
                    a2.wf() && a2.rows == n && a2.cols == n,
                    sig.len() == n,
                    sig == pivot_order(*self, n as int),
                    z == T::spec_zero(),
                    o == T::spec_one(),
                    forall|j: int, c: int| 0 <= j < n && 0 <= c < n
                        ==> #[trigger] a2.entry(j, c) == self.entry(sig[j] as int, c),
                    l.wf() && l.rows == n && l.cols == n,
                    u.wf() && u.rows == n && u.cols == n,
                    l.is_lower_triangular_with(z),
                    forall|a: int| 0 <= a <= i ==> l.entry(a, a) == o,
                    u.is_upper_triangular_with(z),
                    forall|a: int, c: int| 0 <= a <= c < i ==> #[trigger] u_holds(*self, sig, l, u, a, c),
                    forall|a: int| 0 <= a < j ==> #[trigger] u_holds(*self, sig, l, u, a, i as int),
                    forall|a: int, c: int| 0 <= c < i && c < a < n ==> #[trigger] l_holds(*self, sig, l, u, a, c),
                    forall|c: int| 0 <= c < i ==> !#[trigger] u.entry(c, c).spec_equals(T::spec_zero()),
                decreases i + 1 - j,
            {
                let mut s1 = z;
                let mut k: usize = 0;
                while k < j
                    invariant
                        j <= i < n,
                        k <= j,
                        z == T::spec_zero(),
                        l.wf() && l.rows == n && l.cols == n,
                        u.wf() && u.rows == n && u.cols == n,
                        s1 == lu_sum(l, u, j as int, i as int, k as int),
                    decreases j - k,
                {
                    s1 = s1.plus(l.get(j, k).times(u.get(k, i)));
                    k = k + 1;
                }
                let ghost u0 = u;
                u.set(j, i, a2.get(j, i).minus(s1));
                proof {
                    assert forall|a: int, c: int| 0 <= a <= c < i implies #[trigger] u_holds(*self, sig, l, u, a, c) by {
                        assert(u_holds(*self, sig, l, u0, a, c));
                        lemma_lu_sum_frame(l, u0, l, u, a, c, a);
                    }
                    assert forall|a: int| 0 <= a <= j implies #[trigger] u_holds(*self, sig, l, u, a, i as int) by {
                        lemma_lu_sum_frame(l, u0, l, u, a, i as int, a);
                        if a < j {
                            assert(u_holds(*self, sig, l, u0, a, i as int));
                        }
                    }
                    assert forall|a: int, c: int| 0 <= c < i && c < a < n implies #[trigger] l_holds(*self, sig, l, u, a, c) by {
                        assert(l_holds(*self, sig, l, u0, a, c));
                        lemma_lu_sum_frame(l, u0, l, u, a, c, c);
                    }
                }
                j = j + 1;
            }
            let denom = u.get(i, i);
            if denom.equals(z) {
                assert(doolittle_until(*self, sig, l, u, i as int));
                return Err(DecompError::SingularMatrix);
            }
            let mut j: usize = i + 1;
            while j < n
                invariant
                    i < n,
                    i < j <= n,
                    a2.wf() && a2.rows == n && a2.cols == n,
                    sig.len() == n,
                    sig == pivot_order(*self, n as int),
                    z == T::spec_zero(),
                    o == T::spec_one(),
                    forall|j: int, c: int| 0 <= j < n && 0 <= c < n
                        ==> #[trigger] a2.entry(j, c) == self.entry(sig[j] as int, c),
                    l.wf() && l.rows == n && l.cols == n,
                    u.wf() && u.rows == n && u.cols == n,
                    l.is_lower_triangular_with(z),
                    forall|a: int| 0 <= a <= i ==> l.entry(a, a) == o,
                    denom == u.entry(i as int, i as int),
                    forall|a: int, c: int| 0 <= a <= c <= i ==> #[trigger] u_holds(*self, sig, l, u, a, c),
                    forall|a: int, c: int| 0 <= c < i && c < a < n ==> #[trigger] l_holds(*self, sig, l, u, a, c),
                    forall|a: int| i < a < j ==> #[trigger] l_holds(*self, sig, l, u, a, i as int),
                decreases n - j,
            {
                let mut s2 = z;
                let mut k: usize = 0;
                while k < i
                    invariant
                        i < j < n,
                        k <= i,
                        z == T::spec_zero(),
                        l.wf() && l.rows == n && l.cols == n,
                        u.wf() && u.rows == n && u.cols == n,
                        s2 == lu_sum(l, u, j as int, i as int, k as int),
                    decreases i - k,
                {
                    s2 = s2.plus(l.get(j, k).times(u.get(k, i)));
                    k = k + 1;
                }
                let ghost l1 = l;
                l.set(j, i, a2.get(j, i).minus(s2).divide(denom));
                proof {
                    assert forall|a: int, c: int| 0 <= a <= c <= i implies #[trigger] u_holds(*self, sig, l, u, a, c) by {
                        assert(u_holds(*self, sig, l1, u, a, c));
                        lemma_lu_sum_frame(l1, u, l, u, a, c, a);
                    }
                    assert forall|a: int, c: int| 0 <= c < i && c < a < n implies #[trigger] l_holds(*self, sig, l, u, a, c) by {
                        assert(l_holds(*self, sig, l1, u, a, c));
                        lemma_lu_sum_frame(l1, u, l, u, a, c, c);
                    }
                    assert forall|a: int| i < a <= j implies #[trigger] l_holds(*self, sig, l, u, a, i as int) by {
                        lemma_lu_sum_frame(l1, u, l, u, a, i as int, i as int);
                        if a < j {
                            assert(l_holds(*self, sig, l1, u, a, i as int));
                        }
                    }
                }
                j = j + 1;
            }
            i = i + 1;
        }
        assert(l.is_unit_lower_with(z, o) && u.is_upper_triangular_with(z)
            && p.is_permutation_with(z, o));
        Ok((l, u, p))
    }
}

impl<T: Scalar> Matrix<T> {
    /// The reflector direction for the column `x`: `v[0] = 1` and
    /// `v[k] = x[k] / (x[0] + sign(x[0]) * |x|)` below it. The sign is chosen so
    /// that the denominator does not cancel; it is zero only for a zero column.
    fn householder_direction(x: &Matrix<T>) -> (r: Result<Vec<T>, DecompError>)
        requires
            x.wf(),
            x.cols == 1,
            x.rows >= 1,
        ensures
            (r is Err) <==> householder_denom(*x).spec_equals(T::spec_zero()),
            r matches Ok(v) ==> v@ == householder_dir(*x),
            r matches Err(e) ==> e == DecompError::NonDecomposable,
    {
        let x0 = x.get(0, 0);
        let norm = x.col_norm(0);
        let denom = x0.plus(x0.signum().times(norm));
        if denom.equals(T::zero()) {
            return Err(DecompError::NonDecomposable);
        }
        let mut v: Vec<T> = Vec::new();
        v.push(T::one());
        let mut k: usize = 1;
        while k < x.rows
            invariant
                x.wf(),
                x.cols == 1,
                1 <= k <= x.rows,
                v@.len() == k,
                !denom.spec_equals(T::spec_zero()),
                denom == householder_denom(*x),
                forall|t: int| 0 <= t < k ==> v@[t] == householder_dir(*x)[t],
            decreases x.rows - k,
        {
            v.push(x.get(k, 0).divide(denom));
            k = k + 1;
        }
        assert(v@ =~= householder_dir(*x));
        Ok(v)
    }

    /// The Householder reflector `I - 2 v v^T / (v^T v)` that maps the column
    /// `mat` onto a multiple of the first unit vector.
    pub fn make_householder(mat: Matrix<T>) -> (r: Result<Matrix<T>, DecompError>)
        requires
            mat.wf(),
            mat.rows >= 1,
            mat.rows * mat.rows <= usize::MAX,
        ensures
            (r matches Err(e) && e == DecompError::Shape) <==> mat.cols != 1,
            (r matches Err(e) && e == DecompError::NonDecomposable) <==> (mat.cols == 1
                && householder_denom(mat).spec_equals(T::spec_zero())),
            r matches Ok(h) ==> {
                &&& h.wf() && h.rows == mat.rows && h.cols == mat.rows
                &&& forall|a: int, b: int| 0 <= a < h.rows && 0 <= b < h.cols
                    ==> h.entry(a, b) == householder_entry(mat, a, b)
            },
    {
        if mat.cols != 1 {
            return Err(DecompError::Shape);
        }
        let size = mat.rows;
        let v = match Matrix::householder_direction(&mat) {
            Ok(v) => v,
            Err(e) => {
                return Err(e);
            },
        };
        let mut norm_sq = T::zero();
        let mut k: usize = 0;
        while k < size
            invariant
                v@.len() == size,
                k <= size,
                norm_sq == seq_sq_sum(v@, k as int),
            decreases size - k,
        {
            norm_sq = norm_sq.plus(v[k].times(v[k]));
            k = k + 1;
        }
        let o = T::one();
        let factor = o.plus(o).divide(norm_sq);
        let mut h: Matrix<T> = Matrix::identity(size);
        let ghost id = h;
        let mut a: usize = 0;
        while a < size
            invariant
                v@.len() == size,
                v@ == householder_dir(mat),
                size == mat.rows,
                factor == T::spec_one().spec_plus(T::spec_one()).spec_divide(seq_sq_sum(v@, size as int)),
                id.is_identity_with(T::spec_zero(), T::spec_one()),
                id.rows == size,
                a <= size,
                h.wf(),
                h.rows == size,
                h.cols == size,
                forall|x: int, y: int| 0 <= x < size && 0 <= y < size
                    ==> h.entry(x, y) == (if x < a { householder_entry(mat, x, y) } else { id.entry(x, y) }),
            decreases size - a,
        {
            let mut b: usize = 0;
            while b < size
                invariant
                    v@.len() == size,
                    v@ == householder_dir(mat),
                    size == mat.rows,
                    factor == T::spec_one().spec_plus(T::spec_one()).spec_divide(seq_sq_sum(v@, size as int)),
                    id.is_identity_with(T::spec_zero(), T::spec_one()),
                    id.rows == size,
                    a < size,
                    b <= size,
                    h.wf(),
                    h.rows == size,
                    h.cols == size,
                    forall|x: int, y: int| 0 <= x < size && 0 <= y < size
                        ==> h.entry(x, y) == (if x < a || (x == a && y < b) {
                            householder_entry(mat, x, y)
                        } else {
                            id.entry(x, y)
                        }),
                decreases size - b,
            {
                let e = h.get(a, b).minus(v[a].times(v[b]).times(factor));
                h.set(a, b, e);
                b = b + 1;
            }
            a = a + 1;
        }
        Ok(h)
    }

    /// The unit vector `v / |v|` of the Householder reflector for the column
    /// `mat`, as a column; the reflector is then `I - 2 v v^T`.
    pub fn make_householder_vec(mat: Matrix<T>) -> (r: Result<Matrix<T>, DecompError>)
        requires
            mat.wf(),
            mat.rows >= 1,
        ensures
            (r matches Err(e) && e == DecompError::Shape) <==> mat.cols != 1,
            (r matches Err(e) && e == DecompError::NonDecomposable) <==> (mat.cols == 1
                && householder_denom(mat).spec_equals(T::spec_zero())),
            r matches Ok(h) ==> {
                &&& h.wf() && h.rows == mat.rows && h.cols == 1
                &&& forall|k: int| 0 <= k < h.rows ==> h.entry(k, 0) == householder_dir(mat)[k].spec_divide(
                    seq_sq_sum(householder_dir(mat), mat.rows as int).spec_sqrt(),
                )
            },
    {
        if mat.cols != 1 {
            return Err(DecompError::Shape);
        }
        let v = match Matrix::householder_direction(&mat) {
            Ok(v) => v,
            Err(e) => {
                return Err(e);
            },
        };
        let size = mat.rows;
        let mut norm_sq = T::zero();
        let mut k: usize = 0;
        while k < size
            invariant
                v@.len() == size,
                k <= size,
                norm_sq == seq_sq_sum(v@, k as int),
            decreases size - k,
        {
            norm_sq = norm_sq.plus(v[k].times(v[k]));
            k = k + 1;
        }
        let norm = norm_sq.sqrt();
        let mut data: Vec<T> = Vec::new();
        let mut k: usize = 0;
        while k < size
            invariant
                v@.len() == size,
                k <= size,
                data@.len() == k,
                norm == seq_sq_sum(v@, size as int).spec_sqrt(),
                forall|t: int| 0 <= t < k ==> data@[t] == v@[t].spec_divide(norm),
            decreases size - k,
        {
            data.push(v[k].divide(norm));
            k = k + 1;
        }
        let out = Matrix::new(size, 1, data);
        assert forall|k: int| 0 <= k < out.rows implies out.entry(k, 0) == v@[k].spec_divide(norm) by {
            assert(k * 1 + 0 == k);
        }
        Ok(out)
    }

    /// QR factorization by Householder reflections: `(Q, R)` with `Q` orthogonal
    /// `m x m` and `R` upper triangular `m x n`, `Q * R = A`.
    ///
    /// Column `i` is reduced for each `i` below `min(m, n)`, except the last
    /// one of a matrix with `m <= n`, which has nothing below its diagonal. A
    /// column that is already zero on and below the diagonal needs no reflector
    /// and is left as it is. What rounding leaves below the diagonal of `R` is
    /// then set to exact zeros.
    pub fn qr_decomp(self) -> (res: (Matrix<T>, Matrix<T>))
        requires
            self.wf(),
            self.rows * self.rows <= usize::MAX,
        ensures
            res.0.wf(),
            res.0.rows == self.rows,
            res.0.cols == self.rows,
            res.1.wf(),
            res.1.rows == self.rows,
            res.1.cols == self.cols,
            res.1.is_upper_triangular_with(T::spec_zero()),
            (self.cols == 0 || self.rows <= 1) ==> res.1.data@ == self.data@,
            (self.cols == 0 || self.rows <= 1) ==> res.0.is_identity_with(T::spec_zero(), T::spec_one()),
    {
        let m = self.rows;
        let n = self.cols;
        let _storage_len: usize = self.data.len();
        let z = T::zero();
        let o = T::one();
        let mut q = Matrix::diagonal_fill(m, z, o);
        assert(q.is_identity_with(z, o));
        let steps: usize = if n < m {
            n
        } else if m > 0 {
            m - 1
        } else {
            0
        };
        let mut r = self;
        let first = index_range(0, 1);
        let mut i: usize = 0;
        while i < steps
            invariant
                steps <= n && steps <= m,
                i <= steps,
                m * m <= usize::MAX,
                m * n <= usize::MAX,
                first@.len() == 1 && first@[0] == 0,
                q.wf() && q.rows == m && q.cols == m,
                r.wf() && r.rows == m && r.cols == n,
                (n == 0 || m <= 1) ==> steps == 0,
                steps == 0 ==> (n == 0 || m <= 1),
                steps == 0 ==> r.data@ == self.data@,
                steps == 0 ==> q.is_identity_with(z, o),
            decreases steps - i,
        {
            let lower = index_range(i, m);
            let col_idx = index_range(i, i + 1);
            let column = r.select(&lower, &col_idx);
            proof {
                assert((m - i) * (m - i) <= m * m) by (nonlinear_arith)
                    requires
                        i < m,
                ;
            }
            match Matrix::make_householder(column) {
                Ok(block) => {
                    let h = Matrix::embed_lower_right(m, i, &block, z, o);
                    q = q.mul(&h);
                    r = h.mul(&r);
                },
                Err(_) => {},
            }
            i = i + 1;
        }
        if steps > 0 {
            r.zero_below_diagonal(z);
        }
        let res = (q, r);
        assert(res.1.is_upper_triangular_with(z));
        if steps == 0 {
            assert(res.0.is_identity_with(z, o));
        }
        res
    }

    /// Cholesky factorization of a symmetric positive-definite matrix: the lower
    /// triangular `L` with `L * L^T = A`, computed row by row.
    ///
    /// A square root of a negative number, or a division by a zero diagonal,
    /// shows as a not-a-number element and is reported as
    /// `NotPositiveDefinite`.
    pub fn cholesky(&self) -> (res: Result<Matrix<T>, DecompError>)
        requires
            self.wf(),
        ensures
            (res matches Err(e) && e == DecompError::Shape) <==> !self.is_square(),
            res matches Err(e) ==> (e == DecompError::Shape || e == DecompError::NotPositiveDefinite),
            res matches Err(e) && e == DecompError::NotPositiveDefinite ==> exists|l: Matrix<T>, i: int, j: int|
                #[trigger] chol_until(*self, l, i, j) && chol_value(*self, l, i, j).spec_is_nan(),
            res matches Ok(l) ==> {
                &&& l.wf()
                &&& l.rows == self.rows
                &&& l.cols == self.rows
                &&& l.is_lower_triangular_with(T::spec_zero())
                &&& forall|i: int, j: int| 0 <= j <= i < self.rows ==> #[trigger] chol_holds(*self, l, i, j)
                &&& forall|i: int, j: int| 0 <= j <= i < self.rows ==> !#[trigger] l.entry(i, j).spec_is_nan()
            },
    {
        if self.rows != self.cols {
            return Err(DecompError::Shape);
        }
        let n = self.rows;
        let _storage_len: usize = self.data.len();
        let z = T::zero();
        let mut l = Matrix::filled(n, n, z);
        let mut i: usize = 0;
        while i < n
            invariant
                self.wf(),
                n == self.rows && n == self.cols,
                i <= n,
                z == T::spec_zero(),
                l.wf() && l.rows == n && l.cols == n,
                l.is_lower_triangular_with(z),
                forall|a: int, b: int| 0 <= b <= a < i ==> #[trigger] chol_holds(*self, l, a, b),
                forall|a: int, b: int| 0 <= b <= a < i ==> !#[trigger] l.entry(a, b).spec_is_nan(),
            decreases n - i,
        {
            let mut j: usize = 0;
            while j <= i
                invariant
                    self.wf(),
                    n == self.rows && n == self.cols,
                    i < n,
                    j <= i + 1,
                    z == T::spec_zero(),
                    l.wf() && l.rows == n && l.cols == n,
                    l.is_lower_triangular_with(z),
                    forall|a: int, b: int| 0 <= b <= a < i ==> #[trigger] chol_holds(*self, l, a, b),
                    forall|a: int, b: int| 0 <= b <= a < i ==> !#[trigger] l.entry(a, b).spec_is_nan(),
                    forall|b: int| 0 <= b < j ==> #[trigger] chol_holds(*self, l, i as int, b),
                    forall|b: int| 0 <= b < j ==> !#[trigger] l.entry(i as int, b).spec_is_nan(),
                decreases i + 1 - j,
            {
                let mut s = z;
                let mut k: usize = 0;
                while k < j
                    invariant
                        j <= i < n,
                        k <= j,
                        z == T::spec_zero(),
                        l.wf() && l.rows == n && l.cols == n,
                        s == ll_sum(l, i as int, j as int, k as int),
                    decreases j - k,
                {
                    s = s.plus(l.get(i, k).times(l.get(j, k)));
                    k = k + 1;
                }
                let e = if j == i {
                    self.get(i, i).minus(s).sqrt()
                } else {
                    self.get(i, j).minus(s).divide(l.get(j, j))
                };
                if e.is_nan() {
                    assert(chol_until(*self, l, i as int, j as int));
                    return Err(DecompError::NotPositiveDefinite);
                }
                let ghost l0 = l;
                l.set(i, j, e);
                proof {
                    assert forall|a: int, b: int| 0 <= b <= a < i implies #[trigger] chol_holds(*self, l, a, b) by {
                        assert(chol_holds(*self, l0, a, b));
                        lemma_ll_sum_frame(l0, l, a, b, b);
                    }
                    assert forall|b: int| 0 <= b <= j implies #[trigger] chol_holds(*self, l, i as int, b) by {
                        lemma_ll_sum_frame(l0, l, i as int, b, b);
                        if b < j {
                            assert(chol_holds(*self, l0, i as int, b));
                        }
                    }
                }
                j = j + 1;
            }
            i = i + 1;
        }
        Ok(l)
    }

    /// The cosine and sine `(a / r, -b / r)`, with `r = hypot(a, b)`, of the
    /// Givens rotation that zeroes `b` against `a`.
    pub fn givens_rot(a: T, b: T) -> (res: (T, T))
        ensures
            res.0 == a.spec_divide(a.spec_hypot(b)),
            res.1 == b.spec_negate().spec_divide(a.spec_hypot(b)),
    {
        let r = a.hypot(b);
        (a.divide(r), b.negate().divide(r))
    }
}

} // verus!
