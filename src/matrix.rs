//! A dense row-major matrix whose storage length always equals `rows * cols`.
use vstd::prelude::*;

verus! {

/// Row `i`, column `j` of a `rows x cols` row-major buffer lies at `i * cols + j`.
pub proof fn lemma_index_in_bounds(rows: int, cols: int, i: int, j: int)
    requires
        0 <= i < rows,
        0 <= j < cols,
    ensures
        0 <= i * cols <= i * cols + j < rows * cols,
{
    assert(0 <= i * cols <= i * cols + j < rows * cols) by (nonlinear_arith)
        requires
            0 <= i < rows,
            0 <= j < cols,
    ;
}

#[derive(Debug)]
pub struct Matrix<T> {
    pub rows: usize,
    pub cols: usize,
    pub data: Vec<T>,
}

impl<T: Copy> Matrix<T> {
    /// The storage holds exactly one element per position.
    pub open spec fn wf(&self) -> bool {
        self.data@.len() == self.rows * self.cols
    }

    /// The element at row `i`, column `j`.
    pub open spec fn entry(&self, i: int, j: int) -> T {
        self.data@[i * self.cols + j]
    }

    pub open spec fn is_square(&self) -> bool {
        self.rows == self.cols
    }

    /// Builds a matrix from a row-major buffer.
    pub fn new(rows: usize, cols: usize, data: Vec<T>) -> (m: Matrix<T>)
        requires
            data@.len() == rows * cols,
        ensures
            m.wf(),
            m.rows == rows,
            m.cols == cols,
            m.data@ == data@,
    {
        Matrix { rows, cols, data }
    }

    pub fn rows(&self) -> (r: usize)
        ensures
            r == self.rows,
    {
        self.rows
    }

    pub fn cols(&self) -> (c: usize)
        ensures
            c == self.cols,
    {
        self.cols
    }

    /// A `rows x cols` matrix holding `v` everywhere.
    pub fn filled(rows: usize, cols: usize, v: T) -> (m: Matrix<T>)
        requires
            rows * cols <= usize::MAX,
        ensures
            m.wf(),
            m.rows == rows,
            m.cols == cols,
            forall|i: int, j: int| 0 <= i < rows && 0 <= j < cols ==> m.entry(i, j) == v,
    {
        let total: usize = rows * cols;
        let mut data: Vec<T> = Vec::with_capacity(total);
        let mut k: usize = 0;
        while k < total
            invariant
                k <= total,
                total == rows * cols,
                data@.len() == k,
                forall|t: int| 0 <= t < k ==> data@[t] == v,
            decreases total - k,
        {
            data.push(v);
            k = k + 1;
        }
        let m = Matrix { rows, cols, data };
        assert forall|i: int, j: int| 0 <= i < rows && 0 <= j < cols implies m.entry(i, j) == v by {
            lemma_index_in_bounds(rows as int, cols as int, i, j);
        }
        m
    }

    /// An `n x n` matrix with `on` on the diagonal and `off` elsewhere.
    pub fn diagonal_fill(n: usize, off: T, on: T) -> (m: Matrix<T>)
        requires
            n * n <= usize::MAX,
        ensures
            m.wf(),
            m.rows == n,
            m.cols == n,
            forall|i: int, j: int|
                0 <= i < n && 0 <= j < n ==> m.entry(i, j) == (if i == j { on } else { off }),
    {
        let mut m = Matrix::filled(n, n, off);
        let mut i: usize = 0;
        while i < n
            invariant
                i <= n,
                m.wf(),
                m.rows == n,
                m.cols == n,
                forall|a: int, b: int|
                    0 <= a < n && 0 <= b < n ==> m.entry(a, b) == (if a == b && a < i {
                        on
                    } else {
                        off
                    }),
            decreases n - i,
        {
            m.set(i, i, on);
            i = i + 1;
        }
        m
    }

    pub fn get(&self, i: usize, j: usize) -> (v: T)
        requires
            self.wf(),
            i < self.rows,
            j < self.cols,
        ensures
            v == self.entry(i as int, j as int),
    {
        let _storage_len: usize = self.data.len();
        proof {
            lemma_index_in_bounds(self.rows as int, self.cols as int, i as int, j as int);
        }
        self.data[i * self.cols + j]
    }

    /// Writes `v` at row `i`, column `j`; every other element is kept.
    pub fn set(&mut self, i: usize, j: usize, v: T)
        requires
            old(self).wf(),
            i < old(self).rows,
            j < old(self).cols,
        ensures
            final(self).wf(),
            final(self).rows == old(self).rows,
            final(self).cols == old(self).cols,
            final(self).entry(i as int, j as int) == v,
            forall|a: int, b: int|
                0 <= a < old(self).rows && 0 <= b < old(self).cols && !(a == i && b == j)
                    ==> final(self).entry(a, b) == old(self).entry(a, b),
    {
        let _storage_len: usize = self.data.len();
        proof {
            lemma_index_in_bounds(self.rows as int, self.cols as int, i as int, j as int);
        }
        let ghost before = *self;
        let idx: usize = i * self.cols + j;
        self.data.set(idx, v);
        proof {
            assert forall|a: int, b: int|
                0 <= a < before.rows && 0 <= b < before.cols && !(a == i && b == j)
                implies self.entry(a, b) == before.entry(a, b) by {
                lemma_index_in_bounds(before.rows as int, before.cols as int, a, b);
                lemma_index_distinct(before.cols as int, a, b, i as int, j as int);
            }
        }
    }
}

/// Distinct positions of a row-major buffer have distinct offsets.
pub proof fn lemma_index_distinct(cols: int, a: int, b: int, i: int, j: int)
    requires
        0 <= b < cols,
        0 <= j < cols,
        0 <= a,
        0 <= i,
        !(a == i && b == j),
    ensures
        a * cols + b != i * cols + j,
{
    if a == i {
    } else if a < i {
        assert(a * cols + b < i * cols + j) by (nonlinear_arith)
            requires
                a < i,
                0 <= b < cols,
                0 <= j,
        ;
    } else {
        assert(i * cols + j < a * cols + b) by (nonlinear_arith)
            requires
                i < a,
                0 <= j < cols,
                0 <= b,
        ;
    }
}

} // verus!

verus! {

/// The indices `lo, lo + 1, ..., hi - 1`.
pub fn index_range(lo: usize, hi: usize) -> (v: Vec<usize>)
    requires
        lo <= hi,
    ensures
        v@.len() == hi - lo,
        forall|k: int| 0 <= k < v@.len() ==> v@[k] == lo + k,
{
    let mut v: Vec<usize> = Vec::new();
    let mut i: usize = lo;
    while i < hi
        invariant
            lo <= i <= hi,
            v@.len() == i - lo,
            forall|k: int| 0 <= k < v@.len() ==> v@[k] == lo + k,
        decreases hi - i,
    {
        v.push(i);
        i = i + 1;
    }
    v
}

impl<T: Copy> Matrix<T> {
    /// Every element strictly below the first sub-diagonal equals `z`.
    pub open spec fn is_upper_hessenberg_with(&self, z: T) -> bool {
        forall|i: int, j: int| 0 <= j && j + 1 < i && i < self.rows && j < self.cols ==> self.entry(i, j) == z
    }

    /// A square matrix with `o` on the diagonal and `z` elsewhere.
    pub open spec fn is_identity_with(&self, z: T, o: T) -> bool {
        &&& self.is_square()
        &&& forall|i: int, j: int| 0 <= i < self.rows && 0 <= j < self.cols
            ==> self.entry(i, j) == (if i == j { o } else { z })
    }

    /// Every element strictly above the diagonal equals `z`.
    pub open spec fn is_lower_triangular_with(&self, z: T) -> bool {
        forall|i: int, j: int| 0 <= i < j && i < self.rows && j < self.cols ==> self.entry(i, j) == z
    }

    /// Every element strictly below the diagonal equals `z`.
    pub open spec fn is_upper_triangular_with(&self, z: T) -> bool {
        forall|i: int, j: int| 0 <= j < i && i < self.rows && j < self.cols ==> self.entry(i, j) == z
    }

    /// Lower triangular with `z` and every diagonal element equal to `o`.
    pub open spec fn is_unit_lower_with(&self, z: T, o: T) -> bool {
        &&& self.is_lower_triangular_with(z)
        &&& forall|i: int| 0 <= i < self.rows && i < self.cols ==> self.entry(i, i) == o
    }

    /// Row `i` is row `sigma[i]` of the identity built from `z` and `o`.
    pub open spec fn permutes_identity(&self, sigma: Seq<usize>, z: T, o: T) -> bool {
        &&& sigma.len() == self.rows
        &&& forall|i: int, j: int| 0 <= i < self.rows && 0 <= j < self.cols
            ==> self.entry(i, j) == (if sigma[i] == j { o } else { z })
    }

    /// A square matrix with exactly one `o` in each row and column and `z` elsewhere.
    pub open spec fn is_permutation_with(&self, z: T, o: T) -> bool {
        &&& self.is_square()
        &&& exists|sigma: Seq<usize>| is_permutation(sigma, self.rows as int)
            && #[trigger] self.permutes_identity(sigma, z, o)
    }

    /// The sub-matrix made of the listed rows and columns, in the listed order.
    pub fn select(&self, rows: &Vec<usize>, cols: &Vec<usize>) -> (s: Matrix<T>)
        requires
            self.wf(),
            forall|k: int| 0 <= k < rows@.len() ==> rows@[k] < self.rows,
            forall|k: int| 0 <= k < cols@.len() ==> cols@[k] < self.cols,
            rows@.len() * cols@.len() <= usize::MAX,
        ensures
            s.wf(),
            s.rows == rows@.len(),
            s.cols == cols@.len(),
            forall|a: int, b: int| 0 <= a < s.rows && 0 <= b < s.cols
                ==> s.entry(a, b) == self.entry(rows@[a] as int, cols@[b] as int),
    {
        let nr = rows.len();
        let nc = cols.len();
        let mut data: Vec<T> = Vec::with_capacity(nr * nc);
        let mut a: usize = 0;
        while a < nr
            invariant
                a <= nr,
                nr == rows@.len(),
                nc == cols@.len(),
                nr * nc <= usize::MAX,
                self.wf(),
                forall|k: int| 0 <= k < rows@.len() ==> rows@[k] < self.rows,
                forall|k: int| 0 <= k < cols@.len() ==> cols@[k] < self.cols,
                data@.len() == a * nc,
                forall|x: int, y: int| 0 <= x < a && 0 <= y < nc
                    ==> data@[x * nc + y] == self.entry(rows@[x] as int, cols@[y] as int),
            decreases nr - a,
        {
            let mut b: usize = 0;
            while b < nc
                invariant
                    a < nr,
                    b <= nc,
                    nr == rows@.len(),
                    nc == cols@.len(),
                    nr * nc <= usize::MAX,
                    self.wf(),
                    forall|k: int| 0 <= k < rows@.len() ==> rows@[k] < self.rows,
                    forall|k: int| 0 <= k < cols@.len() ==> cols@[k] < self.cols,
                    data@.len() == a * nc + b,
                    forall|x: int, y: int| 0 <= x < a && 0 <= y < nc
                        ==> data@[x * nc + y] == self.entry(rows@[x] as int, cols@[y] as int),
                    forall|y: int| 0 <= y < b
                        ==> data@[a * nc + y] == self.entry(rows@[a as int] as int, cols@[y] as int),
                decreases nc - b,
            {
                let v = self.get(rows[a], cols[b]);
                proof {
                    lemma_index_in_bounds(nr as int, nc as int, a as int, b as int);
                }
                let ghost before = data@;
                data.push(v);
                proof {
                    assert forall|x: int, y: int| 0 <= x < a && 0 <= y < nc
                        implies #[trigger] data@[x * nc + y] == before[x * nc + y] by {
                        lemma_index_in_bounds(a as int, nc as int, x, y);
                    }
                }
                b = b + 1;
            }
            proof {
                assert((a + 1) * nc == a * nc + nc) by (nonlinear_arith);
                assert forall|x: int, y: int| 0 <= x < a + 1 && 0 <= y < nc
                    implies data@[x * nc + y] == self.entry(rows@[x] as int, cols@[y] as int) by {
                    lemma_index_in_bounds(a + 1, nc as int, x, y);
                }
            }
            a = a + 1;
        }
        Matrix { rows: nr, cols: nc, data }
    }

    /// The transpose.
    pub fn transpose(&self) -> (t: Matrix<T>)
        requires
            self.wf(),
        ensures
            t.wf(),
            t.rows == self.cols,
            t.cols == self.rows,
            forall|a: int, b: int| 0 <= a < t.rows && 0 <= b < t.cols ==> t.entry(a, b) == self.entry(b, a),
    {
        proof {
            assert(self.cols * self.rows == self.rows * self.cols) by (nonlinear_arith);
        }
        let ghost src = *self;
        let mut data: Vec<T> = Vec::new();
        let mut a: usize = 0;
        let n = self.rows;
        let m = self.cols;
        while a < m
            invariant
                a <= m,
                n == src.rows,
                m == src.cols,
                src == *self,
                self.wf(),
                data@.len() == a * n,
                forall|x: int, y: int| 0 <= x < a && 0 <= y < n ==> data@[x * n + y] == self.entry(y, x),
            decreases m - a,
        {
            let mut b: usize = 0;
            while b < n
                invariant
                    a < m,
                    b <= n,
                    src == *self,
                    n == src.rows,
                    m == src.cols,
                    self.wf(),
                    data@.len() == a * n + b,
                    forall|x: int, y: int| 0 <= x < a && 0 <= y < n ==> data@[x * n + y] == self.entry(y, x),
                    forall|y: int| 0 <= y < b ==> data@[a * n + y] == self.entry(y, a as int),
                decreases n - b,
            {
                let v = self.get(b, a);
                proof {
                    lemma_index_in_bounds(m as int, n as int, a as int, b as int);
                    assert(m * n == n * m) by (nonlinear_arith);
                }
                let ghost before = data@;
                data.push(v);
                proof {
                    assert forall|x: int, y: int| 0 <= x < a && 0 <= y < n
                        implies #[trigger] data@[x * n + y] == before[x * n + y] by {
                        lemma_index_in_bounds(a as int, n as int, x, y);
                    }
                }
                b = b + 1;
            }
            proof {
                assert((a + 1) * n == a * n + n) by (nonlinear_arith);
                assert forall|x: int, y: int| 0 <= x < a + 1 && 0 <= y < n
                    implies data@[x * n + y] == self.entry(y, x) by {
                    lemma_index_in_bounds(a + 1, n as int, x, y);
                }
            }
            a = a + 1;
        }
        proof {
            assert(m * n == n * m) by (nonlinear_arith);
        }
        Matrix { rows: m, cols: n, data }
    }

    /// The diagonal, `min(rows, cols)` elements long.
    pub fn diag(&self) -> (d: Vec<T>)
        requires
            self.wf(),
        ensures
            d@.len() == if self.rows < self.cols { self.rows as int } else { self.cols as int },
            forall|k: int| 0 <= k < d@.len() ==> d@[k] == self.entry(k, k),
    {
        let len: usize = if self.rows < self.cols { self.rows } else { self.cols };
        let mut d: Vec<T> = Vec::new();
        let mut k: usize = 0;
        while k < len
            invariant
                k <= len,
                len == if self.rows < self.cols { self.rows as int } else { self.cols as int },
                self.wf(),
                d@.len() == k,
                forall|t: int| 0 <= t < k ==> d@[t] == self.entry(t, t),
            decreases len - k,
        {
            d.push(self.get(k, k));
            k = k + 1;
        }
        d
    }
}

/// `sigma` maps `0..n` one to one onto `0..n`.
pub open spec fn is_permutation(sigma: Seq<usize>, n: int) -> bool {
    &&& sigma.len() == n
    &&& forall|i: int| 0 <= i < n ==> 0 <= #[trigger] sigma[i] < n
    &&& forall|i: int, j: int| 0 <= i < n && 0 <= j < n && i != j ==> sigma[i] != sigma[j]
    &&& forall|j: int| 0 <= j < n ==> #[trigger] hits(sigma, n, j)
}

/// Some position of `sigma` below `n` holds `j`.
pub open spec fn hits(sigma: Seq<usize>, n: int, j: int) -> bool {
    exists|i: int| 0 <= i < n && #[trigger] sigma[i] == j
}

/// Row `i` holds `o` in exactly one column and `z` in every other.
pub open spec fn row_has_single<T: Copy>(p: Matrix<T>, i: int, z: T, o: T) -> bool {
    exists|j: int| 0 <= j < p.cols && #[trigger] p.entry(i, j) == o
        && forall|k: int| 0 <= k < p.cols && k != j ==> p.entry(i, k) == z
}

/// Column `j` holds `o` in exactly one row and `z` in every other.
pub open spec fn col_has_single<T: Copy>(p: Matrix<T>, j: int, z: T, o: T) -> bool {
    exists|i: int| 0 <= i < p.rows && #[trigger] p.entry(i, j) == o
        && forall|k: int| 0 <= k < p.rows && k != i ==> p.entry(k, j) == z
}

/// A permutation matrix has, in each row and in each column, exactly one `o`,
/// and `z` everywhere else.
pub proof fn lemma_permutation_lines<T: Copy>(p: Matrix<T>, z: T, o: T)
    requires
        p.is_permutation_with(z, o),
    ensures
        forall|i: int| 0 <= i < p.rows ==> #[trigger] row_has_single(p, i, z, o),
        forall|j: int| 0 <= j < p.cols ==> #[trigger] col_has_single(p, j, z, o),
{
    let sigma = choose|sigma: Seq<usize>| is_permutation(sigma, p.rows as int)
        && #[trigger] p.permutes_identity(sigma, z, o);
    let n = p.rows as int;
    assert forall|i: int| 0 <= i < p.rows implies #[trigger] row_has_single(p, i, z, o) by {
        let j = sigma[i] as int;
        assert(0 <= sigma[i] < n);
        assert(p.entry(i, j) == o);
    }
    assert forall|j: int| 0 <= j < p.cols implies #[trigger] col_has_single(p, j, z, o) by {
        assert(hits(sigma, n, j));
        let i = choose|i: int| 0 <= i < n && #[trigger] sigma[i] == j;
        assert(p.entry(i, j) == o);
        assert forall|k: int| 0 <= k < p.rows && k != i implies p.entry(k, j) == z by {
            assert(sigma[k] != sigma[i]);
        }
    }
}

} // verus!

verus! {

impl<T: Copy> Matrix<T> {
    /// An `m x m` matrix that is the identity (from `off` and `on`) in its first
    /// `i` rows and columns and holds `block` in the trailing `(m - i) x (m - i)`
    /// corner.
    pub fn embed_lower_right(m: usize, i: usize, block: &Matrix<T>, off: T, on: T) -> (e: Matrix<T>)
        requires
            block.wf(),
            i <= m,
            block.rows == m - i,
            block.cols == m - i,
            m * m <= usize::MAX,
        ensures
            e.wf(),
            e.rows == m,
            e.cols == m,
            forall|a: int, b: int| 0 <= a < m && 0 <= b < m ==> e.entry(a, b) == (if a >= i && b >= i {
                block.entry(a - i, b - i)
            } else if a == b {
                on
            } else {
                off
            }),
    {
        let mut e = Matrix::diagonal_fill(m, off, on);
        let mut a: usize = i;
        while a < m
            invariant
                i <= a <= m,
                block.wf(),
                block.rows == m - i,
                block.cols == m - i,
                e.wf(),
                e.rows == m,
                e.cols == m,
                forall|x: int, y: int| 0 <= x < m && 0 <= y < m ==> e.entry(x, y) == (if i <= x < a && y >= i {
                    block.entry(x - i, y - i)
                } else if x == y {
                    on
                } else {
                    off
                }),
            decreases m - a,
        {
            let mut b: usize = i;
            while b < m
                invariant
                    i <= a < m,
                    i <= b <= m,
                    block.wf(),
                    block.rows == m - i,
                    block.cols == m - i,
                    e.wf(),
                    e.rows == m,
                    e.cols == m,
                    forall|x: int, y: int| 0 <= x < m && 0 <= y < m ==> e.entry(x, y) == (if (i <= x < a && y >= i) || (x == a && i <= y < b) {
                        block.entry(x - i, y - i)
                    } else if x == y {
                        on
                    } else {
                        off
                    }),
                decreases m - b,
            {
                let v = block.get(a - i, b - i);
                e.set(a, b, v);
                b = b + 1;
            }
            a = a + 1;
        }
        e
    }

    /// Overwrites the block whose top-left corner is at `(r0, c0)` with `block`;
    /// every element outside it is kept.
    pub fn write_block(&mut self, r0: usize, c0: usize, block: &Matrix<T>)
        requires
            old(self).wf(),
            block.wf(),
            r0 + block.rows <= old(self).rows,
            c0 + block.cols <= old(self).cols,
        ensures
            final(self).wf(),
            final(self).rows == old(self).rows,
            final(self).cols == old(self).cols,
            forall|a: int, b: int| 0 <= a < old(self).rows && 0 <= b < old(self).cols
                ==> final(self).entry(a, b) == (if r0 <= a < r0 + block.rows && c0 <= b < c0 + block.cols {
                    block.entry(a - r0, b - c0)
                } else {
                    old(self).entry(a, b)
                }),
    {
        let ghost before = *self;
        let mut a: usize = 0;
        while a < block.rows
            invariant
                a <= block.rows,
                block.wf(),
                r0 + block.rows <= before.rows,
                c0 + block.cols <= before.cols,
                self.wf(),
                self.rows == before.rows,
                self.cols == before.cols,
                forall|x: int, y: int| 0 <= x < before.rows && 0 <= y < before.cols
                    ==> self.entry(x, y) == (if r0 <= x < r0 + a && c0 <= y < c0 + block.cols {
                        block.entry(x - r0, y - c0)
                    } else {
                        before.entry(x, y)
                    }),
            decreases block.rows - a,
        {
            let mut b: usize = 0;
            while b < block.cols
                invariant
                    a < block.rows,
                    b <= block.cols,
                    block.wf(),
                    r0 + block.rows <= before.rows,
                    c0 + block.cols <= before.cols,
                    self.wf(),
                    self.rows == before.rows,
                    self.cols == before.cols,
                    forall|x: int, y: int| 0 <= x < before.rows && 0 <= y < before.cols
                        ==> self.entry(x, y) == (if (r0 <= x < r0 + a && c0 <= y < c0 + block.cols) || (x == r0 + a && c0 <= y < c0 + b) {
                            block.entry(x - r0, y - c0)
                        } else {
                            before.entry(x, y)
                        }),
                decreases block.cols - b,
            {
                let v = block.get(a, b);
                self.set(r0 + a, c0 + b, v);
                b = b + 1;
            }
            a = a + 1;
        }
    }

    /// Sets every element strictly below the diagonal to `z`; every other
    /// element is kept.
    pub fn zero_below_diagonal(&mut self, z: T)
        requires
            old(self).wf(),
        ensures
            final(self).wf(),
            final(self).rows == old(self).rows,
            final(self).cols == old(self).cols,
            final(self).is_upper_triangular_with(z),
            forall|a: int, b: int| 0 <= a < old(self).rows && 0 <= b < old(self).cols && a <= b
                ==> final(self).entry(a, b) == old(self).entry(a, b),
    {
        let ghost before = *self;
        let mut j: usize = 0;
        while j < self.cols
            invariant
                j <= self.cols,
                self.wf(),
                self.rows == before.rows,
                self.cols == before.cols,
                forall|x: int, y: int| 0 <= x < before.rows && 0 <= y < before.cols
                    ==> self.entry(x, y) == (if y < j && y < x { z } else { before.entry(x, y) }),
            decreases self.cols - j,
        {
            let mut i: usize = if j < self.rows { j + 1 } else { self.rows };
            while i < self.rows
                invariant
                    j < self.cols,
                    j + 1 <= i || i == self.rows,
                    i <= self.rows,
                    self.wf(),
                    self.rows == before.rows,
                    self.cols == before.cols,
                    forall|x: int, y: int| 0 <= x < before.rows && 0 <= y < before.cols
                        ==> self.entry(x, y) == (if (y < j && y < x) || (y == j && j + 1 <= x < i) {
                            z
                        } else {
                            before.entry(x, y)
                        }),
                decreases self.rows - i,
            {
                self.set(i, j, z);
                i = i + 1;
            }
            j = j + 1;
        }
    }

    /// Sets every element strictly below the first sub-diagonal to `z`; every
    /// other element is kept.
    pub fn zero_below_subdiagonal(&mut self, z: T)
        requires
            old(self).wf(),
        ensures
            final(self).wf(),
            final(self).rows == old(self).rows,
            final(self).cols == old(self).cols,
            final(self).is_upper_hessenberg_with(z),
            forall|a: int, b: int| 0 <= a < old(self).rows && 0 <= b < old(self).cols && !(b + 1 < a)
                ==> final(self).entry(a, b) == old(self).entry(a, b),
    {
        let ghost before = *self;
        let mut j: usize = 0;
        while j < self.cols
            invariant
                j <= self.cols,
                self.wf(),
                self.rows == before.rows,
                self.cols == before.cols,
                forall|x: int, y: int| 0 <= x < before.rows && 0 <= y < before.cols
                    ==> self.entry(x, y) == (if y < j && y + 1 < x { z } else { before.entry(x, y) }),
            decreases self.cols - j,
        {
            let mut i: usize = if j + 1 < self.rows { j + 2 } else { self.rows };
            while i < self.rows
                invariant
                    j < self.cols,
                    j + 2 <= i || i == self.rows,
                    i <= self.rows,
                    self.wf(),
                    self.rows == before.rows,
                    self.cols == before.cols,
                    forall|x: int, y: int| 0 <= x < before.rows && 0 <= y < before.cols
                        ==> self.entry(x, y) == (if (y < j && y + 1 < x) || (y == j && j + 2 <= x < i) {
                            z
                        } else {
                            before.entry(x, y)
                        }),
                decreases self.rows - i,
            {
                self.set(i, j, z);
                i = i + 1;
            }
            j = j + 1;
        }
    }
}

} // verus!
