use rusty_machine::eigen::Eigenvalues;
use rusty_machine::error::DecompError;
use rusty_machine::matrix::Matrix;
use rusty_machine::scalar::Scalar;

#[derive(Debug, Clone, Copy, PartialEq)]
struct F(f64);

impl Scalar for F {
    fn zero() -> Self {
        F(0.0)
    }
    fn one() -> Self {
        F(1.0)
    }
    fn from_u64(n: u64) -> Self {
        F(n as f64)
    }
    fn min_positive() -> Self {
        F(f64::MIN_POSITIVE)
    }
    fn plus(self, o: Self) -> Self {
        F(self.0 + o.0)
    }
    fn minus(self, o: Self) -> Self {
        F(self.0 - o.0)
    }
    fn times(self, o: Self) -> Self {
        F(self.0 * o.0)
    }
    fn divide(self, o: Self) -> Self {
        F(self.0 / o.0)
    }
    fn negate(self) -> Self {
        F(-self.0)
    }
    fn sqrt(self) -> Self {
        F(self.0.sqrt())
    }
    fn hypot(self, o: Self) -> Self {
        F(self.0.hypot(o.0))
    }
    fn abs(self) -> Self {
        F(self.0.abs())
    }
    fn signum(self) -> Self {
        F(self.0.signum())
    }
    fn less_than(self, o: Self) -> bool {
        self.0 < o.0
    }
    fn equals(self, o: Self) -> bool {
        self.0 == o.0
    }
    fn is_nan(self) -> bool {
        self.0.is_nan()
    }
}

fn mat(rows: usize, cols: usize, data: &[f64]) -> Matrix<F> {
    Matrix::new(rows, cols, data.iter().map(|&x| F(x)).collect())
}

fn at(m: &Matrix<F>, i: usize, j: usize) -> f64 {
    m.data[i * m.cols + j].0
}

fn close(a: &Matrix<F>, b: &Matrix<F>, tol: f64) -> bool {
    a.rows == b.rows
        && a.cols == b.cols
        && a.data.iter().zip(b.data.iter()).all(|(x, y)| (x.0 - y.0).abs() <= tol)
}

fn sorted(v: &[F]) -> Vec<f64> {
    let mut out: Vec<f64> = v.iter().map(|x| x.0).collect();
    out.sort_by(|a, b| a.partial_cmp(b).unwrap());
    out
}

#[test]
fn cholesky_round_trip() {
    let a = mat(3, 3, &[1.0, 0.5, 0.5, 0.5, 1.0, 0.5, 0.5, 0.5, 1.0]);
    let l = a.cholesky().unwrap();
    assert_eq!(at(&l, 0, 0), 1.0);
    for i in 0..3 {
        for j in i + 1..3 {
            assert_eq!(at(&l, i, j), 0.0);
        }
    }
    let back = l.mul(&l.transpose());
    assert!(close(&back, &a, 1e-10));
}

#[test]
fn cholesky_rejects_indefinite() {
    let a = mat(2, 2, &[1.0, 2.0, 2.0, 1.0]);
    assert_eq!(a.cholesky().unwrap_err(), DecompError::NotPositiveDefinite);
}

#[test]
fn cholesky_rejects_non_square() {
    let a = mat(2, 3, &[1.0, 0.0, 0.0, 0.0, 1.0, 0.0]);
    assert_eq!(a.cholesky().unwrap_err(), DecompError::Shape);
}

#[test]
fn cholesky_diagonal_exact() {
    let a = mat(2, 2, &[4.0, 2.0, 2.0, 5.0]);
    let l = a.cholesky().unwrap();
    assert_eq!(l.data.iter().map(|x| x.0).collect::<Vec<f64>>(), vec![2.0, 0.0, 1.0, 2.0]);
}

#[test]
fn householder_reflector_values() {
    let h = Matrix::make_householder(mat(2, 1, &[3.0, 4.0])).unwrap();
    let expected = mat(2, 2, &[-0.6, -0.8, -0.8, 0.6]);
    assert!(close(&h, &expected, 1e-12));
    let image = h.mul(&mat(2, 1, &[3.0, 4.0]));
    assert!(close(&image, &mat(2, 1, &[-5.0, 0.0]), 1e-12));
}

#[test]
fn householder_vector_values() {
    let v = Matrix::make_householder_vec(mat(2, 1, &[3.0, 4.0])).unwrap();
    let s = 1.25f64.sqrt();
    assert!(close(&v, &mat(2, 1, &[1.0 / s, 0.5 / s]), 1e-12));
}

#[test]
fn householder_errors() {
    assert_eq!(
        Matrix::make_householder(mat(2, 1, &[0.0, 0.0])).unwrap_err(),
        DecompError::NonDecomposable
    );
    assert_eq!(
        Matrix::make_householder(mat(1, 2, &[1.0, 2.0])).unwrap_err(),
        DecompError::Shape
    );
    assert_eq!(
        Matrix::make_householder_vec(mat(2, 1, &[0.0, 0.0])).unwrap_err(),
        DecompError::NonDecomposable
    );
    assert_eq!(
        Matrix::make_householder_vec(mat(1, 2, &[1.0, 2.0])).unwrap_err(),
        DecompError::Shape
    );
}

fn check_qr(a: &Matrix<F>) {
    let (q, r) = mat(a.rows, a.cols, &a.data.iter().map(|x| x.0).collect::<Vec<f64>>()).qr_decomp();
    assert_eq!((q.rows, q.cols), (a.rows, a.rows));
    assert_eq!((r.rows, r.cols), (a.rows, a.cols));
    assert!(close(&q.mul(&r), a, 1e-10));
    let id = Matrix::<F>::identity(a.rows);
    assert!(close(&q.transpose().mul(&q), &id, 1e-10));
    for i in 0..r.rows {
        for j in 0..i.min(r.cols) {
            assert_eq!(at(&r, i, j), 0.0);
        }
    }
}

#[test]
fn qr_round_trip_square() {
    check_qr(&mat(3, 3, &[1.0, 0.5, 0.5, 0.5, 1.0, 0.5, 0.5, 0.5, 1.0]));
    check_qr(&mat(3, 3, &[12.0, -51.0, 4.0, 6.0, 167.0, -68.0, -4.0, 24.0, -41.0]));
}

#[test]
fn qr_round_trip_rectangular() {
    check_qr(&mat(4, 2, &[1.0, 2.0, 3.0, 4.0, 5.0, 6.0, 7.0, 9.0]));
    check_qr(&mat(2, 3, &[1.0, 2.0, 3.0, 4.0, 5.0, 6.0]));
}

#[test]
fn qr_single_row() {
    let a = mat(1, 3, &[3.0, -1.0, 2.0]);
    let (q, r) = mat(1, 3, &[3.0, -1.0, 2.0]).qr_decomp();
    assert_eq!(q.data, vec![F(1.0)]);
    assert_eq!(r.data, a.data);
}

#[test]
fn qr_no_columns() {
    let a = mat(3, 0, &[]);
    let (q, r) = a.qr_decomp();
    assert!(close(&q, &Matrix::<F>::identity(3), 0.0));
    assert_eq!((r.rows, r.cols), (3, 0));
}

fn det3(m: &Matrix<F>) -> f64 {
    let e = |i, j| at(m, i, j);
    e(0, 0) * (e(1, 1) * e(2, 2) - e(1, 2) * e(2, 1)) - e(0, 1) * (e(1, 0) * e(2, 2) - e(1, 2) * e(2, 0))
        + e(0, 2) * (e(1, 0) * e(2, 1) - e(1, 1) * e(2, 0))
}

#[test]
fn hessenberg_similarity() {
    let a = mat(4, 4, &[2., 0., 1., 1., 2., 0., 1., 2., 1., 2., 0., 0., 2., 0., 1., 1.]);
    let h = a.upper_hessenberg().unwrap();
    for i in 0..4 {
        for j in 0..4 {
            if j + 1 < i {
                assert_eq!(at(&h, i, j), 0.0);
            }
        }
    }
    let trace = |m: &Matrix<F>| (0..m.rows).map(|i| at(m, i, i)).sum::<f64>();
    assert!((trace(&h) - trace(&a)).abs() < 1e-10);

    let b = mat(3, 3, &[4.0, 1.0, 2.0, 1.0, 3.0, 0.5, 2.0, 0.5, 5.0]);
    let hb = b.upper_hessenberg().unwrap();
    assert_eq!(at(&hb, 2, 0), 0.0);
    assert!((det3(&hb) - det3(&b)).abs() < 1e-9);
    assert!((trace(&hb) - trace(&b)).abs() < 1e-10);
    let eb = sorted(&b.eigenvalues().unwrap().values);
    let eh = sorted(&hb.eigenvalues().unwrap().values);
    for (x, y) in eb.iter().zip(eh.iter()) {
        assert!((x - y).abs() < 1e-8);
    }
}

#[test]
fn hessenberg_rejects_non_square() {
    assert_eq!(mat(1, 2, &[1.0, 2.0]).upper_hessenberg().unwrap_err(), DecompError::Shape);
}

#[test]
fn eigenvalues_of_diagonal() {
    let e: Eigenvalues<F> = mat(2, 2, &[2.0, 0.0, 0.0, 3.0]).eigenvalues().unwrap();
    let v = sorted(&e.values);
    assert!((v[0] - 2.0).abs() < 1e-8 && (v[1] - 3.0).abs() < 1e-8);
    assert_eq!(e.converged, vec![true, true]);

    let e = mat(2, 2, &[2.0, 0.0, 0.0, 2.0]).eigenvalues().unwrap();
    let v = sorted(&e.values);
    assert!((v[0] - 2.0).abs() < 1e-8 && (v[1] - 2.0).abs() < 1e-8);
}

#[test]
fn eigenvalues_of_symmetric_tridiagonal() {
    let a = mat(3, 3, &[4.0, 1.0, 0.0, 1.0, 3.0, 1.0, 0.0, 1.0, 1.0]);
    let e = a.eigenvalues().unwrap();
    assert_eq!(e.values.len(), 3);
    let sum: f64 = e.values.iter().map(|x| x.0).sum();
    let product: f64 = e.values.iter().map(|x| x.0).product();
    assert!((sum - 8.0).abs() < 1e-8);
    assert!((product - det3(&a)).abs() < 1e-8);
    for x in &e.values {
        let shifted = mat(3, 3, &[4.0 - x.0, 1.0, 0.0, 1.0, 3.0 - x.0, 1.0, 0.0, 1.0, 1.0 - x.0]);
        assert!(det3(&shifted).abs() < 1e-8);
    }
}

#[test]
fn eigenvalues_report_capped_iteration() {
    // After the exact eigenvalue 2 deflates, the trailing-diagonal shift makes
    // each QR step a permutation of [[2, r], [r, 2]] and the block never moves.
    let a = mat(3, 3, &[2.0, 1.0, 0.0, 1.0, 2.0, 1.0, 0.0, 1.0, 2.0]);
    let e = a.eigenvalues().unwrap();
    assert_eq!(e.converged, vec![true, false, true]);
    assert_eq!(e.iterations[1], 100);
    assert!((e.values[0].0 - 2.0).abs() < 1e-12);
}

#[test]
fn eigenvalues_edge_shapes() {
    assert_eq!(mat(2, 1, &[1.0, 2.0]).eigenvalues().unwrap_err(), DecompError::Shape);
    let e = mat(0, 0, &[]).eigenvalues().unwrap();
    assert!(e.values.is_empty());
    let e = mat(1, 1, &[7.0]).eigenvalues().unwrap();
    assert_eq!(e.values, vec![F(7.0)]);
}

#[test]
fn eigendecomp_diagonal() {
    let a = mat(3, 3, &[2.0, 0.0, 0.0, 0.0, 3.0, 0.0, 0.0, 0.0, 4.0]);
    let (values, vectors, sweeps, converged) = a.eigendecomp().unwrap();
    assert!(sweeps >= 1);
    let v = sorted(&values);
    for (x, y) in v.iter().zip([2.0, 3.0, 4.0].iter()) {
        assert!((x - y).abs() < 1e-8);
    }
    assert_eq!((vectors.rows, vectors.cols), (0, 0));
    assert!(converged);
    assert_eq!(mat(1, 2, &[1.0, 2.0]).eigendecomp().unwrap_err(), DecompError::Shape);
}

#[test]
fn lup_round_trip() {
    let a = mat(3, 3, &[1.0, 2.0, 0.0, 0.0, 3.0, 4.0, 5.0, 1.0, 2.0]);
    let (l, u, p) = a.lup_decomp().unwrap();
    assert!(close(&p.mul(&a), &l.mul(&u), 1e-10));
    assert_eq!(at(&p, 0, 2), 1.0);
    for i in 0..3 {
        assert_eq!(at(&l, i, i), 1.0);
        for j in i + 1..3 {
            assert_eq!(at(&l, i, j), 0.0);
        }
        for j in 0..i {
            assert_eq!(at(&u, i, j), 0.0);
        }
        let row: f64 = (0..3).map(|j| at(&p, i, j)).sum();
        let col: f64 = (0..3).map(|j| at(&p, j, i)).sum();
        assert_eq!((row, col), (1.0, 1.0));
    }
    assert!(p.data.iter().all(|x| x.0 == 0.0 || x.0 == 1.0));
}

#[test]
fn lup_singular() {
    let a = mat(2, 2, &[1.0, 2.0, 2.0, 4.0]);
    assert_eq!(a.lup_decomp().unwrap_err(), DecompError::SingularMatrix);
}

#[test]
fn lup_rejects_non_square() {
    let a = mat(2, 1, &[1.0, 2.0]);
    assert_eq!(a.lup_decomp().unwrap_err(), DecompError::Shape);
}

#[test]
fn balancing_is_idempotent() {
    let mut a = mat(3, 3, &[1.0, 100.0, 1000.0, 0.01, 2.0, 50.0, 0.001, 0.1, 3.0]);
    assert!(a.balance_matrix());
    let once = a.data.clone();
    assert!(a.balance_matrix());
    assert_eq!(a.data, once);
    assert!(!a.balance_sweep());
    assert_eq!(a.data, once);
}

#[test]
fn balance_sweep_reports_rescaling() {
    let mut a = mat(2, 2, &[1.0, 64.0, 1.0 / 64.0, 1.0]);
    assert!(a.balance_sweep());
    assert_ne!(a.data, mat(2, 2, &[1.0, 64.0, 1.0 / 64.0, 1.0]).data);
    let mut zero = mat(2, 2, &[0.0, 0.0, 0.0, 0.0]);
    assert!(!zero.balance_sweep());
}

#[test]
fn balancing_equalises_norms() {
    let mut a = mat(2, 2, &[1.0, 64.0, 1.0 / 64.0, 1.0]);
    a.balance_matrix();
    assert!(close(&a, &mat(2, 2, &[1.0, 2.0, 0.5, 1.0]), 0.0));
}

#[test]
fn givens_rotation_values() {
    let (c, s) = Matrix::givens_rot(F(3.0), F(4.0));
    assert!((c.0 - 0.6).abs() < 1e-12);
    assert!((s.0 + 0.8).abs() < 1e-12);
}

#[test]
fn block_operations() {
    let a = mat(3, 3, &[1., 2., 3., 4., 5., 6., 7., 8., 9.]);
    let s = a.select(&vec![2, 0], &vec![1]);
    assert_eq!(s.data, vec![F(8.0), F(2.0)]);
    let mut b = a.transpose();
    assert_eq!(at(&b, 0, 2), 7.0);
    b.write_block(1, 1, &mat(1, 2, &[0.5, 0.25]));
    assert_eq!(at(&b, 1, 1), 0.5);
    assert_eq!(at(&b, 1, 2), 0.25);
    b.zero_below_subdiagonal(F(0.0));
    assert_eq!(at(&b, 2, 0), 0.0);
    assert_eq!(at(&b, 2, 1), 6.0);
    let e = Matrix::embed_lower_right(3, 1, &mat(2, 2, &[5., 6., 7., 8.]), F(0.0), F(1.0));
    assert_eq!(e.data.iter().map(|x| x.0).collect::<Vec<f64>>(), vec![1., 0., 0., 0., 5., 6., 0., 7., 8.]);
    assert_eq!(a.diag(), vec![F(1.0), F(5.0), F(9.0)]);
}

#[test]
fn lup_pivot_tie_keeps_first_row() {
    let a = mat(2, 2, &[1.0, 2.0, -1.0, 3.0]);
    let (l, u, p) = a.lup_decomp().unwrap();
    assert_eq!(p.data, vec![F(1.0), F(0.0), F(0.0), F(1.0)]);
    assert_eq!(l.data, vec![F(1.0), F(0.0), F(-1.0), F(1.0)]);
    assert_eq!(u.data, vec![F(1.0), F(2.0), F(0.0), F(5.0)]);
}
