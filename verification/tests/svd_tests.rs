use csvd::{check_matrix_equality, check_pinv, csvd, find_orig_matrix_from_svd, find_pinv_from_svd, matrix_mult, pinv};
use num_complex::Complex32;

fn c(re: f32, im: f32) -> Complex32 {
    Complex32 { re, im }
}

fn zeros(len: usize) -> Vec<Complex32> {
    vec![c(0.0, 0.0); len]
}

/// The 3x3 complex matrix of the concrete scenario, row-major.
fn sample_3x3() -> Vec<Complex32> {
    vec![
        c(0.4032, 0.0876),
        c(0.1678, 0.0390),
        c(0.5425, 0.5118),
        c(0.3174, 0.3352),
        c(0.9784, 0.4514),
        c(-0.4416, -1.3188),
        c(0.4008, -0.0504),
        c(0.0979, -0.2558),
        c(0.2983, 0.7800),
    ]
}

/// A 4x3 complex matrix, row-major: the scenario matrix with one more row.
fn sample_4x3() -> Vec<Complex32> {
    let mut a = sample_3x3();
    a.push(c(0.1395, -0.6213));
    a.push(c(0.012, -0.3587));
    a.push(c(0.7536, 0.4729));
    a
}

/// Reconstructs `u * diag(s) * v^*` from the first `min(m, n)` triplets,
/// row-major `m` by `n`; `u` is `m` by `m`, `v` is `n` by `n`.
fn reconstruct(s: &[Complex32], u: &[Complex32], v: &[Complex32], m: usize, n: usize) -> Vec<Complex32> {
    let min = if m < n { m } else { n };
    let mut a = zeros(m * n);
    for i in 0..m {
        for j in 0..n {
            for k in 0..min {
                a[i * n + j] = a[i * n + j] + u[i * m + k] * s[k].re * v[j * n + k].conj();
            }
        }
    }
    a
}

/// Squared euclidean distance between entries stays below `eps` everywhere.
fn matrices_close(a: &[Complex32], b: &[Complex32], m: usize, n: usize, eps: f32) -> bool {
    for i in 0..m {
        for j in 0..n {
            let d = a[i * n + j] - b[i * n + j];
            if d.re * d.re + d.im * d.im > eps {
                return false;
            }
        }
    }
    true
}

fn run_csvd(a: &mut Vec<Complex32>, m: usize, n: usize) -> (Vec<Complex32>, Vec<Complex32>, Vec<Complex32>) {
    let mut s = zeros(n);
    let mut u = zeros(m * m);
    let mut v = zeros(n * n);
    csvd(a, m, n, 0, m, n, &mut s, &mut u, &mut v).expect("decomposition should succeed");
    (s, u, v)
}

#[test]
fn singular_values_sorted_nonnegative_3x3() {
    let mut a = sample_3x3();
    let (s, _u, _v) = run_csvd(&mut a, 3, 3);
    for k in 0..3 {
        assert!(s[k].re >= 0.0, "singular value {} is negative: {}", k, s[k].re);
        assert!(s[k].im == 0.0);
    }
    assert!(s[0].re >= s[1].re && s[1].re >= s[2].re, "not sorted descending");
    // The scenario matrix is built to have singular values near 2, 1 and 0.
    assert!((s[0].re - 2.0).abs() < 1e-3, "largest singular value: {}", s[0].re);
    assert!((s[1].re - 1.0).abs() < 1e-3, "middle singular value: {}", s[1].re);
    assert!(s[2].re < 1e-3, "smallest singular value: {}", s[2].re);
}

#[test]
fn singular_values_sorted_nonnegative_4x3() {
    let mut a = sample_4x3();
    let (s, _u, _v) = run_csvd(&mut a, 4, 3);
    for k in 0..3 {
        assert!(s[k].re >= 0.0);
    }
    assert!(s[0].re >= s[1].re && s[1].re >= s[2].re);
}

#[test]
fn reconstruction_3x3() {
    let orig = sample_3x3();
    let mut a = orig.clone();
    let (s, u, v) = run_csvd(&mut a, 3, 3);
    let rebuilt = reconstruct(&s, &u, &v, 3, 3);
    assert!(matrices_close(&orig, &rebuilt, 3, 3, 1e-4), "U S V* does not reproduce A");
}

#[test]
fn reconstruction_4x3() {
    let orig = sample_4x3();
    let mut a = orig.clone();
    let (s, u, v) = run_csvd(&mut a, 4, 3);
    let rebuilt = reconstruct(&s, &u, &v, 4, 3);
    assert!(matrices_close(&orig, &rebuilt, 4, 3, 1e-4), "U S V* does not reproduce A");
}

fn check_orthonormal(w: &[Complex32], dim: usize, cols: usize, tol: f32) {
    for p in 0..cols {
        for q in 0..cols {
            let mut dot = c(0.0, 0.0);
            for i in 0..dim {
                dot = dot + w[i * dim + p].conj() * w[i * dim + q];
            }
            let want = if p == q { 1.0 } else { 0.0 };
            assert!(
                (dot.re - want).abs() < tol && dot.im.abs() < tol,
                "columns {} and {}: inner product {} + {}i",
                p,
                q,
                dot.re,
                dot.im
            );
        }
    }
}

#[test]
fn factors_orthonormal_3x3() {
    let mut a = sample_3x3();
    let (_s, u, v) = run_csvd(&mut a, 3, 3);
    check_orthonormal(&u, 3, 3, 1e-3);
    check_orthonormal(&v, 3, 3, 1e-3);
}

#[test]
fn factors_orthonormal_4x3() {
    let mut a = sample_4x3();
    let (_s, u, v) = run_csvd(&mut a, 4, 3);
    check_orthonormal(&u, 4, 4, 1e-3);
    check_orthonormal(&v, 3, 3, 1e-3);
}

#[test]
fn pseudo_inverse_recovers_matrix() {
    // A * INV * A must reproduce A (the defining Moore-Penrose property).
    let orig = sample_3x3();
    let mut a = orig.clone();
    let mut inv = zeros(9);
    pinv(&mut a, &mut inv, 3, 3).expect("pinv should succeed");

    let mut prod = zeros(9);
    matrix_mult(&orig, 3, 3, &inv, 3, 3, &mut prod).unwrap();
    let mut back = zeros(9);
    matrix_mult(&prod, 3, 3, &orig, 3, 3, &mut back).unwrap();
    assert!(matrices_close(&orig, &back, 3, 3, 1e-4), "A INV A differs from A");
}

#[test]
fn pseudo_inverse_of_nonsingular_is_inverse() {
    // For a square non-singular matrix, A * INV and INV * A are both the
    // identity within tolerance. The scenario matrix does not qualify (its
    // smallest singular value sits below the reciprocal cutoff), so a
    // diagonally dominant matrix stands in.
    let orig = vec![
        c(3.0, 1.0),
        c(0.5, 0.0),
        c(0.1, -0.2),
        c(0.2, 0.1),
        c(2.0, -0.5),
        c(0.0, 0.3),
        c(0.0, 0.0),
        c(0.1, 0.0),
        c(2.5, 0.2),
    ];
    let mut a = orig.clone();
    let mut inv = zeros(9);
    pinv(&mut a, &mut inv, 3, 3).expect("pinv should succeed");

    let mut left = zeros(9);
    matrix_mult(&orig, 3, 3, &inv, 3, 3, &mut left).unwrap();
    let mut right = zeros(9);
    matrix_mult(&inv, 3, 3, &orig, 3, 3, &mut right).unwrap();
    let mut ident = zeros(9);
    for i in 0..3 {
        ident[i * 3 + i] = c(1.0, 0.0);
    }
    assert!(matrices_close(&left, &ident, 3, 3, 1e-3), "A INV is not the identity");
    assert!(matrices_close(&right, &ident, 3, 3, 1e-3), "INV A is not the identity");
}

#[test]
fn zero_row_gives_zero_singular_value() {
    // Rank-deficient input: the last row is zero.
    let mut a = sample_3x3();
    for j in 0..3 {
        a[2 * 3 + j] = c(0.0, 0.0);
    }
    let orig = a.clone();
    let (mut s, u, v) = run_csvd(&mut a, 3, 3);
    assert!(s[2].re.abs() < 1e-4, "smallest singular value should vanish: {}", s[2].re);

    // The reciprocal step must map the negligible entry to exactly zero,
    // never to an infinity or a NaN.
    let mut inv = zeros(9);
    find_pinv_from_svd(&mut s, &u, &v, 3, 3, &mut inv);
    assert_eq!(s[2].re, 0.0);
    for e in inv.iter() {
        assert!(e.re.is_finite() && e.im.is_finite(), "pseudo-inverse holds a non-finite entry");
    }

    // And the Moore-Penrose property still holds for the rank-deficient input.
    let mut prod = zeros(9);
    matrix_mult(&orig, 3, 3, &inv, 3, 3, &mut prod).unwrap();
    let mut back = zeros(9);
    matrix_mult(&prod, 3, 3, &orig, 3, 3, &mut back).unwrap();
    assert!(matrices_close(&orig, &back, 3, 3, 1e-4), "A INV A differs from A");
}

#[test]
fn library_reconstruction_matches_local_one() {
    let orig = sample_3x3();
    let mut a = orig.clone();
    let (s, u, v) = run_csvd(&mut a, 3, 3);
    let local = reconstruct(&s, &u, &v, 3, 3);
    let mut lib = zeros(9);
    find_orig_matrix_from_svd(&s, &u, &v, 3, 3, &mut lib);
    for k in 0..9 {
        assert_eq!(local[k], lib[k]);
    }
    assert!(check_matrix_equality(&orig, &lib, 3, 3));
}

#[test]
fn equality_check_spots_differences() {
    let a = sample_3x3();
    assert!(check_matrix_equality(&a, &a, 3, 3));
    let mut b = a.clone();
    b[4] = b[4] + c(0.5, 0.0);
    assert!(!check_matrix_equality(&a, &b, 3, 3));
}

#[test]
fn round_trip_check_accepts_samples() {
    let mut a = sample_3x3();
    assert!(check_pinv(&mut a, 3, 3), "round trip failed on the scenario matrix");

    // The Moore-Penrose property holds for a rank-deficient matrix too.
    let mut d = sample_3x3();
    for j in 0..3 {
        d[2 * 3 + j] = c(0.0, 0.0);
    }
    assert!(check_pinv(&mut d, 3, 3), "round trip failed on the rank-deficient matrix");

    let mut r = sample_4x3();
    assert!(check_pinv(&mut r, 4, 3), "round trip failed on the rectangular matrix");
}

#[test]
fn zero_requested_columns_leave_factors_untouched() {
    // With nu == 0 and nv == 0 the factor buffers are never written.
    let mut a = sample_3x3();
    let mut s = zeros(3);
    let mut u: Vec<Complex32> = (0..5).map(|k| c(k as f32, -1.0)).collect();
    let mut v: Vec<Complex32> = (0..2).map(|k| c(-2.0, k as f32)).collect();
    let u_before = u.clone();
    let v_before = v.clone();
    csvd(&mut a, 3, 3, 0, 0, 0, &mut s, &mut u, &mut v).expect("decomposition should succeed");
    assert_eq!(u, u_before);
    assert_eq!(v, v_before);
    // The singular values are still produced, sorted and non-negative.
    assert!(s[0].re >= s[1].re && s[1].re >= s[2].re && s[2].re >= 0.0);
    assert!((s[0].re - 2.0).abs() < 1e-3);
}
