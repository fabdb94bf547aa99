//! The SVD engine: Householder bidiagonalization of a complex matrix,
//! implicit-shift QR diagonalization of the real bidiagonal form, sorting of
//! the singular values, and back-transformation of the unitary factors.
//!
//! The matrix `a` is a flattened row-major `m` by `n + p` buffer: entry
//! `(i, j)` lives at `a[i * (n + p) + j]`. The factor `u` is `m` by `m`
//! row-major (its first `nu` columns are produced), `v` is `n` by `n`
//! row-major (its first `nv` columns are produced).

use vstd::prelude::*;
use vstd::pervasive::VecAdditionalExecFns;

use num_complex::Complex32;

use crate::NBIG;
use crate::error::SvdError;
use crate::layout::{lemma_cols_le_len, lemma_flat_decompose, lemma_flat_index, lemma_grid_update, lemma_swap_preserves_multiset, mat_at};
use crate::scalar::{
    c32_of_u32, cabs, cabs_of, cx_add, cx_add_of, cx_conj, cx_conj_of, cx_mul, cx_mul_of, cx_neg,
    cx_neg_of, cx_scale, cx_scale_of, cx_sub, cx_sub_of, cx_unscale, cx_unscale_of, im_part,
    im_part_of, re_abs, re_abs_of, re_add, re_add_of, re_div, re_div_of, re_eq, re_eq_of, re_le,
    re_le_of, re_lt, re_lt_of, re_max, re_max_of, re_mul, re_mul_of, re_neg, re_neg_of, re_of_u32,
    re_part, re_part_of, re_powf, re_powf_of, re_sqrt, re_sqrt_of, re_sub, re_sub_of,
};

verus! {

/// Cap on the number of shifted QR sweeps spent on one trailing index.
/// Convergence takes a handful of sweeps on ordinary input; the cap keeps
/// every call to the engine terminating even on adversarial rounding.
pub const QR_SWEEP_LIMIT: usize = 60;

/// Whether the dimensions pass every check that `csvd` makes before it
/// touches any buffer.
pub open spec fn dims_ok(m: int, n: int) -> bool {
    &&& 1 <= n
    &&& n <= NBIG
    &&& 1 <= m
    &&& n <= m
}

/// The exact outcome of the dimension validation, in the order the checks
/// are made: `n` too small, `n` over capacity, `m` too small, `m < n`.
pub open spec fn csvd_status(m: int, n: int) -> Result<(), SvdError> {
    if n < 1 {
        Err(SvdError::NLessThanOne)
    } else if n > NBIG {
        Err(SvdError::NExceedsCapacity)
    } else if m < 1 {
        Err(SvdError::MLessThanOne)
    } else if m < n {
        Err(SvdError::MLessThanN)
    } else {
        Ok(())
    }
}


/// The threshold below which a sub-column or sub-row is treated as already
/// zero during the reduction.
pub open spec fn householder_tol() -> Complex32 {
    re_mul_of(
        re_div_of(c32_of_u32(3), c32_of_u32(2)),
        re_powf_of(c32_of_u32(10), re_neg_of(c32_of_u32(31))),
    )
}

/// Squared-magnitude sum of rows `lo..i` of column `c`, accumulated in the
/// reduction's order.
pub open spec fn col_norm_fold(a: Seq<Complex32>, cols: int, c: int, lo: int, i: int) -> Complex32
    decreases i - lo,
{
    if i <= lo {
        c32_of_u32(0)
    } else {
        let e = a[(i - 1) * cols + c];
        re_add_of(
            re_add_of(
                col_norm_fold(a, cols, c, lo, i - 1),
                re_powf_of(re_part_of(e), c32_of_u32(2)),
            ),
            re_powf_of(im_part_of(e), c32_of_u32(2)),
        )
    }
}

/// Squared-magnitude sum of columns `lo..j` of row `r`.
pub open spec fn row_norm_fold(a: Seq<Complex32>, cols: int, r: int, lo: int, j: int) -> Complex32
    decreases j - lo,
{
    if j <= lo {
        c32_of_u32(0)
    } else {
        let e = a[r * cols + (j - 1)];
        re_add_of(
            re_add_of(
                row_norm_fold(a, cols, r, lo, j - 1),
                re_powf_of(re_part_of(e), c32_of_u32(2)),
            ),
            re_powf_of(im_part_of(e), c32_of_u32(2)),
        )
    }
}

/// Inner product of `conj(column c)` with column `j`, over rows `lo..i`.
pub open spec fn col_dot_fold(a: Seq<Complex32>, cols: int, c: int, j: int, lo: int, i: int) -> Complex32
    decreases i - lo,
{
    if i <= lo {
        c32_of_u32(0)
    } else {
        cx_add_of(
            col_dot_fold(a, cols, c, j, lo, i - 1),
            cx_mul_of(cx_conj_of(a[(i - 1) * cols + c]), a[(i - 1) * cols + j]),
        )
    }
}

/// Inner product of `conj(row r)` with row `i`, over columns `lo..j`.
pub open spec fn row_dot_fold(a: Seq<Complex32>, cols: int, r: int, i: int, lo: int, j: int) -> Complex32
    decreases j - lo,
{
    if j <= lo {
        c32_of_u32(0)
    } else {
        cx_add_of(
            row_dot_fold(a, cols, r, i, lo, j - 1),
            cx_mul_of(cx_conj_of(a[r * cols + (j - 1)]), a[i * cols + (j - 1)]),
        )
    }
}

/// Rows `lo..i` of column `j` after subtracting `q` times column `c`.
pub open spec fn col_update_fold(
    a: Seq<Complex32>,
    cols: int,
    c: int,
    j: int,
    q: Complex32,
    lo: int,
    i: int,
) -> Seq<Complex32>
    decreases i - lo,
{
    if i <= lo {
        a
    } else {
        let prev = col_update_fold(a, cols, c, j, q, lo, i - 1);
        prev.update(
            (i - 1) * cols + j,
            cx_sub_of(prev[(i - 1) * cols + j], cx_mul_of(q, prev[(i - 1) * cols + c])),
        )
    }
}

/// Columns `lo..j` of row `i` after subtracting `q` times row `r`.
pub open spec fn row_update_fold(
    a: Seq<Complex32>,
    cols: int,
    r: int,
    i: int,
    q: Complex32,
    lo: int,
    j: int,
) -> Seq<Complex32>
    decreases j - lo,
{
    if j <= lo {
        a
    } else {
        let prev = row_update_fold(a, cols, r, i, q, lo, j - 1);
        prev.update(
            i * cols + (j - 1),
            cx_sub_of(prev[i * cols + (j - 1)], cx_mul_of(q, prev[r * cols + (j - 1)])),
        )
    }
}

/// The column reflector at `k` applied to columns `k+1..j`, each column
/// first dotted against column `k` over rows `k..m`.
pub open spec fn col_apply_fold(
    a: Seq<Complex32>,
    cols: int,
    m: int,
    k: int,
    denom: Complex32,
    j: int,
) -> Seq<Complex32>
    decreases j - (k + 1),
{
    if j <= k + 1 {
        a
    } else {
        let prev = col_apply_fold(a, cols, m, k, denom, j - 1);
        let q = cx_unscale_of(col_dot_fold(prev, cols, k, j - 1, k, m), denom);
        col_update_fold(prev, cols, k, j - 1, q, k, m)
    }
}

/// The row reflector at row `r` (pivot column `r+1`) applied to rows
/// `r+1..i`, over the active columns `r+1..n`.
pub open spec fn row_apply_fold(
    a: Seq<Complex32>,
    cols: int,
    n: int,
    r: int,
    denom: Complex32,
    i: int,
) -> Seq<Complex32>
    decreases i - (r + 1),
{
    if i <= r + 1 {
        a
    } else {
        let prev = row_apply_fold(a, cols, n, r, denom, i - 1);
        let q = cx_unscale_of(row_dot_fold(prev, cols, r, i - 1, r + 1, n), denom);
        row_update_fold(prev, cols, r, i - 1, q, r + 1, n)
    }
}

/// Columns `lo..j` of row `k` scaled by `qp` on the left.
pub open spec fn row_scale_fold(
    a: Seq<Complex32>,
    cols: int,
    k: int,
    qp: Complex32,
    lo: int,
    j: int,
) -> Seq<Complex32>
    decreases j - lo,
{
    if j <= lo {
        a
    } else {
        let prev = row_scale_fold(a, cols, k, qp, lo, j - 1);
        prev.update(k * cols + (j - 1), cx_mul_of(qp, prev[k * cols + (j - 1)]))
    }
}

/// Rows `lo..i` of column `c` scaled by `qp` on the right.
pub open spec fn col_scale_fold(
    a: Seq<Complex32>,
    cols: int,
    c: int,
    qp: Complex32,
    lo: int,
    i: int,
) -> Seq<Complex32>
    decreases i - lo,
{
    if i <= lo {
        a
    } else {
        let prev = col_scale_fold(a, cols, c, qp, lo, i - 1);
        prev.update((i - 1) * cols + c, cx_mul_of(prev[(i - 1) * cols + c], qp))
    }
}

/// What one column elimination leaves behind: the transformed matrix and
/// the diagonal magnitude recorded in `b[k]`.
pub open spec fn col_eliminate_spec(
    a: Seq<Complex32>,
    m: int,
    n: int,
    p: int,
    k: int,
    tol: Complex32,
) -> (Seq<Complex32>, Complex32) {
    let cols = n + p;
    let z0 = col_norm_fold(a, cols, k, k, m);
    if !re_lt_of(tol, z0) {
        (a, c32_of_u32(0))
    } else {
        let z = re_sqrt_of(z0);
        let wmag = cabs_of(a[k * cols + k]);
        let q0 = if re_eq_of(wmag, c32_of_u32(0)) {
            c32_of_u32(1)
        } else {
            cx_unscale_of(a[k * cols + k], wmag)
        };
        let a1 = a.update(k * cols + k, cx_scale_of(q0, re_add_of(z, wmag)));
        if k != n - 1 + p {
            let denom = re_mul_of(z, re_add_of(z, wmag));
            let a2 = col_apply_fold(a1, cols, m, k, denom, n + p);
            let qp = cx_unscale_of(cx_neg_of(cx_conj_of(a2[k * cols + k])), cabs_of(a2[k * cols + k]));
            (row_scale_fold(a2, cols, k, qp, k + 1, n + p), z)
        } else {
            (a1, z)
        }
    }
}

/// What one row elimination leaves behind: the transformed matrix and the
/// super-diagonal magnitude recorded in `c[k+1]`.
pub open spec fn row_eliminate_spec(
    a: Seq<Complex32>,
    m: int,
    n: int,
    p: int,
    k: int,
    tol: Complex32,
) -> (Seq<Complex32>, Complex32) {
    let cols = n + p;
    let z0 = row_norm_fold(a, cols, k, k + 1, n);
    if !re_lt_of(tol, z0) {
        (a, c32_of_u32(0))
    } else {
        let z = re_sqrt_of(z0);
        let wmag = cabs_of(a[k * cols + (k + 1)]);
        let q0 = if re_eq_of(wmag, c32_of_u32(0)) {
            c32_of_u32(1)
        } else {
            cx_unscale_of(a[k * cols + (k + 1)], wmag)
        };
        let a1 = a.update(k * cols + (k + 1), cx_scale_of(q0, re_add_of(z, wmag)));
        let denom = re_mul_of(z, re_add_of(z, wmag));
        let a2 = row_apply_fold(a1, cols, n, k, denom, m);
        let qp = cx_unscale_of(
            cx_neg_of(cx_conj_of(a2[k * cols + (k + 1)])),
            cabs_of(a2[k * cols + (k + 1)]),
        );
        (col_scale_fold(a2, cols, k + 1, qp, k + 1, m), z)
    }
}

/// Phase 1 as a whole: columns `0..k` eliminated in order, each followed
/// by its row elimination while one fits, with the recorded magnitudes.
pub open spec fn householder_fold(
    a: Seq<Complex32>,
    b: Seq<Complex32>,
    c: Seq<Complex32>,
    m: int,
    n: int,
    p: int,
    k: int,
) -> (Seq<Complex32>, Seq<Complex32>, Seq<Complex32>)
    decreases k,
{
    if k <= 0 {
        (a, b, c)
    } else {
        let prev = householder_fold(a, b, c, m, n, p, k - 1);
        let ce = col_eliminate_spec(prev.0, m, n, p, k - 1, householder_tol());
        let b1 = prev.1.update(k - 1, ce.1);
        if k < n {
            let re = row_eliminate_spec(ce.0, m, n, p, k - 1, householder_tol());
            (re.0, b1, prev.2.update(k, re.1))
        } else {
            (ce.0, b1, prev.2)
        }
    }
}

/// Eliminates `a[k+1..m, k]` with a complex Householder reflector, applies
/// the reflector to the remaining columns (including the `p` auxiliary
/// ones), and applies the phase correction that makes the pivot real.
/// Returns the value for the diagonal-magnitude entry `b[k]`.
fn col_eliminate(
    a: &mut Vec<Complex32>,
    m: usize,
    n: usize,
    p: usize,
    k: usize,
    tol: Complex32,
) -> (bk: Complex32)
    requires
        1 <= n,
        n <= m,
        k < n,
        old(a).len() == m * (n + p),
    ensures
        final(a).len() == old(a).len(),
        final(a)@ == col_eliminate_spec(old(a)@, m as int, n as int, p as int, k as int, tol).0,
        bk == col_eliminate_spec(old(a)@, m as int, n as int, p as int, k as int, tol).1,
{
    let ghost a_in = a@;
    let zero: Complex32 = re_of_u32(0);
    let one: Complex32 = re_of_u32(1);
    let two: Complex32 = re_of_u32(2);
    proof {
        lemma_cols_le_len(m as int, n as int + p as int);
    }
    let cols: usize = n + p;

    let mut z: Complex32 = zero;
    let mut i: usize = k;
    while i < m
        invariant
            k <= i <= m,
            k < n <= m,
            a.len() == m * (n + p),
            a@ == a_in,
            cols == n + p,
            two == c32_of_u32(2),
            z == col_norm_fold(a_in, cols as int, k as int, k as int, i as int),
        decreases m - i,
    {
        proof {
            lemma_flat_index(i as int, k as int, m as int, cols as int);
        }
        let e: Complex32 = a[i * cols + k];
        z = re_add(re_add(z, re_powf(re_part(e), two)), re_powf(im_part(e), two));
        i += 1;
    }

    let mut bk: Complex32 = zero;
    if re_lt(tol, z) {
        z = re_sqrt(z);
        bk = z;
        proof {
            lemma_flat_index(k as int, k as int, m as int, cols as int);
        }
        let wmag: Complex32 = cabs(a[k * cols + k]);
        let q0: Complex32 = if re_eq(wmag, zero) {
            one
        } else {
            cx_unscale(a[k * cols + k], wmag)
        };
        a.set(k * cols + k, cx_scale(q0, re_add(z, wmag)));
        let ghost a1 = a@;

        if k != n - 1 + p {
            let ghost denom_s = re_mul_of(z, re_add_of(z, wmag));
            let k1: usize = k + 1;
            let mut j: usize = k1;
            while j < cols
                invariant
                    k1 <= j <= cols,
                    k < n <= m,
                    k1 == k + 1,
                    a.len() == m * (n + p),
                    cols == n + p,
                    a@ == col_apply_fold(a1, cols as int, m as int, k as int, denom_s, j as int),
                    denom_s == re_mul_of(z, re_add_of(z, wmag)),
                decreases cols - j,
            {
                let ghost prev = a@;
                let mut q: Complex32 = re_of_u32(0);
                let mut i2: usize = k;
                while i2 < m
                    invariant
                        k <= i2 <= m,
                        k < n <= m,
                        j < cols,
                        a.len() == m * (n + p),
                        cols == n + p,
                        a@ == prev,
                        q == col_dot_fold(
                            prev,
                            cols as int,
                            k as int,
                            j as int,
                            k as int,
                            i2 as int,
                        ),
                    decreases m - i2,
                {
                    proof {
                        lemma_flat_index(i2 as int, k as int, m as int, cols as int);
                        lemma_flat_index(i2 as int, j as int, m as int, cols as int);
                    }
                    q = cx_add(q, cx_mul(cx_conj(a[i2 * cols + k]), a[i2 * cols + j]));
                    i2 += 1;
                }
                q = cx_unscale(q, re_mul(z, re_add(z, wmag)));
                let mut i3: usize = k;
                while i3 < m
                    invariant
                        k <= i3 <= m,
                        k < n <= m,
                        j < cols,
                        a.len() == m * (n + p),
                        cols == n + p,
                        a@ == col_update_fold(
                            prev,
                            cols as int,
                            k as int,
                            j as int,
                            q,
                            k as int,
                            i3 as int,
                        ),
                    decreases m - i3,
                {
                    proof {
                        lemma_flat_index(i3 as int, k as int, m as int, cols as int);
                        lemma_flat_index(i3 as int, j as int, m as int, cols as int);
                    }
                    a.set(i3 * cols + j, cx_sub(a[i3 * cols + j], cx_mul(q, a[i3 * cols + k])));
                    i3 += 1;
                }
                proof {
                    assert(a@ == col_apply_fold(
                        a1,
                        cols as int,
                        m as int,
                        k as int,
                        denom_s,
                        j as int + 1,
                    ));
                }
                j += 1;
            }

            // Phase transformation: make the pivot row carry a real pivot.
            proof {
                lemma_flat_index(k as int, k as int, m as int, cols as int);
            }
            let qp: Complex32 = cx_unscale(cx_neg(cx_conj(a[k * cols + k])), cabs(a[k * cols + k]));
            let ghost a2 = a@;
            let mut j2: usize = k1;
            while j2 < cols
                invariant
                    k1 <= j2 <= cols,
                    k < n <= m,
                    k1 == k + 1,
                    a.len() == m * (n + p),
                    cols == n + p,
                    a@ == row_scale_fold(a2, cols as int, k as int, qp, k as int + 1, j2 as int),
                decreases cols - j2,
            {
                proof {
                    lemma_flat_index(k as int, j2 as int, m as int, cols as int);
                }
                a.set(k * cols + j2, cx_mul(qp, a[k * cols + j2]));
                j2 += 1;
            }
        }
    }
    bk
}

/// Eliminates `a[k, k+2..n]` with the symmetric row reflector, restricted to
/// the `n` active columns, and applies its phase correction. Returns the
/// value for the super-diagonal-magnitude entry `c[k+1]`.
fn row_eliminate(
    a: &mut Vec<Complex32>,
    m: usize,
    n: usize,
    p: usize,
    k: usize,
    tol: Complex32,
) -> (ck1: Complex32)
    requires
        1 <= n,
        n <= m,
        k + 1 < n,
        old(a).len() == m * (n + p),
    ensures
        final(a).len() == old(a).len(),
        final(a)@ == row_eliminate_spec(old(a)@, m as int, n as int, p as int, k as int, tol).0,
        ck1 == row_eliminate_spec(old(a)@, m as int, n as int, p as int, k as int, tol).1,
{
    let ghost a_in = a@;
    let zero: Complex32 = re_of_u32(0);
    let one: Complex32 = re_of_u32(1);
    let two: Complex32 = re_of_u32(2);
    proof {
        lemma_cols_le_len(m as int, n as int + p as int);
    }
    let cols: usize = n + p;
    let k1: usize = k + 1;

    let mut z: Complex32 = zero;
    let mut j: usize = k1;
    while j < n
        invariant
            k1 <= j <= n,
            k1 == k + 1,
            k1 < n <= m,
            a.len() == m * (n + p),
            a@ == a_in,
            cols == n + p,
            two == c32_of_u32(2),
            z == row_norm_fold(a_in, cols as int, k as int, k as int + 1, j as int),
        decreases n - j,
    {
        proof {
            lemma_flat_index(k as int, j as int, m as int, cols as int);
        }
        let e: Complex32 = a[k * cols + j];
        z = re_add(re_add(z, re_powf(re_part(e), two)), re_powf(im_part(e), two));
        j += 1;
    }

    let mut ck1: Complex32 = zero;
    if re_lt(tol, z) {
        z = re_sqrt(z);
        ck1 = z;
        proof {
            lemma_flat_index(k as int, k1 as int, m as int, cols as int);
        }
        let wmag: Complex32 = cabs(a[k * cols + k1]);
        let q0: Complex32 = if re_eq(wmag, zero) {
            one
        } else {
            cx_unscale(a[k * cols + k1], wmag)
        };
        a.set(k * cols + k1, cx_scale(q0, re_add(z, wmag)));
        let ghost a1 = a@;

        let ghost denom_s = re_mul_of(z, re_add_of(z, wmag));
        let mut i: usize = k1;
        while i < m
            invariant
                k1 <= i <= m,
                k1 == k + 1,
                k1 < n <= m,
                a.len() == m * (n + p),
                cols == n + p,
                a@ == row_apply_fold(a1, cols as int, n as int, k as int, denom_s, i as int),
                denom_s == re_mul_of(z, re_add_of(z, wmag)),
            decreases m - i,
        {
            let ghost prev = a@;
            let mut q: Complex32 = re_of_u32(0);
            let mut j2: usize = k1;
            while j2 < n
                invariant
                    k1 <= j2 <= n,
                    k1 == k + 1,
                    k1 < n <= m,
                    i < m,
                    a.len() == m * (n + p),
                    cols == n + p,
                    a@ == prev,
                    q == row_dot_fold(
                        prev,
                        cols as int,
                        k as int,
                        i as int,
                        k as int + 1,
                        j2 as int,
                    ),
                decreases n - j2,
            {
                proof {
                    lemma_flat_index(k as int, j2 as int, m as int, cols as int);
                    lemma_flat_index(i as int, j2 as int, m as int, cols as int);
                }
                q = cx_add(q, cx_mul(cx_conj(a[k * cols + j2]), a[i * cols + j2]));
                j2 += 1;
            }
            q = cx_unscale(q, re_mul(z, re_add(z, wmag)));
            let mut j3: usize = k1;
            while j3 < n
                invariant
                    k1 <= j3 <= n,
                    k1 == k + 1,
                    k1 < n <= m,
                    i < m,
                    a.len() == m * (n + p),
                    cols == n + p,
                    a@ == row_update_fold(
                        prev,
                        cols as int,
                        k as int,
                        i as int,
                        q,
                        k as int + 1,
                        j3 as int,
                    ),
                decreases n - j3,
            {
                proof {
                    lemma_flat_index(k as int, j3 as int, m as int, cols as int);
                    lemma_flat_index(i as int, j3 as int, m as int, cols as int);
                }
                a.set(i * cols + j3, cx_sub(a[i * cols + j3], cx_mul(q, a[k * cols + j3])));
                j3 += 1;
            }
            proof {
                assert(a@ == row_apply_fold(
                    a1,
                    cols as int,
                    n as int,
                    k as int,
                    denom_s,
                    i as int + 1,
                ));
            }
            i += 1;
        }

        // Phase transformation of the eliminated column.
        proof {
            lemma_flat_index(k as int, k1 as int, m as int, cols as int);
        }
        let qp: Complex32 = cx_unscale(cx_neg(cx_conj(a[k * cols + k1])), cabs(a[k * cols + k1]));
        let ghost a2 = a@;
        let mut i4: usize = k1;
        while i4 < m
            invariant
                k1 <= i4 <= m,
                k1 == k + 1,
                k1 < n <= m,
                a.len() == m * (n + p),
                cols == n + p,
                a@ == col_scale_fold(a2, cols as int, k as int + 1, qp, k as int + 1, i4 as int),
            decreases m - i4,
        {
            proof {
                lemma_flat_index(i4 as int, k1 as int, m as int, cols as int);
            }
            a.set(i4 * cols + k1, cx_mul(a[i4 * cols + k1], qp));
            i4 += 1;
        }
    }
    ck1
}

/// Phase 1: reduces `a` to bidiagonal form, recording the diagonal
/// magnitudes in `b` and the super-diagonal magnitudes in `c` (`c[0]` stays
/// zero).
fn householder_reduce(
    a: &mut Vec<Complex32>,
    m: usize,
    n: usize,
    p: usize,
    b: &mut Vec<Complex32>,
    c: &mut Vec<Complex32>,
)
    requires
        1 <= n,
        n <= m,
        old(a).len() == m * (n + p),
        old(b).len() == n,
        old(c).len() == n,
    ensures
        final(a).len() == old(a).len(),
        final(b).len() == n,
        final(c).len() == n,
        final(a)@ == householder_fold(old(a)@, old(b)@, old(c)@, m as int, n as int, p as int, n as int).0,
        final(b)@ == householder_fold(old(a)@, old(b)@, old(c)@, m as int, n as int, p as int, n as int).1,
        final(c)@ == householder_fold(old(a)@, old(b)@, old(c)@, m as int, n as int, p as int, n as int).2,
{
    let ghost a_in = a@;
    let ghost b_in = b@;
    let ghost c_in = c@;
    let ten: Complex32 = re_of_u32(10);
    let tol: Complex32 = re_mul(
        re_div(re_of_u32(3), re_of_u32(2)),
        re_powf(ten, re_neg(re_of_u32(31))),
    );
    let mut k: usize = 0;
    while k < n
        invariant
            k <= n,
            1 <= n <= m,
            a.len() == m * (n + p),
            b.len() == n,
            c.len() == n,
            tol == householder_tol(),
            (a@, b@, c@) == householder_fold(
                a_in,
                b_in,
                c_in,
                m as int,
                n as int,
                p as int,
                k as int,
            ),
        decreases n - k,
    {
        let bk = col_eliminate(a, m, n, p, k, tol);
        b.set(k, bk);
        if k + 1 < n {
            let ck1 = row_eliminate(a, m, n, p, k, tol);
            c.set(k + 1, ck1);
        }
        proof {
            assert((a@, b@, c@) == householder_fold(
                a_in,
                b_in,
                c_in,
                m as int,
                n as int,
                p as int,
                k as int + 1,
            ));
        }
        k += 1;
    }
}


/// The selection scan of the sort: the running maximum and its index after
/// looking at entries `k..i`, starting from the sentinel pair.
pub open spec fn sel_fold(s: Seq<Complex32>, k: int, i: int) -> (Complex32, int)
    decreases i - k,
{
    if i <= k {
        (re_neg_of(c32_of_u32(1)), k)
    } else {
        let prev = sel_fold(s, k, i - 1);
        if re_lt_of(prev.0, s[i - 1]) {
            (s[i - 1], i - 1)
        } else {
            prev
        }
    }
}

/// Columns `c1` and `c2` exchanged over rows `0..i` of a matrix with the
/// given stride.
pub open spec fn swap_cols_fold(w: Seq<Complex32>, stride: int, c1: int, c2: int, i: int) -> Seq<
    Complex32,
>
    decreases i,
{
    if i <= 0 {
        w
    } else {
        let prev = swap_cols_fold(w, stride, c1, c2, i - 1);
        let q = prev[(i - 1) * stride + c1];
        prev.update((i - 1) * stride + c1, prev[(i - 1) * stride + c2]).update(
            (i - 1) * stride + c2,
            q,
        )
    }
}

/// One selection-sort step at index `k`: the largest remaining singular
/// value moves to position `k`, with the matching column swaps.
pub open spec fn sort_step(
    s: Seq<Complex32>,
    u: Seq<Complex32>,
    v: Seq<Complex32>,
    m: int,
    n: int,
    nu: int,
    nv: int,
    k: int,
) -> (Seq<Complex32>, Seq<Complex32>, Seq<Complex32>) {
    let sel = sel_fold(s, k, n);
    let g = sel.0;
    let j = sel.1;
    if j != k {
        let s1 = s.update(j, s[k]).update(k, g);
        let v1 = if nv > 0 {
            swap_cols_fold(v, n, j, k, n)
        } else {
            v
        };
        let u1 = if nu > 0 {
            swap_cols_fold(u, m, j, k, n)
        } else {
            u
        };
        (s1, u1, v1)
    } else {
        (s, u, v)
    }
}

/// The whole selection sort, indices `0..k` placed.
pub open spec fn sort_fold(
    s: Seq<Complex32>,
    u: Seq<Complex32>,
    v: Seq<Complex32>,
    m: int,
    n: int,
    nu: int,
    nv: int,
    k: int,
) -> (Seq<Complex32>, Seq<Complex32>, Seq<Complex32>)
    decreases k,
{
    if k <= 0 {
        (s, u, v)
    } else {
        let prev = sort_fold(s, u, v, m, n, nu, nv, k - 1);
        sort_step(prev.0, prev.1, prev.2, m, n, nu, nv, k - 1)
    }
}

/// The dot of `conj(column k of a)` against column `j` of `w`, over rows
/// `lo..i`, as the back-transformation of `u` accumulates it.
pub open spec fn bt_u_dot_fold(
    a: Seq<Complex32>,
    cols: int,
    w: Seq<Complex32>,
    stride: int,
    k: int,
    j: int,
    lo: int,
    i: int,
) -> Complex32
    decreases i - lo,
{
    if i <= lo {
        c32_of_u32(0)
    } else {
        cx_add_of(
            bt_u_dot_fold(a, cols, w, stride, k, j, lo, i - 1),
            cx_mul_of(cx_conj_of(a[(i - 1) * cols + k]), w[(i - 1) * stride + j]),
        )
    }
}

/// Rows `lo..i` of column `j` of `w` after subtracting `q` times column
/// `k` of `a`.
pub open spec fn bt_u_update_fold(
    a: Seq<Complex32>,
    cols: int,
    w: Seq<Complex32>,
    stride: int,
    k: int,
    j: int,
    q: Complex32,
    lo: int,
    i: int,
) -> Seq<Complex32>
    decreases i - lo,
{
    if i <= lo {
        w
    } else {
        let prev = bt_u_update_fold(a, cols, w, stride, k, j, q, lo, i - 1);
        prev.update(
            (i - 1) * stride + j,
            cx_sub_of(prev[(i - 1) * stride + j], cx_mul_of(q, a[(i - 1) * cols + k])),
        )
    }
}

/// The reflector at column `k` of `a` applied to columns `0..j` of `w`.
pub open spec fn bt_u_apply_fold(
    a: Seq<Complex32>,
    cols: int,
    w: Seq<Complex32>,
    stride: int,
    m: int,
    k: int,
    denom: Complex32,
    j: int,
) -> Seq<Complex32>
    decreases j,
{
    if j <= 0 {
        w
    } else {
        let prev = bt_u_apply_fold(a, cols, w, stride, m, k, denom, j - 1);
        let q = cx_unscale_of(bt_u_dot_fold(a, cols, prev, stride, k, j - 1, k, m), denom);
        bt_u_update_fold(a, cols, prev, stride, k, j - 1, q, k, m)
    }
}

/// One back-transformation step of `u` at index `k`, applied only when the
/// stored reflector was non-trivial.
pub open spec fn bt_u_step(
    a: Seq<Complex32>,
    cols: int,
    u: Seq<Complex32>,
    m: int,
    nu: int,
    k: int,
    bk: Complex32,
) -> Seq<Complex32> {
    if !re_eq_of(bk, c32_of_u32(0)) {
        let q0 = cx_unscale_of(cx_neg_of(a[k * cols + k]), cabs_of(a[k * cols + k]));
        let u1 = row_scale_fold(u, m, k, q0, 0, nu);
        let denom = re_mul_of(cabs_of(a[k * cols + k]), bk);
        bt_u_apply_fold(a, cols, u1, m, m, k, denom, nu)
    } else {
        u
    }
}

/// The whole back-transformation of `u`: indices `n-1` down to `n-kk`.
pub open spec fn bt_u_fold(
    a: Seq<Complex32>,
    cols: int,
    b: Seq<Complex32>,
    u: Seq<Complex32>,
    m: int,
    n: int,
    nu: int,
    kk: int,
) -> Seq<Complex32>
    decreases kk,
{
    if kk <= 0 {
        u
    } else {
        bt_u_step(a, cols, bt_u_fold(a, cols, b, u, m, n, nu, kk - 1), m, nu, n - kk, b[n - kk])
    }
}

/// The dot of row `k` of `a` against column `j` of `v`, over rows `lo..i`
/// of `v`, as the back-transformation of `v` accumulates it.
pub open spec fn bt_v_dot_fold(
    a: Seq<Complex32>,
    cols: int,
    v: Seq<Complex32>,
    stride: int,
    k: int,
    j: int,
    lo: int,
    i: int,
) -> Complex32
    decreases i - lo,
{
    if i <= lo {
        c32_of_u32(0)
    } else {
        cx_add_of(
            bt_v_dot_fold(a, cols, v, stride, k, j, lo, i - 1),
            cx_mul_of(a[k * cols + (i - 1)], v[(i - 1) * stride + j]),
        )
    }
}

/// Rows `lo..i` of column `j` of `v` after subtracting `q` times the
/// conjugated entries of row `k` of `a`.
pub open spec fn bt_v_update_fold(
    a: Seq<Complex32>,
    cols: int,
    v: Seq<Complex32>,
    stride: int,
    k: int,
    j: int,
    q: Complex32,
    lo: int,
    i: int,
) -> Seq<Complex32>
    decreases i - lo,
{
    if i <= lo {
        v
    } else {
        let prev = bt_v_update_fold(a, cols, v, stride, k, j, q, lo, i - 1);
        prev.update(
            (i - 1) * stride + j,
            cx_sub_of(prev[(i - 1) * stride + j], cx_mul_of(q, cx_conj_of(a[k * cols + (i - 1)]))),
        )
    }
}

/// The row reflector at `(k, k+1)` of `a` applied to columns `0..j` of `v`.
pub open spec fn bt_v_apply_fold(
    a: Seq<Complex32>,
    cols: int,
    v: Seq<Complex32>,
    n: int,
    k: int,
    denom: Complex32,
    j: int,
) -> Seq<Complex32>
    decreases j,
{
    if j <= 0 {
        v
    } else {
        let prev = bt_v_apply_fold(a, cols, v, n, k, denom, j - 1);
        let q = cx_unscale_of(bt_v_dot_fold(a, cols, prev, n, k, j - 1, k + 1, n), denom);
        bt_v_update_fold(a, cols, prev, n, k, j - 1, q, k + 1, n)
    }
}

/// One back-transformation step of `v` at index `k` (pivot column `k+1`),
/// applied only when the stored row reflector was non-trivial.
pub open spec fn bt_v_step(
    a: Seq<Complex32>,
    cols: int,
    v: Seq<Complex32>,
    n: int,
    nv: int,
    k: int,
    ck1: Complex32,
) -> Seq<Complex32> {
    if !re_eq_of(ck1, c32_of_u32(0)) {
        let q0 = cx_unscale_of(
            cx_neg_of(cx_conj_of(a[k * cols + (k + 1)])),
            cabs_of(a[k * cols + (k + 1)]),
        );
        let v1 = row_scale_fold(v, n, k + 1, q0, 0, nv);
        let denom = re_mul_of(cabs_of(a[k * cols + (k + 1)]), ck1);
        bt_v_apply_fold(a, cols, v1, n, k, denom, nv)
    } else {
        v
    }
}

/// The whole back-transformation of `v`: indices `n-2` down to `n-kk-1`.
pub open spec fn bt_v_fold(
    a: Seq<Complex32>,
    cols: int,
    c: Seq<Complex32>,
    v: Seq<Complex32>,
    n: int,
    nv: int,
    kk: int,
) -> Seq<Complex32>
    decreases kk,
{
    if kk <= 1 {
        v
    } else {
        bt_v_step(
            a,
            cols,
            bt_v_fold(a, cols, c, v, n, nv, kk - 1),
            n,
            nv,
            n - kk,
            c[n - kk + 1],
        )
    }
}


/// Columns `c1` and `c2` rotated against each other over rows `0..j`, in
/// the real-valued pattern every Givens accumulation of this engine uses.
pub open spec fn rot_cols_fold(
    w: Seq<Complex32>,
    stride: int,
    c1: int,
    c2: int,
    cs: Complex32,
    sn: Complex32,
    j: int,
) -> Seq<Complex32>
    decreases j,
{
    if j <= 0 {
        w
    } else {
        let prev = rot_cols_fold(w, stride, c1, c2, cs, sn, j - 1);
        let x = re_part_of(prev[(j - 1) * stride + c1]);
        let y = re_part_of(prev[(j - 1) * stride + c2]);
        prev.update((j - 1) * stride + c1, re_add_of(re_mul_of(x, cs), re_mul_of(y, sn))).update(
            (j - 1) * stride + c2,
            re_sub_of(re_mul_of(y, cs), re_mul_of(x, sn)),
        )
    }
}

/// The split scan at trailing index `k`, looking at position `l` and
/// walking down: the split point and whether the super-diagonal entry was
/// the negligible one.
pub open spec fn find_split_spec(
    s: Seq<Complex32>,
    t: Seq<Complex32>,
    eps: Complex32,
    l: int,
) -> (int, bool)
    decreases l,
{
    if re_le_of(re_abs_of(t[l]), eps) {
        (l, true)
    } else if l <= 0 {
        (l, true)
    } else if re_le_of(re_abs_of(s[l - 1]), eps) {
        (l, false)
    } else {
        find_split_spec(s, t, eps, l - 1)
    }
}

/// The cancellation sweep after processing indices `l..hi`: the vectors,
/// the running rotation pair, and whether the sweep stopped early.
pub open spec fn cancel_fold(
    s: Seq<Complex32>,
    t: Seq<Complex32>,
    u: Seq<Complex32>,
    m: int,
    n: int,
    nu: int,
    l: int,
    eps: Complex32,
    hi: int,
) -> (Seq<Complex32>, Seq<Complex32>, Seq<Complex32>, Complex32, Complex32, bool)
    decreases hi - l,
{
    if hi <= l {
        (s, t, u, c32_of_u32(0), c32_of_u32(1), false)
    } else {
        let prev = cancel_fold(s, t, u, m, n, nu, l, eps, hi - 1);
        if prev.5 {
            prev
        } else {
            let i = hi - 1;
            let f = re_mul_of(prev.4, prev.1[i]);
            let t1 = prev.1.update(i, re_mul_of(prev.3, prev.1[i]));
            if re_le_of(re_abs_of(f), eps) {
                (prev.0, t1, prev.2, prev.3, prev.4, true)
            } else {
                let h = prev.0[i];
                let w = re_sqrt_of(re_add_of(re_mul_of(f, f), re_mul_of(h, h)));
                let s1 = prev.0.update(i, w);
                let cs = re_div_of(h, w);
                let sn = re_neg_of(re_div_of(f, w));
                let u1 = if nu > 0 {
                    rot_cols_fold(prev.2, m, l - 1, i, cs, sn, n)
                } else {
                    prev.2
                };
                (s1, t1, u1, cs, sn, false)
            }
        }
    }
}

/// Once a cancellation sweep has stopped, running it further changes
/// nothing.
proof fn lemma_cancel_fold_absorbs(
    s: Seq<Complex32>,
    t: Seq<Complex32>,
    u: Seq<Complex32>,
    m: int,
    n: int,
    nu: int,
    l: int,
    eps: Complex32,
    i: int,
    hi: int,
)
    requires
        l <= i <= hi,
        cancel_fold(s, t, u, m, n, nu, l, eps, i).5,
    ensures
        cancel_fold(s, t, u, m, n, nu, l, eps, hi) == cancel_fold(s, t, u, m, n, nu, l, eps, i),
    decreases hi - i,
{
    if i < hi {
        lemma_cancel_fold_absorbs(s, t, u, m, n, nu, l, eps, i, hi - 1);
    }
}

/// One pass of the shifted QR sweep after processing rows `l+1..i`: the
/// four arrays and the four carried registers.
pub open spec fn qr_sweep_fold(
    s: Seq<Complex32>,
    t: Seq<Complex32>,
    u: Seq<Complex32>,
    v: Seq<Complex32>,
    m: int,
    n: int,
    nu: int,
    nv: int,
    l: int,
    f0: Complex32,
    x0: Complex32,
    i: int,
) -> (
    Seq<Complex32>,
    Seq<Complex32>,
    Seq<Complex32>,
    Seq<Complex32>,
    Complex32,
    Complex32,
    Complex32,
    Complex32,
)
    decreases i - (l + 1),
{
    if i <= l + 1 {
        (s, t, u, v, c32_of_u32(1), c32_of_u32(1), f0, x0)
    } else {
        let prev = qr_sweep_fold(s, t, u, v, m, n, nu, nv, l, f0, x0, i - 1);
        let ii = i - 1;
        let gi = prev.1[ii];
        let y = prev.0[ii];
        let h = re_mul_of(prev.5, gi);
        let gi2 = re_mul_of(prev.4, gi);
        let w2 = re_sqrt_of(re_add_of(re_mul_of(h, h), re_mul_of(prev.6, prev.6)));
        let t1 = prev.1.update(ii - 1, w2);
        let cs = re_div_of(prev.6, w2);
        let sn = re_div_of(h, w2);
        let f = re_add_of(re_mul_of(prev.7, cs), re_mul_of(gi2, sn));
        let gi3 = re_sub_of(re_mul_of(gi2, cs), re_mul_of(prev.7, sn));
        let h2 = re_mul_of(y, sn);
        let y2 = re_mul_of(y, cs);
        let v1 = if nv > 0 {
            rot_cols_fold(prev.3, n, ii - 1, ii, cs, sn, n)
        } else {
            prev.3
        };
        let w3 = re_sqrt_of(re_add_of(re_mul_of(h2, h2), re_mul_of(f, f)));
        let s1 = prev.0.update(ii - 1, w3);
        let cs2 = re_div_of(f, w3);
        let sn2 = re_div_of(h2, w3);
        let f2 = re_add_of(re_mul_of(cs2, gi3), re_mul_of(sn2, y2));
        let x2 = re_sub_of(re_mul_of(cs2, y2), re_mul_of(sn2, gi3));
        let u1 = if nu > 0 {
            rot_cols_fold(prev.2, m, ii - 1, ii, cs2, sn2, n)
        } else {
            prev.2
        };
        (s1, t1, u1, v1, cs2, sn2, f2, x2)
    }
}

/// One full shifted QR step between `l` and `k`: the stabilized origin
/// shift followed by the sweep, closing with the updated corner entries.
pub open spec fn qr_step_spec(
    s: Seq<Complex32>,
    t: Seq<Complex32>,
    u: Seq<Complex32>,
    v: Seq<Complex32>,
    m: int,
    n: int,
    nu: int,
    nv: int,
    l: int,
    k: int,
) -> (Seq<Complex32>, Seq<Complex32>, Seq<Complex32>, Seq<Complex32>) {
    let wq = s[k];
    let x0 = s[l];
    let y0 = s[k - 1];
    let g0 = t[k - 1];
    let h0 = t[k];
    let f1 = re_div_of(
        re_add_of(
            re_mul_of(re_sub_of(y0, wq), re_add_of(y0, wq)),
            re_mul_of(re_sub_of(g0, h0), re_add_of(g0, h0)),
        ),
        re_mul_of(re_mul_of(c32_of_u32(2), h0), y0),
    );
    let g1 = re_sqrt_of(re_add_of(re_mul_of(f1, f1), c32_of_u32(1)));
    let g2 = if re_lt_of(f1, c32_of_u32(0)) {
        re_neg_of(g1)
    } else {
        g1
    };
    let f3 = re_div_of(
        re_add_of(
            re_mul_of(re_sub_of(x0, wq), re_add_of(x0, wq)),
            re_mul_of(re_sub_of(re_div_of(y0, re_add_of(f1, g2)), h0), h0),
        ),
        x0,
    );
    let sw = qr_sweep_fold(s, t, u, v, m, n, nu, nv, l, f3, x0, k + 1);
    (
        sw.0.update(k, sw.7),
        sw.1.update(l, c32_of_u32(0)).update(k, sw.6),
        sw.2,
        sw.3,
    )
}

/// The convergence loop at trailing index `k` with `budget` shifted sweeps
/// left: split, cancel, test, sweep, repeated until the block converges or
/// the budget runs out; the last component is the captured value `w`.
pub open spec fn qr_converge(
    s: Seq<Complex32>,
    t: Seq<Complex32>,
    u: Seq<Complex32>,
    v: Seq<Complex32>,
    m: int,
    n: int,
    nu: int,
    nv: int,
    k: int,
    eps: Complex32,
    budget: int,
) -> (Seq<Complex32>, Seq<Complex32>, Seq<Complex32>, Seq<Complex32>, Complex32)
    decreases budget,
{
    let fs = find_split_spec(s, t, eps, k);
    let l = fs.0;
    let split = fs.1;
    let c = if !split {
        cancel_fold(s, t, u, m, n, nu, l, eps, k + 1)
    } else {
        (s, t, u, c32_of_u32(0), c32_of_u32(1), false)
    };
    let w = c.0[k];
    if l == k || budget <= 0 {
        (c.0, c.1, c.2, v, w)
    } else {
        let q = qr_step_spec(c.0, c.1, c.2, v, m, n, nu, nv, l, k);
        qr_converge(q.0, q.1, q.2, q.3, m, n, nu, nv, k, eps, budget - 1)
    }
}

/// Column `k` negated over rows `0..j`.
pub open spec fn neg_col_fold(v: Seq<Complex32>, stride: int, k: int, j: int) -> Seq<Complex32>
    decreases j,
{
    if j <= 0 {
        v
    } else {
        let prev = neg_col_fold(v, stride, k, j - 1);
        prev.update((j - 1) * stride + k, cx_neg_of(prev[(j - 1) * stride + k]))
    }
}

/// One trailing index handled completely: converge, then normalize the
/// captured value's sign, negating the matching column of `v` if it flips.
pub open spec fn qr_index_spec(
    s: Seq<Complex32>,
    t: Seq<Complex32>,
    u: Seq<Complex32>,
    v: Seq<Complex32>,
    m: int,
    n: int,
    nu: int,
    nv: int,
    eps: Complex32,
    k: int,
) -> (Seq<Complex32>, Seq<Complex32>, Seq<Complex32>, Seq<Complex32>) {
    let c = qr_converge(s, t, u, v, m, n, nu, nv, k, eps, QR_SWEEP_LIMIT as int);
    let w = c.4;
    if re_lt_of(w, c32_of_u32(0)) {
        let s1 = c.0.update(k, re_neg_of(w));
        let v1 = if nv > 0 {
            neg_col_fold(c.3, n, k, n)
        } else {
            c.3
        };
        (s1, c.1, c.2, v1)
    } else {
        (c.0, c.1, c.2, c.3)
    }
}

/// Phase 2 as a whole: the trailing indices `n-1` down to `n-kk` handled
/// in order.
pub open spec fn qr_diag_fold(
    s: Seq<Complex32>,
    t: Seq<Complex32>,
    u: Seq<Complex32>,
    v: Seq<Complex32>,
    m: int,
    n: int,
    nu: int,
    nv: int,
    eps: Complex32,
    kk: int,
) -> (Seq<Complex32>, Seq<Complex32>, Seq<Complex32>, Seq<Complex32>)
    decreases kk,
{
    if kk <= 0 {
        (s, t, u, v)
    } else {
        let prev = qr_diag_fold(s, t, u, v, m, n, nu, nv, eps, kk - 1);
        qr_index_spec(prev.0, prev.1, prev.2, prev.3, m, n, nu, nv, eps, n - kk)
    }
}

/// Scans upward from `k` for the split point: in the pair returned, the
/// index is the split point `l`, and the flag says whether the
/// super-diagonal entry `t[l]` was negligible (go on to the convergence
/// test); when it is false, the diagonal entry `s[l-1]` was negligible and
/// a cancellation sweep is due. `t[0]` is identically zero, so in practice
/// the scan always stops by the time `l` reaches zero; stopping there
/// explicitly keeps the scan total.
fn find_split(
    s: &Vec<Complex32>,
    t: &Vec<Complex32>,
    k: usize,
    eps: Complex32,
) -> (r: (usize, bool))
    requires
        k < s.len(),
        k < t.len(),
    ensures
        r.0 <= k,
        !r.1 ==> 1 <= r.0,
        (r.0 as int, r.1) == find_split_spec(s@, t@, eps, k as int),
{
    let mut l: usize = k;
    let mut split: bool = true;
    loop
        invariant_except_break
            l <= k,
            k < s.len(),
            k < t.len(),
            split,
            find_split_spec(s@, t@, eps, k as int) == find_split_spec(s@, t@, eps, l as int),
        ensures
            l <= k,
            !split ==> 1 <= l,
            (l as int, split) == find_split_spec(s@, t@, eps, k as int),
        decreases l,
    {
        if re_le(re_abs(t[l]), eps) {
            break;
        }
        if l == 0 {
            break;
        }
        if re_le(re_abs(s[l - 1]), eps) {
            split = false;
            break;
        }
        l = l - 1;
    }
    (l, split)
}

/// Givens cancellation sweep: zeroes the super-diagonal entries from `l` up
/// to `k` by rotating row pairs, mirroring each rotation into the columns
/// `l-1` and `i` of `u`.
fn cancel_sweep(
    s: &mut Vec<Complex32>,
    t: &mut Vec<Complex32>,
    u: &mut Vec<Complex32>,
    m: usize,
    n: usize,
    nu: usize,
    l: usize,
    k: usize,
    eps: Complex32,
)
    requires
        1 <= l <= k,
        k < n,
        n <= m,
        old(s).len() == n,
        old(t).len() == n,
        nu > 0 ==> old(u).len() == m * m,
    ensures
        final(s).len() == n,
        final(t).len() == n,
        final(u).len() == old(u).len(),
        nu == 0 ==> final(u)@ == old(u)@,
        final(s)@ == cancel_fold(
            old(s)@,
            old(t)@,
            old(u)@,
            m as int,
            n as int,
            nu as int,
            l as int,
            eps,
            k as int + 1,
        ).0,
        final(t)@ == cancel_fold(
            old(s)@,
            old(t)@,
            old(u)@,
            m as int,
            n as int,
            nu as int,
            l as int,
            eps,
            k as int + 1,
        ).1,
        final(u)@ == cancel_fold(
            old(s)@,
            old(t)@,
            old(u)@,
            m as int,
            n as int,
            nu as int,
            l as int,
            eps,
            k as int + 1,
        ).2,
{
    let ghost s_in = s@;
    let ghost t_in = t@;
    let ghost u_in = u@;
    let ghost u_len = u@.len();
    let ghost u0 = u@;
    let zero: Complex32 = re_of_u32(0);
    let one: Complex32 = re_of_u32(1);
    let mut cs: Complex32 = zero;
    let mut sn: Complex32 = one;
    let l1: usize = l - 1;
    let mut i: usize = l;
    while i <= k
        invariant_except_break
            l <= i <= k + 1,
            1 <= l <= k < n <= m,
            l1 == l - 1,
            s.len() == n,
            t.len() == n,
            nu > 0 ==> u.len() == m * m,
            u@.len() == u_len,
            nu == 0 ==> u@ == u0,
            (s@, t@, u@, cs, sn, false) == cancel_fold(
                s_in,
                t_in,
                u_in,
                m as int,
                n as int,
                nu as int,
                l as int,
                eps,
                i as int,
            ),
        ensures
            s.len() == n,
            t.len() == n,
            u@.len() == u_len,
            nu == 0 ==> u@ == u0,
            s@ == cancel_fold(
                s_in,
                t_in,
                u_in,
                m as int,
                n as int,
                nu as int,
                l as int,
                eps,
                k as int + 1,
            ).0,
            t@ == cancel_fold(
                s_in,
                t_in,
                u_in,
                m as int,
                n as int,
                nu as int,
                l as int,
                eps,
                k as int + 1,
            ).1,
            u@ == cancel_fold(
                s_in,
                t_in,
                u_in,
                m as int,
                n as int,
                nu as int,
                l as int,
                eps,
                k as int + 1,
            ).2,
        decreases k + 1 - i,
    {
        let f: Complex32 = re_mul(sn, t[i]);
        t.set(i, re_mul(cs, t[i]));
        if re_le(re_abs(f), eps) {
            proof {
                assert((s@, t@, u@, cs, sn, true) == cancel_fold(
                    s_in,
                    t_in,
                    u_in,
                    m as int,
                    n as int,
                    nu as int,
                    l as int,
                    eps,
                    i as int + 1,
                ));
                lemma_cancel_fold_absorbs(
                    s_in,
                    t_in,
                    u_in,
                    m as int,
                    n as int,
                    nu as int,
                    l as int,
                    eps,
                    i as int + 1,
                    k as int + 1,
                );
            }
            break;
        }
        let h: Complex32 = s[i];
        let w: Complex32 = re_sqrt(re_add(re_mul(f, f), re_mul(h, h)));
        s.set(i, w);
        cs = re_div(h, w);
        sn = re_neg(re_div(f, w));
        if 0 < nu {
            let ghost u_mid = u@;
            let mut j: usize = 0;
            while j < n
                invariant
                    j <= n,
                    1 <= l <= i <= k < n <= m,
                    l1 == l - 1,
                    0 < nu,
                    s.len() == n,
                    t.len() == n,
                    u.len() == m * m,
                    u@.len() == u_len,
                    u@ == rot_cols_fold(u_mid, m as int, l1 as int, i as int, cs, sn, j as int),
                decreases n - j,
            {
                proof {
                    lemma_flat_index(j as int, l1 as int, m as int, m as int);
                    lemma_flat_index(j as int, i as int, m as int, m as int);
                }
                let x: Complex32 = re_part(u[j * m + l1]);
                let y: Complex32 = re_part(u[j * m + i]);
                u.set(j * m + l1, re_add(re_mul(x, cs), re_mul(y, sn)));
                u.set(j * m + i, re_sub(re_mul(y, cs), re_mul(x, sn)));
                j += 1;
            }
        }
        proof {
            assert((s@, t@, u@, cs, sn, false) == cancel_fold(
                s_in,
                t_in,
                u_in,
                m as int,
                n as int,
                nu as int,
                l as int,
                eps,
                i as int + 1,
            ));
        }
        i += 1;
    }
}

/// One implicit-shift QR sweep over rows `l+1..=k` of the bidiagonal pair
/// `(s, t)`: computes the stabilized origin shift from the trailing two by
/// two block, then applies the chain of Givens rotations, accumulating them
/// into the column pairs of `v` and `u`.
fn qr_step(
    s: &mut Vec<Complex32>,
    t: &mut Vec<Complex32>,
    u: &mut Vec<Complex32>,
    v: &mut Vec<Complex32>,
    m: usize,
    n: usize,
    nu: usize,
    nv: usize,
    l: usize,
    k: usize,
)
    requires
        l < k,
        k < n,
        n <= m,
        old(s).len() == n,
        old(t).len() == n,
        nu > 0 ==> old(u).len() == m * m,
        nv > 0 ==> old(v).len() == n * n,
    ensures
        final(s).len() == n,
        final(t).len() == n,
        final(u).len() == old(u).len(),
        final(v).len() == old(v).len(),
        nu == 0 ==> final(u)@ == old(u)@,
        nv == 0 ==> final(v)@ == old(v)@,
        final(s)@ == qr_step_spec(
            old(s)@,
            old(t)@,
            old(u)@,
            old(v)@,
            m as int,
            n as int,
            nu as int,
            nv as int,
            l as int,
            k as int,
        ).0,
        final(t)@ == qr_step_spec(
            old(s)@,
            old(t)@,
            old(u)@,
            old(v)@,
            m as int,
            n as int,
            nu as int,
            nv as int,
            l as int,
            k as int,
        ).1,
        final(u)@ == qr_step_spec(
            old(s)@,
            old(t)@,
            old(u)@,
            old(v)@,
            m as int,
            n as int,
            nu as int,
            nv as int,
            l as int,
            k as int,
        ).2,
        final(v)@ == qr_step_spec(
            old(s)@,
            old(t)@,
            old(u)@,
            old(v)@,
            m as int,
            n as int,
            nu as int,
            nv as int,
            l as int,
            k as int,
        ).3,
{
    let ghost s_in = s@;
    let ghost t_in = t@;
    let ghost u_in = u@;
    let ghost v_in = v@;
    let ghost u_len = u@.len();
    let ghost v_len = v@.len();
    let zero: Complex32 = re_of_u32(0);
    let one: Complex32 = re_of_u32(1);
    let two: Complex32 = re_of_u32(2);

    // Origin shift from the trailing 2 by 2 block.
    let wq: Complex32 = s[k];
    let x0: Complex32 = s[l];
    let y0: Complex32 = s[k - 1];
    let g0: Complex32 = t[k - 1];
    let h0: Complex32 = t[k];
    let mut f: Complex32 = re_div(
        re_add(
            re_mul(re_sub(y0, wq), re_add(y0, wq)),
            re_mul(re_sub(g0, h0), re_add(g0, h0)),
        ),
        re_mul(re_mul(two, h0), y0),
    );
    let mut g: Complex32 = re_sqrt(re_add(re_mul(f, f), one));
    if re_lt(f, zero) {
        g = re_neg(g);
    }
    f = re_div(
        re_add(
            re_mul(re_sub(x0, wq), re_add(x0, wq)),
            re_mul(re_sub(re_div(y0, re_add(f, g)), h0), h0),
        ),
        x0,
    );
    let ghost f3_s = f;

    // The QR sweep itself.
    let mut cs: Complex32 = one;
    let mut sn: Complex32 = one;
    let mut x: Complex32 = x0;
    let mut i: usize = l + 1;
    while i <= k
        invariant
            l + 1 <= i <= k + 1,
            l < k < n <= m,
            s.len() == n,
            t.len() == n,
            nu > 0 ==> u.len() == m * m,
            nv > 0 ==> v.len() == n * n,
            u@.len() == u_len,
            v@.len() == v_len,
            nu == 0 ==> u@ == u_in,
            nv == 0 ==> v@ == v_in,
            (s@, t@, u@, v@, cs, sn, f, x) == qr_sweep_fold(
                s_in,
                t_in,
                u_in,
                v_in,
                m as int,
                n as int,
                nu as int,
                nv as int,
                l as int,
                f3_s,
                x0,
                i as int,
            ),
        decreases k + 1 - i,
    {
        let mut gi: Complex32 = t[i];
        let mut y: Complex32 = s[i];
        let mut h: Complex32 = re_mul(sn, gi);
        gi = re_mul(cs, gi);
        let mut w2: Complex32 = re_sqrt(re_add(re_mul(h, h), re_mul(f, f)));
        t.set(i - 1, w2);
        cs = re_div(f, w2);
        sn = re_div(h, w2);
        f = re_add(re_mul(x, cs), re_mul(gi, sn));
        gi = re_sub(re_mul(gi, cs), re_mul(x, sn));
        h = re_mul(y, sn);
        y = re_mul(y, cs);
        if 0 < nv {
            let ghost v_mid = v@;
            let mut j: usize = 0;
            while j < n
                invariant
                    j <= n,
                    l + 1 <= i <= k < n <= m,
                    0 < nv,
                    s.len() == n,
                    t.len() == n,
                    v.len() == n * n,
                    u@.len() == u_len,
                    v@.len() == v_len,
                    nu == 0 ==> u@ == u_in,
                    v@ == rot_cols_fold(
                        v_mid,
                        n as int,
                        i as int - 1,
                        i as int,
                        cs,
                        sn,
                        j as int,
                    ),
                decreases n - j,
            {
                proof {
                    lemma_flat_index(j as int, i as int - 1, n as int, n as int);
                    lemma_flat_index(j as int, i as int, n as int, n as int);
                }
                let xv: Complex32 = re_part(v[j * n + (i - 1)]);
                let wv: Complex32 = re_part(v[j * n + i]);
                v.set(j * n + (i - 1), re_add(re_mul(xv, cs), re_mul(wv, sn)));
                v.set(j * n + i, re_sub(re_mul(wv, cs), re_mul(xv, sn)));
                j += 1;
            }
        }
        w2 = re_sqrt(re_add(re_mul(h, h), re_mul(f, f)));
        s.set(i - 1, w2);
        cs = re_div(f, w2);
        sn = re_div(h, w2);
        f = re_add(re_mul(cs, gi), re_mul(sn, y));
        x = re_sub(re_mul(cs, y), re_mul(sn, gi));
        if 0 < nu {
            let ghost u_mid = u@;
            let mut j: usize = 0;
            while j < n
                invariant
                    j <= n,
                    l + 1 <= i <= k < n <= m,
                    0 < nu,
                    s.len() == n,
                    t.len() == n,
                    u.len() == m * m,
                    u@.len() == u_len,
                    v@.len() == v_len,
                    nv == 0 ==> v@ == v_in,
                    u@ == rot_cols_fold(
                        u_mid,
                        m as int,
                        i as int - 1,
                        i as int,
                        cs,
                        sn,
                        j as int,
                    ),
                decreases n - j,
            {
                proof {
                    lemma_flat_index(j as int, i as int - 1, m as int, m as int);
                    lemma_flat_index(j as int, i as int, m as int, m as int);
                }
                let yu: Complex32 = re_part(u[j * m + (i - 1)]);
                let wu: Complex32 = re_part(u[j * m + i]);
                u.set(j * m + (i - 1), re_add(re_mul(yu, cs), re_mul(wu, sn)));
                u.set(j * m + i, re_sub(re_mul(wu, cs), re_mul(yu, sn)));
                j += 1;
            }
        }
        proof {
            assert((s@, t@, u@, v@, cs, sn, f, x) == qr_sweep_fold(
                s_in,
                t_in,
                u_in,
                v_in,
                m as int,
                n as int,
                nu as int,
                nv as int,
                l as int,
                f3_s,
                x0,
                i as int + 1,
            ));
        }
        i += 1;
    }
    t.set(l, zero);
    t.set(k, f);
    s.set(k, x);
}

/// Phase 2: diagonalizes the real bidiagonal pair `(s, t)` by repeated
/// split tests, cancellation sweeps and shifted QR sweeps, processing the
/// trailing index first, and normalizes every converged singular value to
/// be non-negative (negating the matching column of `v` when it flips).
fn qr_diagonalize(
    s: &mut Vec<Complex32>,
    t: &mut Vec<Complex32>,
    u: &mut Vec<Complex32>,
    v: &mut Vec<Complex32>,
    m: usize,
    n: usize,
    nu: usize,
    nv: usize,
    eps: Complex32,
)
    requires
        1 <= n,
        n <= m,
        old(s).len() == n,
        old(t).len() == n,
        nu > 0 ==> old(u).len() == m * m,
        nv > 0 ==> old(v).len() == n * n,
    ensures
        final(s).len() == n,
        final(t).len() == n,
        final(u).len() == old(u).len(),
        final(v).len() == old(v).len(),
        nu == 0 ==> final(u)@ == old(u)@,
        nv == 0 ==> final(v)@ == old(v)@,
        final(s)@ == qr_diag_fold(
            old(s)@,
            old(t)@,
            old(u)@,
            old(v)@,
            m as int,
            n as int,
            nu as int,
            nv as int,
            eps,
            n as int,
        ).0,
        final(t)@ == qr_diag_fold(
            old(s)@,
            old(t)@,
            old(u)@,
            old(v)@,
            m as int,
            n as int,
            nu as int,
            nv as int,
            eps,
            n as int,
        ).1,
        final(u)@ == qr_diag_fold(
            old(s)@,
            old(t)@,
            old(u)@,
            old(v)@,
            m as int,
            n as int,
            nu as int,
            nv as int,
            eps,
            n as int,
        ).2,
        final(v)@ == qr_diag_fold(
            old(s)@,
            old(t)@,
            old(u)@,
            old(v)@,
            m as int,
            n as int,
            nu as int,
            nv as int,
            eps,
            n as int,
        ).3,
{
    let ghost s0 = s@;
    let ghost t0 = t@;
    let ghost u0 = u@;
    let ghost v0 = v@;
    let ghost u_len = u@.len();
    let ghost v_len = v@.len();
    let zero: Complex32 = re_of_u32(0);
    let mut kk: usize = 0;
    while kk < n
        invariant
            kk <= n,
            1 <= n <= m,
            s.len() == n,
            t.len() == n,
            nu > 0 ==> u.len() == m * m,
            nv > 0 ==> v.len() == n * n,
            u@.len() == u_len,
            v@.len() == v_len,
            zero == c32_of_u32(0),
            nu == 0 ==> u@ == u0,
            nv == 0 ==> v@ == v0,
            (s@, t@, u@, v@) == qr_diag_fold(
                s0,
                t0,
                u0,
                v0,
                m as int,
                n as int,
                nu as int,
                nv as int,
                eps,
                kk as int,
            ),
        decreases n - kk,
    {
        let k: usize = n - 1 - kk;
        let ghost s_k = s@;
        let ghost t_k = t@;
        let ghost u_k = u@;
        let ghost v_k = v@;
        let mut w: Complex32 = zero;
        let mut sweeps: usize = 0;
        loop
            invariant_except_break
                sweeps <= QR_SWEEP_LIMIT,
                k < n,
                1 <= n <= m,
                s.len() == n,
                t.len() == n,
                nu > 0 ==> u.len() == m * m,
                nv > 0 ==> v.len() == n * n,
                u@.len() == u_len,
                v@.len() == v_len,
                nu == 0 ==> u@ == u0,
                nv == 0 ==> v@ == v0,
                qr_converge(
                    s@,
                    t@,
                    u@,
                    v@,
                    m as int,
                    n as int,
                    nu as int,
                    nv as int,
                    k as int,
                    eps,
                    QR_SWEEP_LIMIT as int - sweeps as int,
                ) == qr_converge(
                    s_k,
                    t_k,
                    u_k,
                    v_k,
                    m as int,
                    n as int,
                    nu as int,
                    nv as int,
                    k as int,
                    eps,
                    QR_SWEEP_LIMIT as int,
                ),
            ensures
                k < n,
                1 <= n <= m,
                s.len() == n,
                t.len() == n,
                nu > 0 ==> u.len() == m * m,
                nv > 0 ==> v.len() == n * n,
                u@.len() == u_len,
                v@.len() == v_len,
                nu == 0 ==> u@ == u0,
                nv == 0 ==> v@ == v0,
                (s@, t@, u@, v@, w) == qr_converge(
                    s_k,
                    t_k,
                    u_k,
                    v_k,
                    m as int,
                    n as int,
                    nu as int,
                    nv as int,
                    k as int,
                    eps,
                    QR_SWEEP_LIMIT as int,
                ),
            decreases QR_SWEEP_LIMIT - sweeps,
        {
            let ghost s_it = s@;
            let ghost t_it = t@;
            let ghost u_it = u@;
            let ghost v_it = v@;
            let ghost budget = QR_SWEEP_LIMIT as int - sweeps as int;
            let ls = find_split(s, t, k, eps);
            let l: usize = ls.0;
            let split: bool = ls.1;
            if !split {
                cancel_sweep(s, t, u, m, n, nu, l, k, eps);
            }
            w = s[k];
            if l == k {
                proof {
                    assert((s@, t@, u@, v@, w) == qr_converge(
                        s_it,
                        t_it,
                        u_it,
                        v_it,
                        m as int,
                        n as int,
                        nu as int,
                        nv as int,
                        k as int,
                        eps,
                        budget,
                    ));
                }
                break;
            }
            if sweeps == QR_SWEEP_LIMIT {
                proof {
                    assert((s@, t@, u@, v@, w) == qr_converge(
                        s_it,
                        t_it,
                        u_it,
                        v_it,
                        m as int,
                        n as int,
                        nu as int,
                        nv as int,
                        k as int,
                        eps,
                        budget,
                    ));
                }
                break;
            }
            qr_step(s, t, u, v, m, n, nu, nv, l, k);
            proof {
                assert(qr_converge(
                    s@,
                    t@,
                    u@,
                    v@,
                    m as int,
                    n as int,
                    nu as int,
                    nv as int,
                    k as int,
                    eps,
                    budget - 1,
                ) == qr_converge(
                    s_it,
                    t_it,
                    u_it,
                    v_it,
                    m as int,
                    n as int,
                    nu as int,
                    nv as int,
                    k as int,
                    eps,
                    budget,
                ));
            }
            sweeps += 1;
        }
        if re_lt(w, zero) {
            s.set(k, re_neg(w));
            if 0 < nv {
                let ghost v_conv = v@;
                let mut j: usize = 0;
                while j < n
                    invariant
                        j <= n,
                        k < n <= m,
                        0 < nv,
                        s.len() == n,
                        t.len() == n,
                        v.len() == n * n,
                        u@.len() == u_len,
                        v@.len() == v_len,
                        nu == 0 ==> u@ == u0,
                        v@ == neg_col_fold(v_conv, n as int, k as int, j as int),
                    decreases n - j,
                {
                    proof {
                        lemma_flat_index(j as int, k as int, n as int, n as int);
                    }
                    v.set(j * n + k, cx_neg(v[j * n + k]));
                    j += 1;
                }
            }
        }
        proof {
            assert((s@, t@, u@, v@) == qr_index_spec(
                s_k,
                t_k,
                u_k,
                v_k,
                m as int,
                n as int,
                nu as int,
                nv as int,
                eps,
                k as int,
            ));
            assert((s@, t@, u@, v@) == qr_diag_fold(
                s0,
                t0,
                u0,
                v0,
                m as int,
                n as int,
                nu as int,
                nv as int,
                eps,
                kk as int + 1,
            ));
        }
        kk += 1;
    }
}


/// A row of `len` zero values.
pub open spec fn zero_row(len: int) -> Seq<Complex32> {
    Seq::new(len as nat, |q: int| c32_of_u32(0))
}

/// The relative machine precision constant the engine scales its
/// negligibility threshold by.
pub open spec fn svd_eta() -> Complex32 {
    re_mul_of(
        re_div_of(c32_of_u32(11920929), c32_of_u32(10000000)),
        re_powf_of(c32_of_u32(10), re_neg_of(c32_of_u32(7))),
    )
}

/// The copy of the bidiagonal magnitudes into `s` and `t` for entries
/// `0..k`, with the running scale maximum.
pub open spec fn eps_fold(
    b: Seq<Complex32>,
    c: Seq<Complex32>,
    s: Seq<Complex32>,
    t: Seq<Complex32>,
    k: int,
) -> (Seq<Complex32>, Seq<Complex32>, Complex32)
    decreases k,
{
    if k <= 0 {
        (s, t, c32_of_u32(0))
    } else {
        let prev = eps_fold(b, c, s, t, k - 1);
        (
            prev.0.update(k - 1, b[k - 1]),
            prev.1.update(k - 1, c[k - 1]),
            re_max_of(prev.2, re_add_of(b[k - 1], c[k - 1])),
        )
    }
}

/// Entry `(i, j)` of the identity matrix.
pub open spec fn ident_entry(i: int, j: int) -> Complex32 {
    if i == j {
        c32_of_u32(1)
    } else {
        c32_of_u32(0)
    }
}

/// A `dim` by `dim` buffer with its leading `cols_used` columns set to the
/// identity and the remaining columns kept.
pub open spec fn ident_init(u: Seq<Complex32>, dim: int, cols_used: int) -> Seq<Complex32> {
    Seq::new(
        u.len(),
        |p: int|
            if p % dim < cols_used {
                ident_entry(p / dim, p % dim)
            } else {
                u[p]
            },
    )
}

/// Writes the leading `cols_used` columns of the `dim` by `dim` identity
/// matrix into `w`, zeroing each written column first; the remaining
/// columns are untouched.
fn init_identity(w: &mut Vec<Complex32>, dim: usize, cols_used: usize)
    requires
        old(w).len() == dim * dim,
        cols_used <= dim,
    ensures
        final(w).len() == old(w).len(),
        forall|i: int, j: int|
            0 <= i < dim && 0 <= j < cols_used ==> mat_at(final(w)@, dim as int, i, j)
                == ident_entry(i, j),
        forall|i: int, j: int|
            0 <= i < dim && cols_used <= j < dim ==> mat_at(final(w)@, dim as int, i, j) == mat_at(
                old(w)@,
                dim as int,
                i,
                j,
            ),
        final(w)@ == ident_init(old(w)@, dim as int, cols_used as int),
{
    let ghost w0 = w@;
    let zero: Complex32 = re_of_u32(0);
    let one: Complex32 = re_of_u32(1);
    let mut j: usize = 0;
    while j < cols_used
        invariant
            j <= cols_used <= dim,
            w.len() == dim * dim,
            w0.len() == dim * dim,
            zero == c32_of_u32(0),
            one == c32_of_u32(1),
            forall|i2: int, j2: int|
                0 <= i2 < dim && 0 <= j2 < j ==> mat_at(w@, dim as int, i2, j2) == ident_entry(
                    i2,
                    j2,
                ),
            forall|i2: int, j2: int|
                0 <= i2 < dim && j <= j2 < dim ==> mat_at(w@, dim as int, i2, j2) == mat_at(
                    w0,
                    dim as int,
                    i2,
                    j2,
                ),
        decreases cols_used - j,
    {
        let mut i: usize = 0;
        while i < dim
            invariant
                i <= dim,
                j < cols_used <= dim,
                w.len() == dim * dim,
                w0.len() == dim * dim,
                zero == c32_of_u32(0),
                one == c32_of_u32(1),
                forall|i2: int, j2: int|
                    0 <= i2 < dim && 0 <= j2 < j ==> mat_at(w@, dim as int, i2, j2) == ident_entry(
                        i2,
                        j2,
                    ),
                forall|i2: int| 0 <= i2 < i ==> mat_at(w@, dim as int, i2, j as int) == c32_of_u32(0),
                forall|i2: int, j2: int|
                    0 <= i2 < dim && j < j2 < dim ==> mat_at(w@, dim as int, i2, j2) == mat_at(
                        w0,
                        dim as int,
                        i2,
                        j2,
                    ),
            decreases dim - i,
        {
            proof {
                lemma_flat_index(i as int, j as int, dim as int, dim as int);
            }
            let ghost pre = w@;
            w.set(i * dim + j, zero);
            proof {
                lemma_grid_update(pre, w@, dim as int, dim as int, i as int, j as int, zero);
            }
            i += 1;
        }
        proof {
            lemma_flat_index(j as int, j as int, dim as int, dim as int);
        }
        let ghost pre2 = w@;
        w.set(j * dim + j, one);
        proof {
            lemma_grid_update(pre2, w@, dim as int, dim as int, j as int, j as int, one);
        }
        j += 1;
    }
    proof {
        assert forall|pp: int| 0 <= pp < w@.len() implies w@[pp] == ident_init(
            w0,
            dim as int,
            cols_used as int,
        )[pp] by {
            lemma_flat_decompose(pp, dim as int);
            let ii = pp / (dim as int);
            let jj = pp % (dim as int);
            assert(w@[pp] == mat_at(w@, dim as int, ii, jj));
            assert(w0[pp] == mat_at(w0, dim as int, ii, jj));
        }
        assert(w@ =~= ident_init(w0, dim as int, cols_used as int));
    }
}

/// Phase 3a: selection-sorts the singular values into descending order,
/// swapping the matching columns of `u` and `v` in lockstep.
fn sort_singular(
    s: &mut Vec<Complex32>,
    u: &mut Vec<Complex32>,
    v: &mut Vec<Complex32>,
    m: usize,
    n: usize,
    nu: usize,
    nv: usize,
)
    requires
        1 <= n,
        n <= m,
        old(s).len() == n,
        nu > 0 ==> old(u).len() == m * m,
        nv > 0 ==> old(v).len() == n * n,
    ensures
        final(s).len() == n,
        final(u).len() == old(u).len(),
        final(v).len() == old(v).len(),
        final(s)@.to_multiset() == old(s)@.to_multiset(),
        final(u)@.to_multiset() == old(u)@.to_multiset(),
        final(v)@.to_multiset() == old(v)@.to_multiset(),
        nu == 0 ==> final(u)@ == old(u)@,
        nv == 0 ==> final(v)@ == old(v)@,
        (final(s)@, final(u)@, final(v)@) == sort_fold(
            old(s)@,
            old(u)@,
            old(v)@,
            m as int,
            n as int,
            nu as int,
            nv as int,
            n as int,
        ),
{
    let ghost u_len = u@.len();
    let ghost v_len = v@.len();
    let ghost s0 = s@;
    let ghost u0 = u@;
    let ghost v0 = v@;
    let mut k: usize = 0;
    while k < n
        invariant
            k <= n,
            1 <= n <= m,
            s.len() == n,
            nu > 0 ==> u.len() == m * m,
            nv > 0 ==> v.len() == n * n,
            u@.len() == u_len,
            v@.len() == v_len,
            s@.to_multiset() == s0.to_multiset(),
            u@.to_multiset() == u0.to_multiset(),
            v@.to_multiset() == v0.to_multiset(),
            nu == 0 ==> u@ == u0,
            nv == 0 ==> v@ == v0,
            (s@, u@, v@) == sort_fold(
                s0,
                u0,
                v0,
                m as int,
                n as int,
                nu as int,
                nv as int,
                k as int,
            ),
        decreases n - k,
    {
        let ghost s_k = s@;
        let ghost u_k = u@;
        let ghost v_k = v@;
        let mut g: Complex32 = re_neg(re_of_u32(1));
        let mut j: usize = k;
        let mut i: usize = k;
        while i < n
            invariant
                k <= i <= n,
                k <= j < n,
                k < n,
                s.len() == n,
                s@ == s_k,
                j == k || g == s@[j as int],
                (g, j as int) == sel_fold(s_k, k as int, i as int),
            decreases n - i,
        {
            if re_lt(g, s[i]) {
                g = s[i];
                j = i;
            }
            i += 1;
        }
        if j != k {
            proof {
                lemma_swap_preserves_multiset(s@, j as int, k as int);
            }
            s.set(j, s[k]);
            s.set(k, g);
            if 0 < nv {
                let ghost v_pre = v@;
                let mut i2: usize = 0;
                while i2 < n
                    invariant
                        i2 <= n,
                        k < n,
                        j < n,
                        0 < nv,
                        s.len() == n,
                        nu > 0 ==> u.len() == m * m,
                        v.len() == n * n,
                        u@.len() == u_len,
                        v@.len() == v_len,
                        s@.to_multiset() == s0.to_multiset(),
                        u@.to_multiset() == u0.to_multiset(),
                        v@.to_multiset() == v0.to_multiset(),
                        nu == 0 ==> u@ == u0,
                        v@ == swap_cols_fold(v_pre, n as int, j as int, k as int, i2 as int),
                    decreases n - i2,
                {
                    proof {
                        lemma_flat_index(i2 as int, j as int, n as int, n as int);
                        lemma_flat_index(i2 as int, k as int, n as int, n as int);
                        lemma_swap_preserves_multiset(
                            v@,
                            (i2 * n + j) as int,
                            (i2 * n + k) as int,
                        );
                    }
                    let q: Complex32 = v[i2 * n + j];
                    v.set(i2 * n + j, v[i2 * n + k]);
                    v.set(i2 * n + k, q);
                    i2 += 1;
                }
            }
            if 0 < nu {
                let ghost u_pre = u@;
                let mut i3: usize = 0;
                while i3 < n
                    invariant
                        i3 <= n,
                        k < n <= m,
                        j < n,
                        0 < nu,
                        s.len() == n,
                        u.len() == m * m,
                        nv > 0 ==> v.len() == n * n,
                        u@.len() == u_len,
                        v@.len() == v_len,
                        s@.to_multiset() == s0.to_multiset(),
                        u@.to_multiset() == u0.to_multiset(),
                        v@.to_multiset() == v0.to_multiset(),
                        nv == 0 ==> v@ == v0,
                        u@ == swap_cols_fold(u_pre, m as int, j as int, k as int, i3 as int),
                    decreases n - i3,
                {
                    proof {
                        lemma_flat_index(i3 as int, j as int, m as int, m as int);
                        lemma_flat_index(i3 as int, k as int, m as int, m as int);
                        lemma_swap_preserves_multiset(
                            u@,
                            (i3 * m + j) as int,
                            (i3 * m + k) as int,
                        );
                    }
                    let q: Complex32 = u[i3 * m + j];
                    u.set(i3 * m + j, u[i3 * m + k]);
                    u.set(i3 * m + k, q);
                    i3 += 1;
                }
            }
        }
        proof {
            assert((s@, u@, v@) == sort_step(
                s_k,
                u_k,
                v_k,
                m as int,
                n as int,
                nu as int,
                nv as int,
                k as int,
            ));
            assert((s@, u@, v@) == sort_fold(
                s0,
                u0,
                v0,
                m as int,
                n as int,
                nu as int,
                nv as int,
                k as int + 1,
            ));
        }
        k += 1;
    }
}

/// Phase 3b: re-applies the stored column reflectors of phase 1, last to
/// first, to the columns of `u`, recovering the true left singular vectors.
fn back_transform_u(
    a: &Vec<Complex32>,
    u: &mut Vec<Complex32>,
    b: &Vec<Complex32>,
    m: usize,
    n: usize,
    p: usize,
    nu: usize,
)
    requires
        1 <= n,
        n <= m,
        a.len() == m * (n + p),
        b.len() == n,
        old(u).len() == m * m,
        1 <= nu <= m,
    ensures
        final(u).len() == old(u).len(),
        final(u)@ == bt_u_fold(
            a@,
            n as int + p as int,
            b@,
            old(u)@,
            m as int,
            n as int,
            nu as int,
            n as int,
        ),
{
    let ghost u_in = u@;
    let zero: Complex32 = re_of_u32(0);
    proof {
        lemma_cols_le_len(m as int, n as int + p as int);
    }
    let cols: usize = n + p;
    let mut kk: usize = 0;
    while kk < n
        invariant
            kk <= n,
            1 <= n <= m,
            a.len() == m * (n + p),
            b.len() == n,
            u.len() == m * m,
            1 <= nu <= m,
            cols == n + p,
            zero == c32_of_u32(0),
            u@ == bt_u_fold(
                a@,
                cols as int,
                b@,
                u_in,
                m as int,
                n as int,
                nu as int,
                kk as int,
            ),
        decreases n - kk,
    {
        let k: usize = n - 1 - kk;
        let ghost u_k = u@;
        if !re_eq(b[k], zero) {
            proof {
                lemma_flat_index(k as int, k as int, m as int, cols as int);
            }
            let q0: Complex32 = cx_unscale(cx_neg(a[k * cols + k]), cabs(a[k * cols + k]));
            let mut j: usize = 0;
            while j < nu
                invariant
                    j <= nu <= m,
                    k < n <= m,
                    a.len() == m * (n + p),
                    u.len() == m * m,
                    cols == n + p,
                    u@ == row_scale_fold(u_k, m as int, k as int, q0, 0, j as int),
                decreases nu - j,
            {
                proof {
                    lemma_flat_index(k as int, j as int, m as int, m as int);
                }
                u.set(k * m + j, cx_mul(q0, u[k * m + j]));
                j += 1;
            }
            let ghost u1 = u@;
            let ghost denom_s = re_mul_of(cabs_of(a@[k as int * cols as int + k as int]), b@[k as int]);
            let mut j2: usize = 0;
            while j2 < nu
                invariant
                    j2 <= nu <= m,
                    k < n <= m,
                    a.len() == m * (n + p),
                    b.len() == n,
                    u.len() == m * m,
                    cols == n + p,
                    u@ == bt_u_apply_fold(
                        a@,
                        cols as int,
                        u1,
                        m as int,
                        m as int,
                        k as int,
                        denom_s,
                        j2 as int,
                    ),
                    denom_s == re_mul_of(
                        cabs_of(a@[k as int * cols as int + k as int]),
                        b@[k as int],
                    ),
                decreases nu - j2,
            {
                let ghost u_prev = u@;
                let mut q: Complex32 = re_of_u32(0);
                let mut i: usize = k;
                while i < m
                    invariant
                        k <= i <= m,
                        k < n <= m,
                        j2 < nu <= m,
                        a.len() == m * (n + p),
                        u.len() == m * m,
                        cols == n + p,
                        u@ == u_prev,
                        q == bt_u_dot_fold(
                            a@,
                            cols as int,
                            u_prev,
                            m as int,
                            k as int,
                            j2 as int,
                            k as int,
                            i as int,
                        ),
                    decreases m - i,
                {
                    proof {
                        lemma_flat_index(i as int, k as int, m as int, cols as int);
                        lemma_flat_index(i as int, j2 as int, m as int, m as int);
                    }
                    q = cx_add(q, cx_mul(cx_conj(a[i * cols + k]), u[i * m + j2]));
                    i += 1;
                }
                proof {
                    lemma_flat_index(k as int, k as int, m as int, cols as int);
                }
                q = cx_unscale(q, re_mul(cabs(a[k * cols + k]), b[k]));
                let mut i2: usize = k;
                while i2 < m
                    invariant
                        k <= i2 <= m,
                        k < n <= m,
                        j2 < nu <= m,
                        a.len() == m * (n + p),
                        u.len() == m * m,
                        cols == n + p,
                        u@ == bt_u_update_fold(
                            a@,
                            cols as int,
                            u_prev,
                            m as int,
                            k as int,
                            j2 as int,
                            q,
                            k as int,
                            i2 as int,
                        ),
                    decreases m - i2,
                {
                    proof {
                        lemma_flat_index(i2 as int, k as int, m as int, cols as int);
                        lemma_flat_index(i2 as int, j2 as int, m as int, m as int);
                    }
                    u.set(i2 * m + j2, cx_sub(u[i2 * m + j2], cx_mul(q, a[i2 * cols + k])));
                    i2 += 1;
                }
                proof {
                    assert(u@ == bt_u_apply_fold(
                        a@,
                        cols as int,
                        u1,
                        m as int,
                        m as int,
                        k as int,
                        denom_s,
                        j2 as int + 1,
                    ));
                }
                j2 += 1;
            }
        }
        proof {
            assert(u@ == bt_u_step(
                a@,
                cols as int,
                u_k,
                m as int,
                nu as int,
                k as int,
                b@[k as int],
            ));
            assert(u@ == bt_u_fold(
                a@,
                cols as int,
                b@,
                u_in,
                m as int,
                n as int,
                nu as int,
                kk as int + 1,
            ));
        }
        kk += 1;
    }
}

/// Phase 3c: re-applies the stored row reflectors of phase 1, last to
/// first, to the rows of `v`, recovering the true right singular vectors.
fn back_transform_v(
    a: &Vec<Complex32>,
    v: &mut Vec<Complex32>,
    c: &Vec<Complex32>,
    m: usize,
    n: usize,
    p: usize,
    nv: usize,
)
    requires
        1 <= n,
        n <= m,
        a.len() == m * (n + p),
        c.len() == n,
        old(v).len() == n * n,
        1 <= nv <= n,
    ensures
        final(v).len() == old(v).len(),
        final(v)@ == bt_v_fold(
            a@,
            n as int + p as int,
            c@,
            old(v)@,
            n as int,
            nv as int,
            n as int,
        ),
{
    let ghost v_in = v@;
    let zero: Complex32 = re_of_u32(0);
    proof {
        lemma_cols_le_len(m as int, n as int + p as int);
    }
    let cols: usize = n + p;
    if 1 < n {
        let mut kk: usize = 1;
        while kk < n
            invariant
                1 <= kk <= n,
                1 <= n <= m,
                a.len() == m * (n + p),
                c.len() == n,
                v.len() == n * n,
                1 <= nv <= n,
                cols == n + p,
                zero == c32_of_u32(0),
                v@ == bt_v_fold(
                    a@,
                    cols as int,
                    c@,
                    v_in,
                    n as int,
                    nv as int,
                    kk as int,
                ),
            decreases n - kk,
        {
            let k: usize = n - 1 - kk;
            let k1: usize = k + 1;
            let ghost v_k = v@;
            if !re_eq(c[k1], zero) {
                proof {
                    lemma_flat_index(k as int, k1 as int, m as int, cols as int);
                }
                let q0: Complex32 =
                    cx_unscale(cx_neg(cx_conj(a[k * cols + k1])), cabs(a[k * cols + k1]));
                let mut j: usize = 0;
                while j < nv
                    invariant
                        j <= nv <= n,
                        k1 < n <= m,
                        k1 == k + 1,
                        a.len() == m * (n + p),
                        v.len() == n * n,
                        cols == n + p,
                        v@ == row_scale_fold(v_k, n as int, k1 as int, q0, 0, j as int),
                    decreases nv - j,
                {
                    proof {
                        lemma_flat_index(k1 as int, j as int, n as int, n as int);
                    }
                    v.set(k1 * n + j, cx_mul(q0, v[k1 * n + j]));
                    j += 1;
                }
                let ghost v1 = v@;
                let ghost denom_s = re_mul_of(
                    cabs_of(a@[k as int * cols as int + k1 as int]),
                    c@[k1 as int],
                );
                let mut j2: usize = 0;
                while j2 < nv
                    invariant
                        j2 <= nv <= n,
                        k1 < n <= m,
                        k1 == k + 1,
                        a.len() == m * (n + p),
                        c.len() == n,
                        v.len() == n * n,
                        cols == n + p,
                        v@ == bt_v_apply_fold(
                            a@,
                            cols as int,
                            v1,
                            n as int,
                            k as int,
                            denom_s,
                            j2 as int,
                        ),
                        denom_s == re_mul_of(
                            cabs_of(a@[k as int * cols as int + k1 as int]),
                            c@[k1 as int],
                        ),
                    decreases nv - j2,
                {
                    let ghost v_prev = v@;
                    let mut q: Complex32 = re_of_u32(0);
                    let mut i: usize = k1;
                    while i < n
                        invariant
                            k1 <= i <= n,
                            k1 < n <= m,
                            k1 == k + 1,
                            j2 < nv <= n,
                            a.len() == m * (n + p),
                            v.len() == n * n,
                            cols == n + p,
                            v@ == v_prev,
                            q == bt_v_dot_fold(
                                a@,
                                cols as int,
                                v_prev,
                                n as int,
                                k as int,
                                j2 as int,
                                k as int + 1,
                                i as int,
                            ),
                        decreases n - i,
                    {
                        proof {
                            lemma_flat_index(k as int, i as int, m as int, cols as int);
                            lemma_flat_index(i as int, j2 as int, n as int, n as int);
                        }
                        q = cx_add(q, cx_mul(a[k * cols + i], v[i * n + j2]));
                        i += 1;
                    }
                    proof {
                        lemma_flat_index(k as int, k1 as int, m as int, cols as int);
                    }
                    q = cx_unscale(q, re_mul(cabs(a[k * cols + k1]), c[k1]));
                    let mut i2: usize = k1;
                    while i2 < n
                        invariant
                            k1 <= i2 <= n,
                            k1 < n <= m,
                            k1 == k + 1,
                            j2 < nv <= n,
                            a.len() == m * (n + p),
                            v.len() == n * n,
                            cols == n + p,
                            v@ == bt_v_update_fold(
                                a@,
                                cols as int,
                                v_prev,
                                n as int,
                                k as int,
                                j2 as int,
                                q,
                                k as int + 1,
                                i2 as int,
                            ),
                        decreases n - i2,
                    {
                        proof {
                            lemma_flat_index(k as int, i2 as int, m as int, cols as int);
                            lemma_flat_index(i2 as int, j2 as int, n as int, n as int);
                        }
                        v.set(i2 * n + j2, cx_sub(v[i2 * n + j2], cx_mul(q, cx_conj(a[k * cols + i2]))));
                        i2 += 1;
                    }
                    proof {
                        assert(v@ == bt_v_apply_fold(
                            a@,
                            cols as int,
                            v1,
                            n as int,
                            k as int,
                            denom_s,
                            j2 as int + 1,
                        ));
                    }
                    j2 += 1;
                }
            }
            proof {
                assert(v@ == bt_v_step(
                    a@,
                    cols as int,
                    v_k,
                    n as int,
                    nv as int,
                    k as int,
                    c@[k1 as int],
                ));
                assert(v@ == bt_v_fold(
                    a@,
                    cols as int,
                    c@,
                    v_in,
                    n as int,
                    nv as int,
                    kk as int + 1,
                ));
            }
            kk += 1;
        }
    }
}


/// The whole decomposition as one function of the inputs: phase 1 on `a`,
/// the threshold and copies, the identity initialization of the factors,
/// phase 2, the sort, and the two back-transformations. The components are
/// the final `a`, `s`, `u` and `v`.
pub open spec fn csvd_spec(
    a: Seq<Complex32>,
    s: Seq<Complex32>,
    u: Seq<Complex32>,
    v: Seq<Complex32>,
    m: int,
    n: int,
    p: int,
    nu: int,
    nv: int,
) -> (Seq<Complex32>, Seq<Complex32>, Seq<Complex32>, Seq<Complex32>) {
    let hh = householder_fold(a, zero_row(n), zero_row(n), m, n, p, n);
    let et = eps_fold(hh.1, hh.2, s, zero_row(n), n);
    let eps = re_mul_of(et.2, svd_eta());
    let u1 = if nu > 0 {
        ident_init(u, m, nu)
    } else {
        u
    };
    let v1 = if nv > 0 {
        ident_init(v, n, nv)
    } else {
        v
    };
    let qd = qr_diag_fold(et.0, et.1, u1, v1, m, n, nu, nv, eps, n);
    let so = sort_fold(qd.0, qd.2, qd.3, m, n, nu, nv, n);
    let u2 = if nu > 0 {
        bt_u_fold(hh.0, n + p, hh.1, so.1, m, n, nu, n)
    } else {
        so.1
    };
    let v2 = if nv > 0 {
        bt_v_fold(hh.0, n + p, hh.2, so.2, n, nv, n)
    } else {
        so.2
    };
    (hh.0, so.0, u2, v2)
}

/// Computes the singular value decomposition of the complex `m` by `n`
/// matrix held row-major in `a` (with `p` auxiliary columns appended to
/// each row, which receive the same left transformation).
///
/// On success the first `n` entries of `s` hold the singular values,
/// non-negative and sorted in descending order; the first `nu` columns of
/// the `m` by `m` row-major buffer `u` and the first `nv` columns of the
/// `n` by `n` row-major buffer `v` hold left and right singular vectors;
/// and `a` has been destructively overwritten. On a dimension error
/// nothing is touched.
///
/// Each trailing index is given at most `QR_SWEEP_LIMIT` shifted QR
/// sweeps; if rounding keeps a block from converging within that budget,
/// the value reached by the last sweep is accepted as that singular value.
pub fn csvd(
    a: &mut Vec<Complex32>,
    m: usize,
    n: usize,
    p: usize,
    nu: usize,
    nv: usize,
    s: &mut Vec<Complex32>,
    u: &mut Vec<Complex32>,
    v: &mut Vec<Complex32>,
) -> (res: Result<(), SvdError>)
    requires
        dims_ok(m as int, n as int) ==> {
            &&& old(a).len() == m * (n + p)
            &&& old(s).len() == n
            &&& nu <= m
            &&& nv <= n
            &&& (nu > 0 ==> old(u).len() == m * m)
            &&& (nv > 0 ==> old(v).len() == n * n)
        },
    ensures
        res == csvd_status(m as int, n as int),
        res is Err ==> final(a)@ == old(a)@ && final(s)@ == old(s)@ && final(u)@ == old(u)@
            && final(v)@ == old(v)@,
        final(a).len() == old(a).len(),
        final(s).len() == old(s).len(),
        final(u).len() == old(u).len(),
        final(v).len() == old(v).len(),
        nu == 0 ==> final(u)@ == old(u)@,
        nv == 0 ==> final(v)@ == old(v)@,
        res is Ok ==> final(a)@ == csvd_spec(
            old(a)@,
            old(s)@,
            old(u)@,
            old(v)@,
            m as int,
            n as int,
            p as int,
            nu as int,
            nv as int,
        ).0,
        res is Ok ==> final(s)@ == csvd_spec(
            old(a)@,
            old(s)@,
            old(u)@,
            old(v)@,
            m as int,
            n as int,
            p as int,
            nu as int,
            nv as int,
        ).1,
        res is Ok ==> final(u)@ == csvd_spec(
            old(a)@,
            old(s)@,
            old(u)@,
            old(v)@,
            m as int,
            n as int,
            p as int,
            nu as int,
            nv as int,
        ).2,
        res is Ok ==> final(v)@ == csvd_spec(
            old(a)@,
            old(s)@,
            old(u)@,
            old(v)@,
            m as int,
            n as int,
            p as int,
            nu as int,
            nv as int,
        ).3,
{
    if n < 1 {
        return Err(SvdError::NLessThanOne);
    }
    if NBIG < n {
        return Err(SvdError::NExceedsCapacity);
    }
    if m < 1 {
        return Err(SvdError::MLessThanOne);
    }
    if m < n {
        return Err(SvdError::MLessThanN);
    }

    let ghost a_in = a@;
    let ghost s_in = s@;
    let ghost u_in = u@;
    let ghost v_in = v@;
    let zero: Complex32 = re_of_u32(0);

    // Working vectors for the bidiagonal magnitudes.
    let mut b: Vec<Complex32> = Vec::new();
    let mut c: Vec<Complex32> = Vec::new();
    let mut t: Vec<Complex32> = Vec::new();
    let mut i: usize = 0;
    while i < n
        invariant
            i <= n,
            b.len() == i,
            c.len() == i,
            t.len() == i,
            zero == c32_of_u32(0),
            b@ == zero_row(i as int),
            c@ == zero_row(i as int),
            t@ == zero_row(i as int),
        decreases n - i,
    {
        b.push(zero);
        c.push(zero);
        t.push(zero);
        proof {
            assert(b@ =~= zero_row(i as int + 1));
            assert(c@ =~= zero_row(i as int + 1));
            assert(t@ =~= zero_row(i as int + 1));
        }
        i += 1;
    }

    // Phase 1: Householder bidiagonalization.
    householder_reduce(a, m, n, p, &mut b, &mut c);
    let ghost t_pre = t@;

    // Tolerance for negligible elements, from the matrix's own scale.
    let eta: Complex32 = re_mul(
        re_div(re_of_u32(11920929), re_of_u32(10000000)),
        re_powf(re_of_u32(10), re_neg(re_of_u32(7))),
    );
    let mut eps: Complex32 = zero;
    let mut k2: usize = 0;
    while k2 < n
        invariant
            k2 <= n,
            s.len() == n,
            t.len() == n,
            b.len() == n,
            c.len() == n,
            (s@, t@, eps) == eps_fold(b@, c@, s_in, t_pre, k2 as int),
        decreases n - k2,
    {
        s.set(k2, b[k2]);
        t.set(k2, c[k2]);
        eps = re_max(eps, re_add(s[k2], t[k2]));
        k2 += 1;
    }
    eps = re_mul(eps, eta);

    // Initialization of the unitary factors.
    if 0 < nu {
        init_identity(u, m, nu);
    }
    if 0 < nv {
        init_identity(v, n, nv);
    }

    // Phase 2: implicit-shift QR diagonalization.
    qr_diagonalize(s, &mut t, u, v, m, n, nu, nv, eps);

    // Phase 3: sort and back-transform.
    sort_singular(s, u, v, m, n, nu, nv);
    if 0 < nu {
        back_transform_u(a, u, &b, m, n, p, nu);
    }
    if 0 < nv {
        back_transform_v(a, v, &c, m, n, p, nv);
    }
    Ok(())
}


} // verus!
