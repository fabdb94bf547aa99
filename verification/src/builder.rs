//! The pseudo-inverse builder: consumes the factors that the SVD engine
//! produced and assembles the Moore-Penrose pseudo-inverse
//! `INV = V * S+ * U*`, where `S+` holds the reciprocals of the
//! non-negligible singular values. A dense matrix multiply used by callers
//! to check results lives here as well.

use vstd::prelude::*;
use vstd::pervasive::VecAdditionalExecFns;

use num_complex::Complex32;

use crate::NBIG;
use crate::engine::{csvd, csvd_spec, csvd_status, dims_ok, zero_row};
use crate::error::SvdError;
use crate::layout::{lemma_flat_decompose_rect, lemma_flat_index, lemma_grid_update, mat_at};
use crate::scalar::{
    c32_of_u32, cx_add, cx_add_of, cx_conj, cx_conj_of, cx_mul, cx_mul_of, cx_scale, cx_scale_of,
    re_div, re_div_of, re_lt, re_lt_of, re_of_u32,
};

verus! {

/// The fixed absolute cut-off below which a singular value is treated as
/// zero by the builder (unlike the engine's scale-relative threshold).
pub open spec fn pinv_cutoff() -> Complex32 {
    re_div_of(c32_of_u32(1), c32_of_u32(10000))
}

/// What the reciprocal step leaves in place of one singular value: its
/// reciprocal when it exceeds the cut-off, the zero value otherwise.
pub open spec fn pinv_recip_of(x: Complex32) -> Complex32 {
    if re_lt_of(pinv_cutoff(), x) {
        re_div_of(c32_of_u32(1), x)
    } else {
        c32_of_u32(0)
    }
}

/// The first `k` terms of the pseudo-inverse entry `(i, j)`:
/// `sum over t of v[i, t] * s[t] * conj(u[j, t])`, accumulated in the order
/// the builder adds them, over the already-reciprocated `s`.
pub open spec fn pinv_sum(
    s: Seq<Complex32>,
    u: Seq<Complex32>,
    v: Seq<Complex32>,
    m: int,
    n: int,
    i: int,
    j: int,
    k: int,
) -> Complex32
    decreases k,
{
    if k <= 0 {
        c32_of_u32(0)
    } else {
        cx_add_of(
            pinv_sum(s, u, v, m, n, i, j, k - 1),
            cx_mul_of(cx_scale_of(v[i * n + (k - 1)], s[k - 1]), cx_conj_of(u[j * m + (k - 1)])),
        )
    }
}

/// Builds the pseudo-inverse from a decomposition produced with `nu == m`
/// and `nv == n`: each singular value above a fixed cutoff is replaced by
/// its reciprocal (a negligible one by zero), `s` is zero-padded in place
/// from length `n` to length `m`, and `inv[i, j]` receives
/// `sum over k of v[i, k] * s[k] * conj(u[j, k])`, row-major `n` by `m`.
pub fn find_pinv_from_svd(
    s: &mut Vec<Complex32>,
    u: &Vec<Complex32>,
    v: &Vec<Complex32>,
    m: usize,
    n: usize,
    inv: &mut Vec<Complex32>,
)
    requires
        1 <= n,
        n <= m,
        old(s).len() == n,
        u.len() == m * m,
        v.len() == n * n,
        old(inv).len() == n * m,
    ensures
        final(s).len() == m,
        forall|i: int| 0 <= i < n ==> final(s)@[i] == pinv_recip_of(old(s)@[i]),
        forall|i: int| n <= i < m ==> final(s)@[i] == c32_of_u32(0),
        final(inv).len() == n * m,
        forall|i: int, j: int|
            0 <= i < n && 0 <= j < m ==> mat_at(final(inv)@, m as int, i, j) == pinv_sum(
                final(s)@,
                u@,
                v@,
                m as int,
                n as int,
                i,
                j,
                n as int,
            ),
{
    let ghost s0 = s@;
    let zero: Complex32 = re_of_u32(0);
    let one: Complex32 = re_of_u32(1);
    // Cut-off below which a singular value is treated as zero. This bound
    // is absolute, unlike the scale-relative threshold of the engine.
    let eps: Complex32 = re_div(one, re_of_u32(10000));

    // Reciprocal of every non-negligible singular value.
    let mut i: usize = 0;
    while i < n
        invariant
            i <= n,
            s.len() == n,
            eps == pinv_cutoff(),
            one == c32_of_u32(1),
            zero == c32_of_u32(0),
            s0.len() == n,
            forall|p: int| 0 <= p < i ==> s@[p] == pinv_recip_of(s0[p]),
            forall|p: int| i <= p < n ==> s@[p] == s0[p],
        decreases n - i,
    {
        if re_lt(eps, s[i]) {
            s.set(i, re_div(one, s[i]));
        } else {
            s.set(i, zero);
        }
        i += 1;
    }

    // Extend `s` to length `m` with zeros.
    let mut filled: usize = n;
    while filled < m
        invariant
            n <= filled <= m,
            s.len() == filled,
            zero == c32_of_u32(0),
            s0.len() == n,
            forall|p: int| 0 <= p < n ==> s@[p] == pinv_recip_of(s0[p]),
            forall|p: int| n <= p < filled ==> s@[p] == c32_of_u32(0),
        decreases m - filled,
    {
        s.push(zero);
        filled += 1;
    }

    // inv = V * S+ * U^*.
    let ghost sr = s@;
    let mut r: usize = 0;
    while r < n
        invariant
            r <= n,
            1 <= n <= m,
            s.len() == m,
            s@ == sr,
            u.len() == m * m,
            v.len() == n * n,
            inv.len() == n * m,
            forall|i2: int, j2: int|
                0 <= i2 < r && 0 <= j2 < m ==> mat_at(inv@, m as int, i2, j2) == pinv_sum(
                    sr,
                    u@,
                    v@,
                    m as int,
                    n as int,
                    i2,
                    j2,
                    n as int,
                ),
        decreases n - r,
    {
        let mut j: usize = 0;
        while j < m
            invariant
                j <= m,
                r < n <= m,
                s.len() == m,
                s@ == sr,
                u.len() == m * m,
                v.len() == n * n,
                inv.len() == n * m,
                forall|i2: int, j2: int|
                    0 <= i2 < r && 0 <= j2 < m ==> mat_at(inv@, m as int, i2, j2) == pinv_sum(
                        sr,
                        u@,
                        v@,
                        m as int,
                        n as int,
                        i2,
                        j2,
                        n as int,
                    ),
                forall|j2: int|
                    0 <= j2 < j ==> mat_at(inv@, m as int, r as int, j2) == pinv_sum(
                        sr,
                        u@,
                        v@,
                        m as int,
                        n as int,
                        r as int,
                        j2,
                        n as int,
                    ),
            decreases m - j,
        {
            let mut acc: Complex32 = re_of_u32(0);
            let mut k: usize = 0;
            while k < n
                invariant
                    k <= n,
                    r < n <= m,
                    j < m,
                    s.len() == m,
                    s@ == sr,
                    u.len() == m * m,
                    v.len() == n * n,
                    inv.len() == n * m,
                    acc == pinv_sum(sr, u@, v@, m as int, n as int, r as int, j as int, k as int),
                decreases n - k,
            {
                proof {
                    lemma_flat_index(r as int, k as int, n as int, n as int);
                    lemma_flat_index(j as int, k as int, m as int, m as int);
                }
                acc = cx_add(acc, cx_mul(cx_scale(v[r * n + k], s[k]), cx_conj(u[j * m + k])));
                k += 1;
            }
            proof {
                lemma_flat_index(r as int, j as int, n as int, m as int);
            }
            let ghost pre = inv@;
            inv.set(r * m + j, acc);
            proof {
                lemma_grid_update(pre, inv@, n as int, m as int, r as int, j as int, acc);
            }
            j += 1;
        }
        r += 1;
    }
}

/// The decomposition `pinv` computes internally: `csvd` on the matrix with
/// `p == 0`, `nu == m`, `nv == n`, and freshly zeroed factor buffers.
pub open spec fn pinv_dec(a0: Seq<Complex32>, m: int, n: int) -> (
    Seq<Complex32>,
    Seq<Complex32>,
    Seq<Complex32>,
    Seq<Complex32>,
) {
    csvd_spec(a0, zero_row(n), zero_row(m * m), zero_row(n * n), m, n, 0, m, n)
}

/// The singular-value vector after the reciprocal step and the zero
/// padding, as `pinv` hands it to the product.
pub open spec fn pinv_s_final(a0: Seq<Complex32>, m: int, n: int) -> Seq<Complex32> {
    Seq::new(
        m as nat,
        |i: int|
            if i < n {
                pinv_recip_of(pinv_dec(a0, m, n).1[i])
            } else {
                c32_of_u32(0)
            },
    )
}

/// The full pseudo-inverse matrix `pinv` writes: row-major `n` by `m`,
/// every entry the accumulated triple-product sum over the decomposition.
pub open spec fn pinv_inv_seq(a0: Seq<Complex32>, m: int, n: int) -> Seq<Complex32> {
    Seq::new(
        (n * m) as nat,
        |p: int|
            pinv_sum(
                pinv_s_final(a0, m, n),
                pinv_dec(a0, m, n).2,
                pinv_dec(a0, m, n).3,
                m,
                n,
                p / m,
                p % m,
                n,
            ),
    )
}

/// Finds the pseudo-inverse of the `input_num_rows` by `input_num_cols`
/// matrix held row-major in `input_mat`, writing the `input_num_cols` by
/// `input_num_rows` result row-major into `inverse_mat`. The input matrix
/// is destructively decomposed; on a dimension error both buffers are left
/// untouched.
pub fn pinv(
    input_mat: &mut Vec<Complex32>,
    inverse_mat: &mut Vec<Complex32>,
    input_num_rows: usize,
    input_num_cols: usize,
) -> (res: Result<(), SvdError>)
    requires
        dims_ok(input_num_rows as int, input_num_cols as int) ==> {
            &&& old(input_mat).len() == input_num_rows * input_num_cols
            &&& old(inverse_mat).len() == input_num_cols * input_num_rows
            &&& input_num_rows * input_num_rows <= usize::MAX
        },
    ensures
        res == csvd_status(input_num_rows as int, input_num_cols as int),
        res is Err ==> final(input_mat)@ == old(input_mat)@ && final(inverse_mat)@ == old(
            inverse_mat,
        )@,
        final(input_mat).len() == old(input_mat).len(),
        final(inverse_mat).len() == old(inverse_mat).len(),
        res is Ok ==> final(input_mat)@ == pinv_dec(
            old(input_mat)@,
            input_num_rows as int,
            input_num_cols as int,
        ).0,
        res is Ok ==> final(inverse_mat)@ == pinv_inv_seq(
            old(input_mat)@,
            input_num_rows as int,
            input_num_cols as int,
        ),
{
    let m: usize = input_num_rows;
    let n: usize = input_num_cols;
    if n < 1 {
        return Err(SvdError::NLessThanOne);
    }
    if NBIG < n {
        return Err(SvdError::NExceedsCapacity);
    }
    if m < 1 {
        return Err(SvdError::MLessThanOne);
    }
    if m < n {
        return Err(SvdError::MLessThanN);
    }

    let ghost a0 = input_mat@;
    let zero: Complex32 = re_of_u32(0);

    // Singular-value vector of dimension n.
    let mut s: Vec<Complex32> = Vec::new();
    let mut i: usize = 0;
    while i < n
        invariant
            i <= n,
            s.len() == i,
            zero == c32_of_u32(0),
            s@ == zero_row(i as int),
        decreases n - i,
    {
        s.push(zero);
        proof {
            assert(s@ =~= zero_row(i as int + 1));
        }
        i += 1;
    }

    // U matrix of dimension m x m.
    assert(n * n <= m * m) by (nonlinear_arith)
        requires
            0 <= n <= m,
    ;
    let mm: usize = m * m;
    let mut u: Vec<Complex32> = Vec::new();
    let mut i2: usize = 0;
    while i2 < mm
        invariant
            i2 <= mm,
            u.len() == i2,
            zero == c32_of_u32(0),
            u@ == zero_row(i2 as int),
        decreases mm - i2,
    {
        u.push(zero);
        proof {
            assert(u@ =~= zero_row(i2 as int + 1));
        }
        i2 += 1;
    }

    // V matrix of dimension n x n.
    let nn: usize = n * n;
    let mut v: Vec<Complex32> = Vec::new();
    let mut i3: usize = 0;
    while i3 < nn
        invariant
            i3 <= nn,
            v.len() == i3,
            zero == c32_of_u32(0),
            v@ == zero_row(i3 as int),
        decreases nn - i3,
    {
        v.push(zero);
        proof {
            assert(v@ =~= zero_row(i3 as int + 1));
        }
        i3 += 1;
    }

    match csvd(input_mat, m, n, 0, m, n, &mut s, &mut u, &mut v) {
        Ok(()) => {}
        Err(e) => {
            return Err(e);
        }
    }
    proof {
        assert(input_mat@ == pinv_dec(a0, m as int, n as int).0);
        assert(s@ == pinv_dec(a0, m as int, n as int).1);
        assert(u@ == pinv_dec(a0, m as int, n as int).2);
        assert(v@ == pinv_dec(a0, m as int, n as int).3);
    }
    let ghost s_dec = s@;

    find_pinv_from_svd(&mut s, &u, &v, m, n, inverse_mat);
    proof {
        assert forall|q: int| 0 <= q < m implies s@[q] == pinv_s_final(
            a0,
            m as int,
            n as int,
        )[q] by {}
        assert(s@ =~= pinv_s_final(a0, m as int, n as int));
        assert forall|p: int| 0 <= p < n * m implies inverse_mat@[p] == pinv_inv_seq(
            a0,
            m as int,
            n as int,
        )[p] by {
            lemma_flat_decompose_rect(p, n as int, m as int);
            let ii = p / (m as int);
            let jj = p % (m as int);
            assert(inverse_mat@[p] == mat_at(inverse_mat@, m as int, ii, jj));
        }
        assert(inverse_mat@ =~= pinv_inv_seq(a0, m as int, n as int));
    }
    Ok(())
}

/// The first `k` products `a[i, t] * b[t, j]` accumulated onto `base`, in
/// the order the multiply adds them.
pub open spec fn mm_acc(
    base: Complex32,
    a: Seq<Complex32>,
    b: Seq<Complex32>,
    a_cols: int,
    b_cols: int,
    i: int,
    j: int,
    k: int,
) -> Complex32
    decreases k,
{
    if k <= 0 {
        base
    } else {
        cx_add_of(
            mm_acc(base, a, b, a_cols, b_cols, i, j, k - 1),
            cx_mul_of(a[i * a_cols + (k - 1)], b[(k - 1) * b_cols + j]),
        )
    }
}

/// What entry `(i, j)` of the output holds after the multiply: the full
/// inner-product sum accumulated onto the entry's old value.
pub open spec fn mm_entry(
    c0: Seq<Complex32>,
    a: Seq<Complex32>,
    b: Seq<Complex32>,
    a_cols: int,
    b_cols: int,
    i: int,
    j: int,
) -> Complex32 {
    mm_acc(mat_at(c0, b_cols, i, j), a, b, a_cols, b_cols, i, j, a_cols)
}

/// Dense complex matrix multiply: accumulates `mat_a * mat_b` onto
/// `mat_c`, all row-major, so a caller that wants the plain product passes
/// a zeroed `mat_c`. Fails, touching nothing, exactly when the inner
/// dimensions disagree.
pub fn matrix_mult(
    mat_a: &Vec<Complex32>,
    a_rows: usize,
    a_cols: usize,
    mat_b: &Vec<Complex32>,
    b_rows: usize,
    b_cols: usize,
    mat_c: &mut Vec<Complex32>,
) -> (res: Result<(), &'static str>)
    requires
        mat_a.len() >= a_rows * a_cols,
        mat_b.len() >= b_rows * b_cols,
        old(mat_c).len() >= a_rows * b_cols,
    ensures
        res is Err <==> a_cols != b_rows,
        res matches Err(e) ==> e@ == "Matrix dimension not compatible!"@,
        res is Err ==> final(mat_c)@ == old(mat_c)@,
        final(mat_c).len() == old(mat_c).len(),
        res is Ok ==> forall|i: int, j: int|
            0 <= i < a_rows && 0 <= j < b_cols ==> mat_at(final(mat_c)@, b_cols as int, i, j)
                == mm_entry(
                old(mat_c)@,
                mat_a@,
                mat_b@,
                a_cols as int,
                b_cols as int,
                i,
                j,
            ),
        res is Ok ==> forall|p: int|
            a_rows * b_cols <= p < old(mat_c).len() ==> final(mat_c)@[p] == old(mat_c)@[p],
{
    if a_cols != b_rows {
        return Err("Matrix dimension not compatible!");
    }

    let ghost c0 = mat_c@;
    let mut i: usize = 0;
    while i < a_rows
        invariant
            i <= a_rows,
            a_cols == b_rows,
            mat_a.len() >= a_rows * a_cols,
            mat_b.len() >= b_rows * b_cols,
            mat_c.len() >= a_rows * b_cols,
            mat_c@.len() == c0.len(),
            forall|i2: int, j2: int|
                0 <= i2 < i && 0 <= j2 < b_cols ==> mat_at(mat_c@, b_cols as int, i2, j2)
                    == mm_entry(c0, mat_a@, mat_b@, a_cols as int, b_cols as int, i2, j2),
            forall|i2: int, j2: int|
                i <= i2 < a_rows && 0 <= j2 < b_cols ==> mat_at(mat_c@, b_cols as int, i2, j2)
                    == mat_at(c0, b_cols as int, i2, j2),
            forall|p: int| a_rows * b_cols <= p < c0.len() ==> mat_c@[p] == c0[p],
        decreases a_rows - i,
    {
        let mut j: usize = 0;
        while j < b_cols
            invariant
                j <= b_cols,
                i < a_rows,
                a_cols == b_rows,
                mat_a.len() >= a_rows * a_cols,
                mat_b.len() >= b_rows * b_cols,
                mat_c.len() >= a_rows * b_cols,
                mat_c@.len() == c0.len(),
                forall|i2: int, j2: int|
                    0 <= i2 < i && 0 <= j2 < b_cols ==> mat_at(mat_c@, b_cols as int, i2, j2)
                        == mm_entry(c0, mat_a@, mat_b@, a_cols as int, b_cols as int, i2, j2),
                forall|j2: int|
                    0 <= j2 < j ==> mat_at(mat_c@, b_cols as int, i as int, j2) == mm_entry(
                        c0,
                        mat_a@,
                        mat_b@,
                        a_cols as int,
                        b_cols as int,
                        i as int,
                        j2,
                    ),
                forall|i2: int, j2: int|
                    ((i2 == i && j <= j2) || i < i2) && i2 < a_rows && 0 <= j2 < b_cols ==> mat_at(
                        mat_c@,
                        b_cols as int,
                        i2,
                        j2,
                    ) == mat_at(c0, b_cols as int, i2, j2),
                forall|p: int| a_rows * b_cols <= p < c0.len() ==> mat_c@[p] == c0[p],
            decreases b_cols - j,
        {
            proof {
                lemma_flat_index(i as int, j as int, a_rows as int, b_cols as int);
            }
            let mut k: usize = 0;
            while k < a_cols
                invariant
                    k <= a_cols,
                    i < a_rows,
                    j < b_cols,
                    a_cols == b_rows,
                    mat_a.len() >= a_rows * a_cols,
                    mat_b.len() >= b_rows * b_cols,
                    mat_c.len() >= a_rows * b_cols,
                    mat_c@.len() == c0.len(),
                    forall|i2: int, j2: int|
                        0 <= i2 < i && 0 <= j2 < b_cols ==> mat_at(mat_c@, b_cols as int, i2, j2)
                            == mm_entry(c0, mat_a@, mat_b@, a_cols as int, b_cols as int, i2, j2),
                    forall|j2: int|
                        0 <= j2 < j ==> mat_at(mat_c@, b_cols as int, i as int, j2) == mm_entry(
                            c0,
                            mat_a@,
                            mat_b@,
                            a_cols as int,
                            b_cols as int,
                            i as int,
                            j2,
                        ),
                    mat_at(mat_c@, b_cols as int, i as int, j as int) == mm_acc(
                        mat_at(c0, b_cols as int, i as int, j as int),
                        mat_a@,
                        mat_b@,
                        a_cols as int,
                        b_cols as int,
                        i as int,
                        j as int,
                        k as int,
                    ),
                    forall|i2: int, j2: int|
                        ((i2 == i && j < j2) || i < i2) && i2 < a_rows && 0 <= j2 < b_cols
                            ==> mat_at(mat_c@, b_cols as int, i2, j2) == mat_at(
                            c0,
                            b_cols as int,
                            i2,
                            j2,
                        ),
                    forall|p: int| a_rows * b_cols <= p < c0.len() ==> mat_c@[p] == c0[p],
                decreases a_cols - k,
            {
                proof {
                    lemma_flat_index(i as int, j as int, a_rows as int, b_cols as int);
                    lemma_flat_index(i as int, k as int, a_rows as int, a_cols as int);
                    lemma_flat_index(k as int, j as int, b_rows as int, b_cols as int);
                }
                let prod: Complex32 = cx_mul(mat_a[i * a_cols + k], mat_b[k * b_cols + j]);
                let val: Complex32 = cx_add(mat_c[i * b_cols + j], prod);
                let ghost pre = mat_c@;
                mat_c.set(i * b_cols + j, val);
                proof {
                    lemma_grid_update(pre, mat_c@, a_rows as int, b_cols as int, i as int, j as int, val);
                    assert forall|p: int| a_rows * b_cols <= p < c0.len() implies mat_c@[p]
                        == c0[p] by {
                        lemma_flat_index(i as int, j as int, a_rows as int, b_cols as int);
                    }
                }
                k += 1;
            }
            j += 1;
        }
        i += 1;
    }
    Ok(())
}

} // verus!
