//! Pure helpers around the engine's output: rebuilding the original matrix
//! from the factors, comparing matrices entrywise, and the round trip that
//! multiplies a matrix by its pseudo-inverse and back.

use vstd::prelude::*;
use vstd::pervasive::VecAdditionalExecFns;

use num_complex::Complex32;

use crate::builder::{mm_acc, pinv, pinv_inv_seq};
use crate::engine::{dims_ok, zero_row};
use crate::layout::{lemma_flat_decompose_rect, lemma_flat_index, lemma_grid_update, lemma_mul_commute, mat_at};
use crate::scalar::{
    c32_of_u32, cx_add, cx_add_of, cx_conj, cx_conj_of, cx_mul, cx_mul_of, cx_scale, cx_scale_of,
    cx_sub, cx_sub_of, im_part, im_part_of, re_add, re_add_of, re_div, re_div_of, re_lt, re_lt_of,
    re_of_u32, re_part, re_part_of, re_powf, re_powf_of,
};

verus! {

/// The smaller of two dimensions.
pub open spec fn min_dim(m: int, n: int) -> int {
    if m < n {
        m
    } else {
        n
    }
}

/// The first `k` terms of the recomposition entry `(i, j)`:
/// `sum over t of u[i, t] * s[t] * conj(v[j, t])`, accumulated in the
/// order the rebuild adds them.
pub open spec fn rebuild_sum(
    s: Seq<Complex32>,
    u: Seq<Complex32>,
    v: Seq<Complex32>,
    m: int,
    n: int,
    i: int,
    j: int,
    k: int,
) -> Complex32
    decreases k,
{
    if k <= 0 {
        c32_of_u32(0)
    } else {
        cx_add_of(
            rebuild_sum(s, u, v, m, n, i, j, k - 1),
            cx_mul_of(cx_scale_of(u[i * m + (k - 1)], s[k - 1]), cx_conj_of(v[j * n + (k - 1)])),
        )
    }
}

/// Rebuilds `u * diag(s) * v^*` from the first `min(m, n)` singular
/// triplets into `a`, row-major `m` by `n`; `u` is `m` by `m` and `v` is
/// `n` by `n`, as the engine produces them with `nu == m` and `nv == n`.
pub fn find_orig_matrix_from_svd(
    s: &Vec<Complex32>,
    u: &Vec<Complex32>,
    v: &Vec<Complex32>,
    m: usize,
    n: usize,
    a: &mut Vec<Complex32>,
)
    requires
        s.len() >= min_dim(m as int, n as int),
        u.len() == m * m,
        v.len() == n * n,
        old(a).len() == m * n,
    ensures
        final(a).len() == old(a).len(),
        forall|i: int, j: int|
            0 <= i < m && 0 <= j < n ==> mat_at(final(a)@, n as int, i, j) == rebuild_sum(
                s@,
                u@,
                v@,
                m as int,
                n as int,
                i,
                j,
                min_dim(m as int, n as int),
            ),
{
    let min: usize = if m < n {
        m
    } else {
        n
    };
    let mut i: usize = 0;
    while i < m
        invariant
            i <= m,
            min == min_dim(m as int, n as int),
            min <= m,
            min <= n,
            s.len() >= min,
            u.len() == m * m,
            v.len() == n * n,
            a.len() == m * n,
            forall|i2: int, j2: int|
                0 <= i2 < i && 0 <= j2 < n ==> mat_at(a@, n as int, i2, j2) == rebuild_sum(
                    s@,
                    u@,
                    v@,
                    m as int,
                    n as int,
                    i2,
                    j2,
                    min as int,
                ),
        decreases m - i,
    {
        let mut j: usize = 0;
        while j < n
            invariant
                j <= n,
                i < m,
                min == min_dim(m as int, n as int),
                min <= m,
                min <= n,
                s.len() >= min,
                u.len() == m * m,
                v.len() == n * n,
                a.len() == m * n,
                forall|i2: int, j2: int|
                    0 <= i2 < i && 0 <= j2 < n ==> mat_at(a@, n as int, i2, j2) == rebuild_sum(
                        s@,
                        u@,
                        v@,
                        m as int,
                        n as int,
                        i2,
                        j2,
                        min as int,
                    ),
                forall|j2: int|
                    0 <= j2 < j ==> mat_at(a@, n as int, i as int, j2) == rebuild_sum(
                        s@,
                        u@,
                        v@,
                        m as int,
                        n as int,
                        i as int,
                        j2,
                        min as int,
                    ),
            decreases n - j,
        {
            let mut acc: Complex32 = re_of_u32(0);
            let mut k: usize = 0;
            while k < min
                invariant
                    k <= min,
                    i < m,
                    j < n,
                    min <= m,
                    min <= n,
                    s.len() >= min,
                    u.len() == m * m,
                    v.len() == n * n,
                    a.len() == m * n,
                    acc == rebuild_sum(
                        s@,
                        u@,
                        v@,
                        m as int,
                        n as int,
                        i as int,
                        j as int,
                        k as int,
                    ),
                decreases min - k,
            {
                proof {
                    lemma_flat_index(i as int, k as int, m as int, m as int);
                    lemma_flat_index(j as int, k as int, n as int, n as int);
                }
                acc = cx_add(acc, cx_mul(cx_scale(u[i * m + k], s[k]), cx_conj(v[j * n + k])));
                k += 1;
            }
            proof {
                lemma_flat_index(i as int, j as int, m as int, n as int);
            }
            let ghost pre = a@;
            a.set(i * n + j, acc);
            proof {
                lemma_grid_update(pre, a@, m as int, n as int, i as int, j as int, acc);
            }
            j += 1;
        }
        i += 1;
    }
}

/// The squared euclidean distance between two entries, computed as the
/// comparison computes it.
pub open spec fn entry_dist_of(x: Complex32, y: Complex32) -> Complex32 {
    re_add_of(
        re_powf_of(re_part_of(cx_sub_of(x, y)), c32_of_u32(2)),
        re_powf_of(im_part_of(cx_sub_of(x, y)), c32_of_u32(2)),
    )
}

/// The fixed cut-off on an entry's squared distance.
pub open spec fn cmp_cutoff() -> Complex32 {
    re_div_of(c32_of_u32(1), c32_of_u32(10000))
}

/// Whether every entry pair of the two `m` by `n` matrices lies within the
/// cut-off.
pub open spec fn entries_close(a: Seq<Complex32>, b: Seq<Complex32>, m: int, n: int) -> bool {
    forall|i: int, j: int|
        0 <= i < m && 0 <= j < n ==> !re_lt_of(
            cmp_cutoff(),
            #[trigger] entry_dist_of(mat_at(a, n, i, j), mat_at(b, n, i, j)),
        )
}

/// Compares two row-major `m` by `n` complex matrices: true exactly when
/// the squared euclidean distance between every pair of corresponding
/// entries stays within the fixed cutoff.
pub fn check_matrix_equality(a: &Vec<Complex32>, b: &Vec<Complex32>, m: usize, n: usize) -> (r:
    bool)
    requires
        a.len() >= m * n,
        b.len() >= m * n,
    ensures
        r == entries_close(a@, b@, m as int, n as int),
{
    let two: Complex32 = re_of_u32(2);
    let eps: Complex32 = re_div(re_of_u32(1), re_of_u32(10000));
    let mut equal: bool = true;
    let ghost mut wi: int = 0;
    let ghost mut wj: int = 0;
    let mut i: usize = 0;
    while i < m
        invariant
            i <= m,
            a.len() >= m * n,
            b.len() >= m * n,
            eps == cmp_cutoff(),
            two == c32_of_u32(2),
            equal ==> forall|i2: int, j2: int|
                0 <= i2 < i && 0 <= j2 < n ==> !re_lt_of(
                    cmp_cutoff(),
                    #[trigger] entry_dist_of(mat_at(a@, n as int, i2, j2), mat_at(b@, n as int, i2, j2)),
                ),
            !equal ==> 0 <= wi < m && 0 <= wj < n && re_lt_of(
                cmp_cutoff(),
                entry_dist_of(mat_at(a@, n as int, wi, wj), mat_at(b@, n as int, wi, wj)),
            ),
        decreases m - i,
    {
        let mut j: usize = 0;
        while j < n
            invariant
                j <= n,
                i < m,
                a.len() >= m * n,
                b.len() >= m * n,
                eps == cmp_cutoff(),
                two == c32_of_u32(2),
                equal ==> forall|i2: int, j2: int|
                    0 <= i2 < i && 0 <= j2 < n ==> !re_lt_of(
                        cmp_cutoff(),
                        #[trigger] entry_dist_of(
                            mat_at(a@, n as int, i2, j2),
                            mat_at(b@, n as int, i2, j2),
                        ),
                    ),
                equal ==> forall|j2: int|
                    0 <= j2 < j ==> !re_lt_of(
                        cmp_cutoff(),
                        #[trigger] entry_dist_of(
                            mat_at(a@, n as int, i as int, j2),
                            mat_at(b@, n as int, i as int, j2),
                        ),
                    ),
                !equal ==> 0 <= wi < m && 0 <= wj < n && re_lt_of(
                    cmp_cutoff(),
                    entry_dist_of(mat_at(a@, n as int, wi, wj), mat_at(b@, n as int, wi, wj)),
                ),
            decreases n - j,
        {
            proof {
                lemma_flat_index(i as int, j as int, m as int, n as int);
            }
            let d: Complex32 = cx_sub(a[i * n + j], b[i * n + j]);
            let dist: Complex32 = re_add(re_powf(re_part(d), two), re_powf(im_part(d), two));
            if re_lt(eps, dist) {
                proof {
                    wi = i as int;
                    wj = j as int;
                }
                equal = false;
            }
            j += 1;
        }
        i += 1;
    }
    equal
}

/// The pseudo-inverse the round-trip check works with: the one `pinv`
/// computes when the dimensions pass every check, and the untouched zeroed
/// buffer otherwise.
pub open spec fn cp_inv_used(a0: Seq<Complex32>, m: int, n: int) -> Seq<Complex32> {
    if dims_ok(m, n) {
        pinv_inv_seq(a0, m, n)
    } else {
        zero_row(n * m)
    }
}

/// The `m` by `m` product `a0 * inv`, entry by entry, accumulated from
/// zero in the order the check adds the terms.
pub open spec fn cp_identity_seq(
    a0: Seq<Complex32>,
    inv: Seq<Complex32>,
    m: int,
    n: int,
) -> Seq<Complex32> {
    Seq::new((m * m) as nat, |p: int| mm_acc(c32_of_u32(0), a0, inv, n, m, p / m, p % m, n))
}

/// Entry `(i, j)` of the recomputed product `(a0 * inv) * a0` that the
/// round-trip check leaves in the matrix buffer.
pub open spec fn cp_final_entry(a0: Seq<Complex32>, m: int, n: int, i: int, j: int) -> Complex32 {
    mm_acc(c32_of_u32(0), cp_identity_seq(a0, cp_inv_used(a0, m, n), m, n), a0, m, n, i, j, m)
}

/// Round-trip check of the pseudo-inverse: computes `INV` from a copy of
/// `a`, forms `a * INV * a`, and reports whether it reproduces `a`. The
/// matrix buffer is consumed as working storage, exactly as the library's
/// other destructive calls consume theirs: on return it holds the
/// recomputed product.
pub fn check_pinv(a: &mut Vec<Complex32>, m: usize, n: usize) -> (r: bool)
    requires
        old(a).len() == m * n,
        m * m <= usize::MAX,
    ensures
        final(a).len() == old(a).len(),
        r == entries_close(old(a)@, final(a)@, m as int, n as int),
        forall|i: int, j: int|
            0 <= i < m && 0 <= j < n ==> mat_at(final(a)@, n as int, i, j) == cp_final_entry(
                old(a)@,
                m as int,
                n as int,
                i,
                j,
            ),
{
    let ghost a0 = a@;
    // Keep the original entries; `a` itself is decomposed in place.
    let mut a_orig: Vec<Complex32> = Vec::new();
    let mut idx: usize = 0;
    while idx < a.len()
        invariant
            idx <= a.len(),
            a_orig.len() == idx,
            a.len() == m * n,
            a@ == a0,
            forall|p: int| 0 <= p < idx ==> a_orig@[p] == a0[p],
        decreases a.len() - idx,
    {
        a_orig.push(a[idx]);
        idx += 1;
    }
    proof {
        assert(a_orig@ =~= a0);
    }

    let zero: Complex32 = re_of_u32(0);
    let mut inv: Vec<Complex32> = Vec::new();
    let mut idx2: usize = 0;
    proof {
        lemma_mul_commute(n as int, m as int);
    }
    let nm: usize = n * m;
    while idx2 < nm
        invariant
            idx2 <= nm,
            inv.len() == idx2,
            zero == c32_of_u32(0),
            inv@ == zero_row(idx2 as int),
        decreases nm - idx2,
    {
        inv.push(zero);
        proof {
            assert(inv@ =~= zero_row(idx2 as int + 1));
        }
        idx2 += 1;
    }

    let res = pinv(a, &mut inv, m, n);
    proof {
        if res is Ok {
            assert(dims_ok(m as int, n as int));
        } else {
            assert(!dims_ok(m as int, n as int));
        }
        assert(inv@ == cp_inv_used(a0, m as int, n as int));
    }
    let ghost inv_s = inv@;

    // identity = a_orig * inv, an m by m product accumulated from zero.
    let mut identity: Vec<Complex32> = Vec::new();
    let mm: usize = m * m;
    let mut idx3: usize = 0;
    while idx3 < mm
        invariant
            idx3 <= mm,
            identity.len() == idx3,
            zero == c32_of_u32(0),
            identity@ == zero_row(idx3 as int),
        decreases mm - idx3,
    {
        identity.push(zero);
        proof {
            assert(identity@ =~= zero_row(idx3 as int + 1));
        }
        idx3 += 1;
    }
    proof {
        assert forall|i2: int, j2: int|
            0 <= i2 < m && 0 <= j2 < m implies mat_at(identity@, m as int, i2, j2) == c32_of_u32(
            0,
        ) by {
            lemma_flat_index(i2, j2, m as int, m as int);
        }
    }
    let mut i: usize = 0;
    while i < m
        invariant
            i <= m,
            a_orig.len() == m * n,
            a_orig@ == a0,
            inv.len() == n * m,
            inv@ == inv_s,
            identity.len() == m * m,
            a.len() == m * n,
            forall|i2: int, j2: int|
                0 <= i2 < i && 0 <= j2 < m ==> mat_at(identity@, m as int, i2, j2) == mm_acc(
                    c32_of_u32(0),
                    a0,
                    inv_s,
                    n as int,
                    m as int,
                    i2,
                    j2,
                    n as int,
                ),
            forall|i2: int, j2: int|
                i <= i2 < m && 0 <= j2 < m ==> mat_at(identity@, m as int, i2, j2) == c32_of_u32(
                    0,
                ),
        decreases m - i,
    {
        let mut j: usize = 0;
        while j < m
            invariant
                j <= m,
                i < m,
                a_orig.len() == m * n,
                a_orig@ == a0,
                inv.len() == n * m,
                inv@ == inv_s,
                identity.len() == m * m,
                a.len() == m * n,
                forall|i2: int, j2: int|
                    0 <= i2 < i && 0 <= j2 < m ==> mat_at(identity@, m as int, i2, j2) == mm_acc(
                        c32_of_u32(0),
                        a0,
                        inv_s,
                        n as int,
                        m as int,
                        i2,
                        j2,
                        n as int,
                    ),
                forall|j2: int|
                    0 <= j2 < j ==> mat_at(identity@, m as int, i as int, j2) == mm_acc(
                        c32_of_u32(0),
                        a0,
                        inv_s,
                        n as int,
                        m as int,
                        i as int,
                        j2,
                        n as int,
                    ),
                forall|i2: int, j2: int|
                    ((i2 == i && j <= j2) || i < i2) && i2 < m && 0 <= j2 < m ==> mat_at(
                        identity@,
                        m as int,
                        i2,
                        j2,
                    ) == c32_of_u32(0),
            decreases m - j,
        {
            let mut k: usize = 0;
            while k < n
                invariant
                    k <= n,
                    i < m,
                    j < m,
                    a_orig.len() == m * n,
                    a_orig@ == a0,
                    inv.len() == n * m,
                    inv@ == inv_s,
                    identity.len() == m * m,
                    a.len() == m * n,
                    forall|i2: int, j2: int|
                        0 <= i2 < i && 0 <= j2 < m ==> mat_at(identity@, m as int, i2, j2)
                            == mm_acc(
                            c32_of_u32(0),
                            a0,
                            inv_s,
                            n as int,
                            m as int,
                            i2,
                            j2,
                            n as int,
                        ),
                    forall|j2: int|
                        0 <= j2 < j ==> mat_at(identity@, m as int, i as int, j2) == mm_acc(
                            c32_of_u32(0),
                            a0,
                            inv_s,
                            n as int,
                            m as int,
                            i as int,
                            j2,
                            n as int,
                        ),
                    mat_at(identity@, m as int, i as int, j as int) == mm_acc(
                        c32_of_u32(0),
                        a0,
                        inv_s,
                        n as int,
                        m as int,
                        i as int,
                        j as int,
                        k as int,
                    ),
                    forall|i2: int, j2: int|
                        ((i2 == i && j < j2) || i < i2) && i2 < m && 0 <= j2 < m ==> mat_at(
                            identity@,
                            m as int,
                            i2,
                            j2,
                        ) == c32_of_u32(0),
                decreases n - k,
            {
                proof {
                    lemma_flat_index(i as int, j as int, m as int, m as int);
                    lemma_flat_index(i as int, k as int, m as int, n as int);
                    lemma_flat_index(k as int, j as int, n as int, m as int);
                }
                let prod: Complex32 = cx_mul(a_orig[i * n + k], inv[k * m + j]);
                let val: Complex32 = cx_add(identity[i * m + j], prod);
                let ghost pre = identity@;
                identity.set(i * m + j, val);
                proof {
                    lemma_grid_update(pre, identity@, m as int, m as int, i as int, j as int, val);
                }
                k += 1;
            }
            j += 1;
        }
        i += 1;
    }
    proof {
        assert forall|p: int| 0 <= p < m * m implies identity@[p] == cp_identity_seq(
            a0,
            inv_s,
            m as int,
            n as int,
        )[p] by {
            lemma_flat_decompose_rect(p, m as int, m as int);
            let ii = p / (m as int);
            let jj = p % (m as int);
            assert(identity@[p] == mat_at(identity@, m as int, ii, jj));
        }
        assert(identity@ =~= cp_identity_seq(a0, inv_s, m as int, n as int));
    }
    let ghost ident_s = identity@;

    // a = identity * a_orig, back to an m by n matrix.
    let mut i2: usize = 0;
    while i2 < m
        invariant
            i2 <= m,
            a_orig.len() == m * n,
            a_orig@ == a0,
            identity.len() == m * m,
            identity@ == ident_s,
            a.len() == m * n,
            forall|i3: int, j3: int|
                0 <= i3 < i2 && 0 <= j3 < n ==> mat_at(a@, n as int, i3, j3) == mm_acc(
                    c32_of_u32(0),
                    ident_s,
                    a0,
                    m as int,
                    n as int,
                    i3,
                    j3,
                    m as int,
                ),
        decreases m - i2,
    {
        let mut j2: usize = 0;
        while j2 < n
            invariant
                j2 <= n,
                i2 < m,
                a_orig.len() == m * n,
                a_orig@ == a0,
                identity.len() == m * m,
                identity@ == ident_s,
                a.len() == m * n,
                forall|i3: int, j3: int|
                    0 <= i3 < i2 && 0 <= j3 < n ==> mat_at(a@, n as int, i3, j3) == mm_acc(
                        c32_of_u32(0),
                        ident_s,
                        a0,
                        m as int,
                        n as int,
                        i3,
                        j3,
                        m as int,
                    ),
                forall|j3: int|
                    0 <= j3 < j2 ==> mat_at(a@, n as int, i2 as int, j3) == mm_acc(
                        c32_of_u32(0),
                        ident_s,
                        a0,
                        m as int,
                        n as int,
                        i2 as int,
                        j3,
                        m as int,
                    ),
            decreases n - j2,
        {
            let mut acc: Complex32 = re_of_u32(0);
            let mut k2: usize = 0;
            while k2 < m
                invariant
                    k2 <= m,
                    i2 < m,
                    j2 < n,
                    a_orig.len() == m * n,
                    a_orig@ == a0,
                    identity.len() == m * m,
                    identity@ == ident_s,
                    a.len() == m * n,
                    acc == mm_acc(
                        c32_of_u32(0),
                        ident_s,
                        a0,
                        m as int,
                        n as int,
                        i2 as int,
                        j2 as int,
                        k2 as int,
                    ),
                decreases m - k2,
            {
                proof {
                    lemma_flat_index(i2 as int, k2 as int, m as int, m as int);
                    lemma_flat_index(k2 as int, j2 as int, m as int, n as int);
                }
                acc = cx_add(acc, cx_mul(identity[i2 * m + k2], a_orig[k2 * n + j2]));
                k2 += 1;
            }
            proof {
                lemma_flat_index(i2 as int, j2 as int, m as int, n as int);
            }
            let ghost pre = a@;
            a.set(i2 * n + j2, acc);
            proof {
                lemma_grid_update(pre, a@, m as int, n as int, i2 as int, j2 as int, acc);
            }
            j2 += 1;
        }
        i2 += 1;
    }

    check_matrix_equality(&a_orig, a, m, n)
}

} // verus!
