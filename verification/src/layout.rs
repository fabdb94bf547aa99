use vstd::prelude::*;

verus! {

/// Exchanging two entries of a sequence leaves the multiset of its
/// entries unchanged.
pub(crate) proof fn lemma_swap_preserves_multiset<A>(s: Seq<A>, j: int, k: int)
    requires
        0 <= j < s.len(),
        0 <= k < s.len(),
    ensures
        s.update(j, s[k]).update(k, s[j]).to_multiset() == s.to_multiset(),
{
    broadcast use vstd::seq_lib::group_to_multiset_ensures;
    broadcast use vstd::multiset::group_multiset_axioms;
    let s1 = s.update(j, s[k]);
    let s2 = s1.update(k, s[j]);
    vstd::seq_lib::to_multiset_update(s, j, s[k]);
    vstd::seq_lib::to_multiset_update(s1, k, s[j]);
    assert(s1[k] == s[k]);
    assert(s.contains(s[j]));
    assert(s.contains(s[k]));
    assert(s.to_multiset().count(s[j]) > 0);
    assert(s.to_multiset().count(s[k]) > 0);
    assert(s2.to_multiset() =~= s.to_multiset());
}

/// A row-major `rows` by `cols` matrix stores entry `(i, j)` at offset
/// `i * cols + j`; that offset lies inside the backing vector.
pub(crate) proof fn lemma_flat_index(i: int, j: int, rows: int, cols: int)
    by (nonlinear_arith)
    requires
        0 <= i < rows,
        0 <= j < cols,
    ensures
        0 <= i * cols + j,
        i * cols + j < rows * cols,
{
}

/// Multiplication of mathematical integers commutes.
pub(crate) proof fn lemma_mul_commute(a: int, b: int)
    by (nonlinear_arith)
    ensures
        a * b == b * a,
{
}

/// A matrix with at least one row is at least as long as one of its rows.
pub(crate) proof fn lemma_cols_le_len(rows: int, cols: int)
    by (nonlinear_arith)
    requires
        1 <= rows,
        0 <= cols,
    ensures
        cols <= rows * cols,
{
}


/// The entry `(i, j)` of a row-major matrix with `cols` columns.
pub open spec fn mat_at<A>(w: Seq<A>, cols: int, i: int, j: int) -> A {
    w[i * cols + j]
}

/// Distinct positions of a row-major grid have distinct flat offsets.
pub(crate) proof fn lemma_flat_index_ne(i1: int, j1: int, i2: int, j2: int, cols: int)
    by (nonlinear_arith)
    requires
        0 <= i1,
        0 <= i2,
        0 <= j1 < cols,
        0 <= j2 < cols,
        i1 != i2 || j1 != j2,
    ensures
        i1 * cols + j1 != i2 * cols + j2,
{
}

/// Writing one entry of a `rows` by `cols` grid changes that entry and no
/// other.
pub(crate) proof fn lemma_grid_update<A>(
    pre: Seq<A>,
    post: Seq<A>,
    rows: int,
    cols: int,
    i: int,
    j: int,
    v: A,
)
    requires
        0 <= i < rows,
        0 <= j < cols,
        rows * cols <= pre.len(),
        post == pre.update(i * cols + j, v),
    ensures
        mat_at(post, cols, i, j) == v,
        post.len() == pre.len(),
        forall|i2: int, j2: int|
            0 <= i2 < rows && 0 <= j2 < cols && (i2 != i || j2 != j) ==> mat_at(
                post,
                cols,
                i2,
                j2,
            ) == mat_at(pre, cols, i2, j2),
{
    lemma_flat_index(i, j, rows, cols);
    assert forall|i2: int, j2: int|
        0 <= i2 < rows && 0 <= j2 < cols && (i2 != i || j2 != j) implies mat_at(
        post,
        cols,
        i2,
        j2,
    ) == mat_at(pre, cols, i2, j2) by {
        lemma_flat_index(i2, j2, rows, cols);
        lemma_flat_index_ne(i2, j2, i, j, cols);
    }
}



/// Every flat offset of a square grid decomposes uniquely into a row and a
/// column.
pub(crate) proof fn lemma_flat_decompose(p: int, dim: int)
    by (nonlinear_arith)
    requires
        0 < dim,
        0 <= p,
    ensures
        (p / dim) * dim + (p % dim) == p,
        0 <= p % dim < dim,
        0 <= p / dim,
        p < dim * dim ==> p / dim < dim,
{
}



/// Every flat offset of a `rows` by `cols` grid decomposes uniquely into a
/// row and a column.
pub(crate) proof fn lemma_flat_decompose_rect(p: int, rows: int, cols: int)
    by (nonlinear_arith)
    requires
        0 < cols,
        0 <= p < rows * cols,
    ensures
        (p / cols) * cols + (p % cols) == p,
        0 <= p % cols < cols,
        0 <= p / cols < rows,
{
}


} // verus!
