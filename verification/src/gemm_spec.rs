//! The mathematical meaning of C = alpha * A * B + beta * C over row-major
//! matrices of exact integers, and the laws every kernel model is proved
//! against.
//!
//! All kernels in this library compute with `i64` elements; their contracts
//! say that every output entry equals `gemm_entry`, the triple-sum formula.
//! Exact arithmetic makes the accumulation order irrelevant, so the same
//! formula pins down the sequential oracle, the block-tiled kernel and the
//! warp-fragment kernel, and equality between any two of them is a theorem.

use vstd::prelude::*;
use crate::arith::lin;
use crate::arith::lemma_lin_decompose;

verus! {

/// Element (i, j) of a row-major matrix with `cols` columns, as a
/// mathematical integer.
pub open spec fn ent(mat: Seq<i64>, cols: int, i: int, j: int) -> int {
    mat[lin(cols, i, j)] as int
}

/// Element (i, j) of a row-major `rows x cols` matrix, zero outside the
/// matrix. This is the value a kernel's load phase stages into shared
/// scratch: edge tiles are padded with zeros instead of read out of bounds.
pub open spec fn padded_ent(mat: Seq<i64>, rows: int, cols: int, i: int, j: int) -> int {
    if 0 <= i < rows && 0 <= j < cols {
        ent(mat, cols, i, j)
    } else {
        0
    }
}

/// Sum over p in [0, plen) of A[i, p] * B[p, j], for A of row length k and
/// B of row length n: the prefix of the inner product of row i of A with
/// column j of B.
pub open spec fn partial_dot(
    a: Seq<i64>,
    b: Seq<i64>,
    k: int,
    n: int,
    i: int,
    j: int,
    plen: int,
) -> int
    decreases plen,
{
    if plen <= 0 {
        0
    } else {
        partial_dot(a, b, k, n, i, j, plen - 1) + ent(a, k, i, plen - 1) * ent(b, n, plen - 1, j)
    }
}

/// The full inner product of row i of A with column j of B.
pub open spec fn dot(a: Seq<i64>, b: Seq<i64>, k: int, n: int, i: int, j: int) -> int {
    partial_dot(a, b, k, n, i, j, k)
}

/// The value the GEMM writes at (i, j):
/// alpha * (row i of A . column j of B) + beta * C[i, j].
pub open spec fn gemm_entry(
    a: Seq<i64>,
    b: Seq<i64>,
    c: Seq<i64>,
    n: int,
    k: int,
    alpha: int,
    beta: int,
    i: int,
    j: int,
) -> int {
    alpha * dot(a, b, k, n, i, j) + beta * ent(c, n, i, j)
}

/// The postcondition every GEMM implementation in this library meets:
/// `out` is an m x n row-major matrix whose every entry is `gemm_entry`.
pub open spec fn gemm_result(
    out: Seq<i64>,
    a: Seq<i64>,
    b: Seq<i64>,
    c: Seq<i64>,
    m: int,
    n: int,
    k: int,
    alpha: int,
    beta: int,
) -> bool {
    &&& out.len() == m * n
    &&& forall|i: int, j: int|
        0 <= i < m && 0 <= j < n ==> out[lin(n, i, j)] == #[trigger] gemm_entry(
            a,
            b,
            c,
            n,
            k,
            alpha,
            beta,
            i,
            j,
        )
}

/// Every intermediate of the inner products fits in an `i64`: each product
/// of one A element with one B element, and each prefix of each inner
/// product. These are machine limits of the accumulation; nothing else
/// about the values is assumed.
pub open spec fn dots_fit(a: Seq<i64>, b: Seq<i64>, m: int, n: int, k: int) -> bool {
    forall|i: int, j: int, p: int|
        0 <= i < m && 0 <= j < n && 0 <= p < k ==> i64::MIN <= ent(a, k, i, p) * ent(
            b,
            n,
            p,
            j,
        ) <= i64::MAX && i64::MIN <= #[trigger] partial_dot(a, b, k, n, i, j, p + 1) <= i64::MAX
}

/// The operand sizes a GEMM works on, and the guarantee that everything the
/// kernels compute fits in an `i64`: the inner-product intermediates and the
/// final scaled entries.
pub open spec fn gemm_fits(
    a: Seq<i64>,
    b: Seq<i64>,
    c: Seq<i64>,
    m: int,
    n: int,
    k: int,
    alpha: int,
    beta: int,
) -> bool {
    &&& a.len() == m * k
    &&& b.len() == k * n
    &&& c.len() == m * n
    &&& dots_fit(a, b, m, n, k)
    &&& forall|i: int, j: int|
        0 <= i < m && 0 <= j < n ==> i64::MIN <= alpha * dot(a, b, k, n, i, j) <= i64::MAX
            && i64::MIN <= beta * ent(c, n, i, j) <= i64::MAX && i64::MIN <= #[trigger] gemm_entry(
            a,
            b,
            c,
            n,
            k,
            alpha,
            beta,
            i,
            j,
        ) <= i64::MAX
}

/// Law: the GEMM postcondition pins every entry down, so any two outputs
/// that satisfy it for the same operands are equal. This is what ties the
/// kernel variants to the reference oracle and to each other.
pub proof fn lemma_gemm_result_unique(
    out1: Seq<i64>,
    out2: Seq<i64>,
    a: Seq<i64>,
    b: Seq<i64>,
    c: Seq<i64>,
    m: int,
    n: int,
    k: int,
    alpha: int,
    beta: int,
)
    requires
        m >= 0,
        n >= 0,
        gemm_result(out1, a, b, c, m, n, k, alpha, beta),
        gemm_result(out2, a, b, c, m, n, k, alpha, beta),
    ensures
        out1 =~= out2,
{
    assert forall|idx: int| 0 <= idx < out1.len() implies out1[idx] == out2[idx] by {
        if n >= 1 {
            lemma_lin_decompose(m, n, idx);
            assert(out1[lin(n, idx / n, idx % n)] == gemm_entry(
                a, b, c, n, k, alpha, beta, idx / n, idx % n,
            ));
        } else {
            assert(m * 0 == 0);
        }
    }
}

/// Law: with beta == 0 the result does not depend on the prior contents of
/// C; two runs over different initial C produce identical outputs.
pub proof fn lemma_beta_zero_ignores_c(
    out1: Seq<i64>,
    out2: Seq<i64>,
    a: Seq<i64>,
    b: Seq<i64>,
    c1: Seq<i64>,
    c2: Seq<i64>,
    m: int,
    n: int,
    k: int,
    alpha: int,
)
    requires
        m >= 0,
        n >= 0,
        gemm_result(out1, a, b, c1, m, n, k, alpha, 0),
        gemm_result(out2, a, b, c2, m, n, k, alpha, 0),
    ensures
        out1 =~= out2,
{
    assert(gemm_result(out2, a, b, c1, m, n, k, alpha, 0)) by {
        assert forall|i: int, j: int| 0 <= i < m && 0 <= j < n implies out2[lin(n, i, j)]
            == #[trigger] gemm_entry(a, b, c1, n, k, alpha, 0, i, j) by {
            assert(out2[lin(n, i, j)] == gemm_entry(a, b, c2, n, k, alpha, 0, i, j));
            assert(gemm_entry(a, b, c2, n, k, alpha, 0, i, j) == alpha * dot(a, b, k, n, i, j));
            assert(gemm_entry(a, b, c1, n, k, alpha, 0, i, j) == alpha * dot(a, b, k, n, i, j));
        }
    }
    lemma_gemm_result_unique(out1, out2, a, b, c1, m, n, k, alpha, 0);
}

/// Law: with alpha == 1 and beta == 1 a pass accumulates: every output entry
/// is the prior C entry plus the corresponding entry of A * B.
pub proof fn lemma_accumulate_pass(
    out: Seq<i64>,
    a: Seq<i64>,
    b: Seq<i64>,
    cprev: Seq<i64>,
    m: int,
    n: int,
    k: int,
)
    requires
        gemm_result(out, a, b, cprev, m, n, k, 1, 1),
    ensures
        forall|i: int, j: int|
            0 <= i < m && 0 <= j < n ==> out[lin(n, i, j)] == ent(cprev, n, i, j)
                + #[trigger] dot(a, b, k, n, i, j),
{
    assert forall|i: int, j: int| 0 <= i < m && 0 <= j < n implies out[lin(n, i, j)] == ent(
        cprev, n, i, j,
    ) + #[trigger] dot(a, b, k, n, i, j) by {
        assert(out[lin(n, i, j)] == gemm_entry(a, b, cprev, n, k, 1, 1, i, j));
    }
}

/// Appending one term to a dot-product prefix: the defining step, stated for
/// direct use in loop proofs.
pub proof fn lemma_partial_dot_step(
    a: Seq<i64>,
    b: Seq<i64>,
    k: int,
    n: int,
    i: int,
    j: int,
    p: int,
)
    requires
        p >= 0,
    ensures
        partial_dot(a, b, k, n, i, j, p + 1) == partial_dot(a, b, k, n, i, j, p)
            + ent(a, k, i, p) * ent(b, n, p, j),
{
}

} // verus!
