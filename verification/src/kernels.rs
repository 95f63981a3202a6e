//! Exact-arithmetic models of the device kernels.
//!
//! Each model is a sequential execution of the kernel's grid: it performs,
//! block by block, the same loads, the same shared-scratch staging with
//! zero-padded edges, the same per-thread accumulation and the same guarded
//! epilogue writes that all thread blocks perform in parallel on the device.
//! Blocks are independent and threads of a block touch disjoint accumulators,
//! so the sequential order is faithful; exact arithmetic makes the
//! accumulation order irrelevant, and every model is proved to produce the
//! reference result.

use vstd::prelude::*;
use crate::arith::ceil_div;
use crate::arith::exec_ceil_div;
use crate::arith::lemma_ceil_div_covers;
use crate::arith::lemma_div_range;
use crate::arith::lemma_lin_injective;
use crate::arith::lemma_lin_range;
use crate::arith::lin;
use crate::gemm_spec::dot;
use crate::gemm_spec::dots_fit;
use crate::gemm_spec::ent;
use crate::gemm_spec::gemm_entry;
use crate::gemm_spec::gemm_fits;
use crate::gemm_spec::gemm_result;
use crate::gemm_spec::lemma_gemm_result_unique;
use crate::gemm_spec::lemma_partial_dot_step;
use crate::gemm_spec::padded_ent;
use crate::gemm_spec::partial_dot;
use crate::tensor_defs::TileConfig;

verus! {

/// K-chunk width of the plain kernel's inner loop.
pub const TILE_K: usize = 16;

/// The K position a chunk starting at `k0` ends at: `k0 + tile_k`, clipped
/// to `k` for the final ragged chunk.
pub open spec fn chunk_end(k0: int, tile_k: int, k: int) -> int {
    if k0 + tile_k <= k {
        k0 + tile_k
    } else {
        k
    }
}

/// A `trows x tcols` scratch tile holds the sub-matrix of `src` (a
/// `rows x cols` row-major matrix) starting at (r0, c0), with positions
/// outside `src` zero-filled.
pub open spec fn staged(
    tile: Seq<i64>,
    src: Seq<i64>,
    rows: int,
    cols: int,
    r0: int,
    c0: int,
    trows: int,
    tcols: int,
) -> bool {
    &&& tile.len() == trows * tcols
    &&& forall|i: int, j: int|
        0 <= i < trows && 0 <= j < tcols ==> #[trigger] tile[lin(tcols, i, j)] as int
            == padded_ent(src, rows, cols, r0 + i, c0 + j)
}

/// The per-thread accumulators of one thread block whose output tile starts
/// at (row0, col0): every thread whose output coordinate is in range holds
/// the prefix of its inner product up to `plen`; threads outside the output
/// hold zero (their staged operands are all zero-padding).
pub open spec fn block_sums_state(
    sums: Seq<i64>,
    a: Seq<i64>,
    b: Seq<i64>,
    m: int,
    n: int,
    k: int,
    row0: int,
    col0: int,
    tile_m: int,
    tile_n: int,
    plen: int,
) -> bool {
    &&& sums.len() == tile_m * tile_n
    &&& forall|ty: int, tx: int|
        0 <= ty < tile_m && 0 <= tx < tile_n ==> #[trigger] sums[lin(tile_n, ty, tx)] as int == (
        if row0 + ty < m && col0 + tx < n {
            partial_dot(a, b, k, n, row0 + ty, col0 + tx, plen)
        } else {
            0
        })
}

/// An all-zero accumulator buffer.
pub(crate) fn zero_vec(len: usize) -> (v: Vec<i64>)
    ensures
        v@.len() == len,
        forall|i: int| 0 <= i < len ==> v@[i] == 0,
{
    let mut v: Vec<i64> = Vec::new();
    for idx in 0..len
        invariant
            v@.len() == idx,
            forall|i: int| 0 <= i < idx ==> v@[i] == 0,
    {
        v.push(0);
    }
    v
}

/// A copy of the output buffer as it was before the launch.
pub(crate) fn copy_vec(src: &Vec<i64>) -> (v: Vec<i64>)
    ensures
        v@ =~= src@,
{
    let mut v: Vec<i64> = Vec::new();
    let len: usize = src.len();
    for idx in 0..len
        invariant
            len == src@.len(),
            v@.len() == idx,
            forall|i: int| 0 <= i < idx ==> v@[i] == src@[i],
    {
        v.push(src[idx]);
    }
    v
}

/// Load phase: stage a `trows x tcols` tile of `src` starting at (r0, c0)
/// into a scratch buffer, zero-filling every element whose global coordinate
/// falls outside `src` so that ragged edges need no branches later.
#[verifier::loop_isolation(false)]
pub(crate) fn load_tile(
    src: &Vec<i64>,
    rows: usize,
    cols: usize,
    r0: usize,
    c0: usize,
    trows: usize,
    tcols: usize,
) -> (tile: Vec<i64>)
    requires
        src@.len() == rows * cols,
        trows >= 1,
        tcols >= 1,
        trows * tcols <= usize::MAX,
        rows + trows <= usize::MAX,
        cols + tcols <= usize::MAX,
        r0 <= rows,
        c0 <= cols,
    ensures
        staged(tile@, src@, rows as int, cols as int, r0 as int, c0 as int, trows as int,
            tcols as int),
{
    let mut tile: Vec<i64> = Vec::new();
    let src_len: usize = src.len();
    proof {
        assert(src_len == rows * cols);
        assert(0 * (tcols as int) == 0) by (nonlinear_arith);
    }
    for i in 0..trows
        invariant
            tile@.len() == i * tcols,
            forall|i2: int, j2: int|
                0 <= i2 < i && 0 <= j2 < tcols ==> #[trigger] tile@[lin(tcols as int, i2, j2)]
                    as int == padded_ent(src@, rows as int, cols as int, r0 + i2, c0 + j2),
    {
        for j in 0..tcols
            invariant
                tile@.len() == i * tcols + j,
                forall|i2: int, j2: int|
                    0 <= i2 < i && 0 <= j2 < tcols ==> #[trigger] tile@[lin(tcols as int, i2, j2)]
                        as int == padded_ent(src@, rows as int, cols as int, r0 + i2, c0 + j2),
                forall|j2: int|
                    0 <= j2 < j ==> #[trigger] tile@[lin(tcols as int, i as int, j2)] as int
                        == padded_ent(src@, rows as int, cols as int, r0 + i as int, c0 + j2),
        {
            let gr: usize = r0 + i;
            let gc: usize = c0 + j;
            if gr < rows && gc < cols {
                proof {
                    lemma_lin_range(rows as int, cols as int, gr as int, gc as int);
                }
                tile.push(src[gr * cols + gc]);
            } else {
                tile.push(0);
            }
            proof {
                assert forall|i2: int, j2: int| 0 <= i2 < i && 0 <= j2 < tcols implies #[trigger] tile@[lin(
                    tcols as int, i2, j2,
                )] as int == padded_ent(src@, rows as int, cols as int, r0 + i2, c0 + j2) by {
                    lemma_lin_range(i as int, tcols as int, i2, j2);
                }
                assert forall|j2: int| 0 <= j2 < j + 1 implies #[trigger] tile@[lin(
                    tcols as int, i as int, j2,
                )] as int == padded_ent(src@, rows as int, cols as int, r0 + i as int, c0 + j2) by {
                    assert(lin(tcols as int, i as int, j2) <= i * tcols + j);
                }
            }
        }
        proof {
            assert((i as int + 1) * tcols == i as int * tcols + tcols) by (nonlinear_arith);
        }
    }
    tile
}

/// Accumulate phase of one K-chunk: every thread of the block extends its
/// running sum by the chunk's contribution, reading only the staged scratch
/// tiles. Threads whose output coordinate is out of range read only
/// zero-padding, so their sums stay zero.
#[verifier::loop_isolation(false)]
fn accumulate_chunk(
    sums: &mut Vec<i64>,
    tile_a: &Vec<i64>,
    tile_b: &Vec<i64>,
    a: &Vec<i64>,
    b: &Vec<i64>,
    m: usize,
    n: usize,
    k: usize,
    row0: usize,
    col0: usize,
    k0: usize,
    tile_m: usize,
    tile_n: usize,
    tile_k: usize,
)
    requires
        a@.len() == m * k,
        b@.len() == k * n,
        dots_fit(a@, b@, m as int, n as int, k as int),
        tile_m >= 1,
        tile_n >= 1,
        tile_k >= 1,
        tile_m * tile_n <= usize::MAX,
        k0 < k,
        staged(tile_a@, a@, m as int, k as int, row0 as int, k0 as int, tile_m as int,
            tile_k as int),
        staged(tile_b@, b@, k as int, n as int, k0 as int, col0 as int, tile_k as int,
            tile_n as int),
        block_sums_state(old(sums)@, a@, b@, m as int, n as int, k as int, row0 as int,
            col0 as int, tile_m as int, tile_n as int, k0 as int),
        row0 + tile_m <= usize::MAX,
        col0 + tile_n <= usize::MAX,
        k0 + tile_k <= usize::MAX,
    ensures
        block_sums_state(final(sums)@, a@, b@, m as int, n as int, k as int, row0 as int,
            col0 as int, tile_m as int, tile_n as int, chunk_end(k0 as int, tile_k as int,
            k as int)),
{
    let clen: usize = if k - k0 < tile_k {
        k - k0
    } else {
        tile_k
    };
    let ghost pend: int = chunk_end(k0 as int, tile_k as int, k as int);
    assert(k0 + clen == pend);
    let ta_len: usize = tile_a.len();
    let tb_len: usize = tile_b.len();
    proof {
        assert(ta_len == tile_m * tile_k && tb_len == tile_k * tile_n);
    }
    for ty in 0..tile_m
        invariant
            sums@.len() == tile_m * tile_n,
            forall|ty2: int, tx2: int|
                0 <= ty2 < tile_m && 0 <= tx2 < tile_n ==> #[trigger] sums@[lin(tile_n as int,
                    ty2, tx2)] as int == (if row0 + ty2 < m && col0 + tx2 < n {
                    partial_dot(a@, b@, k as int, n as int, row0 + ty2, col0 + tx2,
                        if ty2 < ty { pend } else { k0 as int })
                } else {
                    0
                }),
    {
        for tx in 0..tile_n
            invariant
                sums@.len() == tile_m * tile_n,
                forall|ty2: int, tx2: int|
                    0 <= ty2 < tile_m && 0 <= tx2 < tile_n ==> #[trigger] sums@[lin(tile_n as int,
                        ty2, tx2)] as int == (if row0 + ty2 < m && col0 + tx2 < n {
                        partial_dot(a@, b@, k as int, n as int, row0 + ty2, col0 + tx2,
                            if ty2 < ty || (ty2 == ty && tx2 < tx) { pend } else { k0 as int })
                    } else {
                        0
                    }),
        {
            proof {
                lemma_lin_range(tile_m as int, tile_n as int, ty as int, tx as int);
            }
            let sidx: usize = ty * tile_n + tx;
            let row: usize = row0 + ty;
            let col: usize = col0 + tx;
            let mut s: i64 = sums[sidx];
            proof {
                assert(s == sums@[lin(tile_n as int, ty as int, tx as int)]);
            }
            for kk in 0..clen
                invariant
                    s as int == (if row < m && col < n {
                        partial_dot(a@, b@, k as int, n as int, row as int, col as int,
                            k0 + kk)
                    } else {
                        0
                    }),
            {
                proof {
                    lemma_lin_range(tile_m as int, tile_k as int, ty as int, kk as int);
                    lemma_lin_range(tile_k as int, tile_n as int, kk as int, tx as int);
                }
                let av: i64 = tile_a[ty * tile_k + kk];
                let bv: i64 = tile_b[kk * tile_n + tx];
                proof {
                    assert(tile_a@[lin(tile_k as int, ty as int, kk as int)] as int == padded_ent(
                        a@, m as int, k as int, row as int, k0 + kk,
                    ));
                    assert(tile_b@[lin(tile_n as int, kk as int, tx as int)] as int == padded_ent(
                        b@, k as int, n as int, k0 + kk, col as int,
                    ));
                    if row < m && col < n {
                        lemma_partial_dot_step(a@, b@, k as int, n as int, row as int, col as int,
                            k0 + kk);
                        assert(i64::MIN <= partial_dot(a@, b@, k as int, n as int, row as int,
                            col as int, (k0 + kk) + 1) <= i64::MAX);
                    } else {
                        assert(av as int == 0 || bv as int == 0);
                        assert(av as int * bv as int == 0) by (nonlinear_arith)
                            requires av as int == 0 || bv as int == 0,
                        ;
                    }
                }
                s = s + av * bv;
            }
            let ghost pre: Seq<i64> = sums@;
            sums.set(sidx, s);
            proof {
                assert forall|ty2: int, tx2: int| 0 <= ty2 < tile_m && 0 <= tx2 < tile_n implies #[trigger] sums@[lin(
                    tile_n as int, ty2, tx2,
                )] as int == (if row0 + ty2 < m && col0 + tx2 < n {
                    partial_dot(a@, b@, k as int, n as int, row0 + ty2, col0 + tx2,
                        if ty2 < ty || (ty2 == ty && tx2 < tx + 1) { pend } else { k0 as int })
                } else {
                    0
                }) by {
                    lemma_lin_range(tile_m as int, tile_n as int, ty2, tx2);
                    assert(sums@ == pre.update(sidx as int, s));
                    if lin(tile_n as int, ty2, tx2) == sidx as int {
                        lemma_lin_injective(tile_n as int, ty2, tx2, ty as int, tx as int);
                    } else {
                        assert(sums@[lin(tile_n as int, ty2, tx2)] == pre[lin(tile_n as int, ty2,
                            tx2)]);
                    }
                }
            }
        }
    }
}

/// Plain kernel model: one thread per output element, each walking the K
/// dimension in `TILE_K` chunks straight from global memory. It is the
/// correctness floor the optimized kernels are measured against.
#[verifier::loop_isolation(false)]
pub fn gemm_kernel(
    m: usize,
    n: usize,
    k: usize,
    alpha: i64,
    a: &Vec<i64>,
    b: &Vec<i64>,
    beta: i64,
    c: &Vec<i64>,
) -> (out: Vec<i64>)
    requires
        gemm_fits(a@, b@, c@, m as int, n as int, k as int, alpha as int, beta as int),
    ensures
        gemm_result(out@, a@, b@, c@, m as int, n as int, k as int, alpha as int, beta as int),
{
    let a_len: usize = a.len();
    let b_len: usize = b.len();
    let c_len: usize = c.len();
    let num_chunks: usize = exec_ceil_div(k, TILE_K);
    proof {
        assert(a_len == m * k && b_len == k * n && c_len == m * n);
        assert(0 * (n as int) == 0) by (nonlinear_arith);
        lemma_ceil_div_covers(k as int, TILE_K as int);
    }
    let mut out: Vec<i64> = Vec::new();
    for row in 0..m
        invariant
            out@.len() == row * n,
            forall|i2: int, j2: int|
                0 <= i2 < row && 0 <= j2 < n ==> out@[lin(n as int, i2, j2)]
                    == #[trigger] gemm_entry(
                    a@, b@, c@, n as int, k as int, alpha as int, beta as int, i2, j2,
                ),
    {
        for col in 0..n
            invariant
                out@.len() == row * n + col,
                forall|i2: int, j2: int|
                    0 <= i2 < row && 0 <= j2 < n ==> out@[lin(n as int, i2, j2)]
                        == #[trigger] gemm_entry(
                        a@, b@, c@, n as int, k as int, alpha as int, beta as int, i2, j2,
                    ),
                forall|j2: int|
                    0 <= j2 < col ==> out@[lin(n as int, row as int, j2)] == #[trigger] gemm_entry(
                        a@, b@, c@, n as int, k as int, alpha as int, beta as int, row as int, j2,
                    ),
        {
            let mut sum: i64 = 0;
            for t in 0..num_chunks
                invariant
                    sum == partial_dot(a@, b@, k as int, n as int, row as int, col as int,
                        chunk_end(0, t * TILE_K, k as int)),
            {
                proof {
                    assert(t * TILE_K < k && (t + 1) * TILE_K == t * TILE_K + TILE_K)
                        by (nonlinear_arith)
                        requires
                            0 <= t <= ceil_div(k as int, TILE_K as int) - 1,
                            k >= 1 ==> (ceil_div(k as int, TILE_K as int) - 1) * TILE_K < k,
                            k == 0 ==> ceil_div(k as int, TILE_K as int) == 0,
                    ;
                }
                let tile_start: usize = t * TILE_K;
                let tile_end: usize = if k - tile_start < TILE_K {
                    k
                } else {
                    tile_start + TILE_K
                };
                for p in tile_start..tile_end
                    invariant
                        tile_end == chunk_end(tile_start as int, TILE_K as int, k as int),
                        sum == partial_dot(a@, b@, k as int, n as int, row as int, col as int,
                            p as int),
                {
                    proof {
                        lemma_lin_range(m as int, k as int, row as int, p as int);
                        lemma_lin_range(k as int, n as int, p as int, col as int);
                        lemma_partial_dot_step(a@, b@, k as int, n as int, row as int,
                            col as int, p as int);
                        assert(i64::MIN <= partial_dot(
                            a@, b@, k as int, n as int, row as int, col as int, p as int + 1,
                        ) <= i64::MAX);
                    }
                    sum = sum + a[row * k + p] * b[p * n + col];
                }
            }
            proof {
                assert(num_chunks * TILE_K >= k) by (nonlinear_arith)
                    requires
                        num_chunks == ceil_div(k as int, TILE_K as int),
                        ceil_div(k as int, TILE_K as int) * TILE_K >= k,
                ;
                lemma_lin_range(m as int, n as int, row as int, col as int);
                assert(i64::MIN <= gemm_entry(
                    a@, b@, c@, n as int, k as int, alpha as int, beta as int, row as int,
                    col as int,
                ) <= i64::MAX);
                if beta == 0 {
                    assert(beta as int * ent(c@, n as int, row as int, col as int) == 0)
                        by (nonlinear_arith)
                        requires beta == 0,
                    ;
                }
            }
            // When beta is zero, C is not read: callers may pass a C whose
            // prior contents are arbitrary.
            let v: i64 = if beta == 0 {
                alpha * sum
            } else {
                alpha * sum + beta * c[row * n + col]
            };
            out.push(v);
            proof {
                assert forall|i2: int, j2: int| 0 <= i2 < row && 0 <= j2 < n implies out@[lin(
                    n as int, i2, j2,
                )] == #[trigger] gemm_entry(
                    a@, b@, c@, n as int, k as int, alpha as int, beta as int, i2, j2,
                ) by {
                    lemma_lin_range(row as int, n as int, i2, j2);
                }
                assert forall|j2: int| 0 <= j2 < col + 1 implies out@[lin(n as int, row as int,
                    j2)] == #[trigger] gemm_entry(
                    a@, b@, c@, n as int, k as int, alpha as int, beta as int, row as int, j2,
                ) by {
                    assert(lin(n as int, row as int, j2) <= row * n + col);
                }
            }
        }
        proof {
            assert((row as int + 1) * n == row as int * n + n) by (nonlinear_arith);
        }
    }
    out
}

/// Law: for every problem size, tile-aligned or ragged, an output of the
/// tiled kernel equals an output of the reference oracle for the same
/// operands, entry for entry.
pub proof fn lemma_tiled_matches_reference(
    out_tiled: Seq<i64>,
    out_ref: Seq<i64>,
    a: Seq<i64>,
    b: Seq<i64>,
    c: Seq<i64>,
    m: int,
    n: int,
    k: int,
    alpha: int,
    beta: int,
)
    requires
        m >= 0,
        n >= 0,
        gemm_result(out_tiled, a, b, c, m, n, k, alpha, beta),
        gemm_result(out_ref, a, b, c, m, n, k, alpha, beta),
    ensures
        out_tiled =~= out_ref,
{
    lemma_gemm_result_unique(out_tiled, out_ref, a, b, c, m, n, k, alpha, beta);
}

/// (i, j) lies in the output tile that starts at (row0, col0).
pub open spec fn in_tile_region(
    i: int,
    j: int,
    row0: int,
    col0: int,
    tile_m: int,
    tile_n: int,
) -> bool {
    row0 <= i < row0 + tile_m && col0 <= j < col0 + tile_n
}

/// Epilogue of one thread block: every thread whose output coordinate is in
/// range writes `alpha * sum + beta * c_old` to its one element of C;
/// threads outside the ragged edge write nothing. Nothing outside the
/// block's tile changes.
#[verifier::loop_isolation(false)]
fn write_block(
    out: &mut Vec<i64>,
    sums: &Vec<i64>,
    a: &Vec<i64>,
    b: &Vec<i64>,
    c: &Vec<i64>,
    m: usize,
    n: usize,
    k: usize,
    alpha: i64,
    beta: i64,
    row0: usize,
    col0: usize,
    tile_m: usize,
    tile_n: usize,
)
    requires
        old(out)@.len() == m * n,
        gemm_fits(a@, b@, c@, m as int, n as int, k as int, alpha as int, beta as int),
        tile_m >= 1,
        tile_n >= 1,
        tile_m * tile_n <= usize::MAX,
        row0 + tile_m <= usize::MAX,
        col0 + tile_n <= usize::MAX,
        block_sums_state(sums@, a@, b@, m as int, n as int, k as int, row0 as int, col0 as int,
            tile_m as int, tile_n as int, k as int),
    ensures
        final(out)@.len() == m * n,
        forall|i: int, j: int|
            0 <= i < m && 0 <= j < n ==> #[trigger] final(out)@[lin(n as int, i, j)] as int == (
            if in_tile_region(i, j, row0 as int, col0 as int, tile_m as int, tile_n as int) {
                gemm_entry(a@, b@, c@, n as int, k as int, alpha as int, beta as int, i, j)
            } else {
                old(out)@[lin(n as int, i, j)] as int
            }),
{
    let c_len: usize = c.len();
    let s_len: usize = sums.len();
    proof {
        assert(c_len == m * n && s_len == tile_m * tile_n);
    }
    for ty in 0..tile_m
        invariant
            out@.len() == m * n,
            forall|i: int, j: int|
                0 <= i < m && 0 <= j < n ==> #[trigger] out@[lin(n as int, i, j)] as int == (
                if in_tile_region(i, j, row0 as int, col0 as int, tile_m as int, tile_n as int)
                    && i - row0 < ty {
                    gemm_entry(a@, b@, c@, n as int, k as int, alpha as int, beta as int, i, j)
                } else {
                    old(out)@[lin(n as int, i, j)] as int
                }),
    {
        for tx in 0..tile_n
            invariant
                out@.len() == m * n,
                forall|i: int, j: int|
                    0 <= i < m && 0 <= j < n ==> #[trigger] out@[lin(n as int, i, j)] as int == (
                    if in_tile_region(i, j, row0 as int, col0 as int, tile_m as int,
                        tile_n as int) && (i - row0 < ty || (i - row0 == ty && j - col0 < tx)) {
                        gemm_entry(a@, b@, c@, n as int, k as int, alpha as int, beta as int, i,
                            j)
                    } else {
                        old(out)@[lin(n as int, i, j)] as int
                    }),
        {
            let row: usize = row0 + ty;
            let col: usize = col0 + tx;
            if row < m && col < n {
                proof {
                    lemma_lin_range(tile_m as int, tile_n as int, ty as int, tx as int);
                    lemma_lin_range(m as int, n as int, row as int, col as int);
                    assert(sums@[lin(tile_n as int, ty as int, tx as int)] as int == dot(
                        a@, b@, k as int, n as int, row as int, col as int,
                    ));
                    assert(i64::MIN <= gemm_entry(
                        a@, b@, c@, n as int, k as int, alpha as int, beta as int, row as int,
                        col as int,
                    ) <= i64::MAX);
                    if beta == 0 {
                        assert(beta as int * ent(c@, n as int, row as int, col as int) == 0)
                            by (nonlinear_arith)
                            requires beta == 0,
                        ;
                    }
                }
                let sidx: usize = ty * tile_n + tx;
                let oidx: usize = row * n + col;
                // When beta is zero, C is not read: callers may pass a C
                // whose prior contents are arbitrary.
                let v: i64 = if beta == 0 {
                    alpha * sums[sidx]
                } else {
                    alpha * sums[sidx] + beta * c[oidx]
                };
                let ghost pre: Seq<i64> = out@;
                out.set(oidx, v);
                proof {
                    assert forall|i: int, j: int| 0 <= i < m && 0 <= j < n implies #[trigger] out@[lin(
                        n as int, i, j,
                    )] as int == (if in_tile_region(i, j, row0 as int, col0 as int,
                        tile_m as int, tile_n as int) && (i - row0 < ty || (i - row0 == ty && j
                        - col0 < tx + 1)) {
                        gemm_entry(a@, b@, c@, n as int, k as int, alpha as int, beta as int, i,
                            j)
                    } else {
                        pre[lin(n as int, i, j)] as int
                    }) by {
                        lemma_lin_range(m as int, n as int, i, j);
                        assert(out@ == pre.update(oidx as int, v));
                        if lin(n as int, i, j) == oidx as int {
                            lemma_lin_injective(n as int, i, j, row as int, col as int);
                        } else {
                            assert(out@[lin(n as int, i, j)] == pre[lin(n as int, i, j)]);
                        }
                    }
                }
            }
        }
    }
}

/// Shared-memory tiled kernel model. The grid partitions the output into
/// `tile_m x tile_n` tiles, one per block; each block stages A and B chunks
/// through scratch tiles (two barriers per chunk on the device), accumulates
/// per-thread partial dot products from scratch only, and runs the guarded
/// epilogue. Tile sizes need not divide the problem sizes.
#[verifier::loop_isolation(false)]
pub fn gemm_kernel_tiled(
    m: usize,
    n: usize,
    k: usize,
    alpha: i64,
    a: &Vec<i64>,
    b: &Vec<i64>,
    beta: i64,
    c: &Vec<i64>,
    cfg: &TileConfig,
) -> (out: Vec<i64>)
    requires
        cfg.wf(),
        gemm_fits(a@, b@, c@, m as int, n as int, k as int, alpha as int, beta as int),
        m + cfg.tile_m <= usize::MAX,
        n + cfg.tile_n <= usize::MAX,
        k + cfg.tile_k <= usize::MAX,
        cfg.tile_m * cfg.tile_n <= usize::MAX,
        cfg.tile_m * cfg.tile_k <= usize::MAX,
        cfg.tile_k * cfg.tile_n <= usize::MAX,
    ensures
        gemm_result(out@, a@, b@, c@, m as int, n as int, k as int, alpha as int, beta as int),
{
    let tile_m: usize = cfg.tile_m;
    let tile_n: usize = cfg.tile_n;
    let tile_k: usize = cfg.tile_k;
    let c_len: usize = c.len();
    proof {
        assert(c_len == m * n);
    }
    let mut out: Vec<i64> = copy_vec(c);
    let grid_rows: usize = exec_ceil_div(m, tile_m);
    let grid_cols: usize = exec_ceil_div(n, tile_n);
    let num_chunks: usize = exec_ceil_div(k, tile_k);
    proof {
        lemma_ceil_div_covers(m as int, tile_m as int);
        lemma_ceil_div_covers(n as int, tile_n as int);
        lemma_ceil_div_covers(k as int, tile_k as int);
    }
    for by in 0..grid_rows
        invariant
            out@.len() == m * n,
            forall|i: int, j: int|
                0 <= i < m && 0 <= j < n ==> #[trigger] out@[lin(n as int, i, j)] as int == (
                if i / (tile_m as int) < by {
                    gemm_entry(a@, b@, c@, n as int, k as int, alpha as int, beta as int, i, j)
                } else {
                    ent(c@, n as int, i, j)
                }),
    {
        for bx in 0..grid_cols
            invariant
                out@.len() == m * n,
                forall|i: int, j: int|
                    0 <= i < m && 0 <= j < n ==> #[trigger] out@[lin(n as int, i, j)] as int == (
                    if i / (tile_m as int) < by || (i / (tile_m as int) == by && j / (
                    tile_n as int) < bx) {
                        gemm_entry(a@, b@, c@, n as int, k as int, alpha as int, beta as int, i,
                            j)
                    } else {
                        ent(c@, n as int, i, j)
                    }),
        {
            proof {
                assert(by * tile_m < m && (by + 1) * tile_m == by * tile_m + tile_m)
                    by (nonlinear_arith)
                    requires
                        0 <= by <= ceil_div(m as int, tile_m as int) - 1,
                        tile_m >= 1,
                        m >= 1 ==> (ceil_div(m as int, tile_m as int) - 1) * tile_m < m,
                        m == 0 ==> ceil_div(m as int, tile_m as int) == 0,
                ;
                assert(bx * tile_n < n && (bx + 1) * tile_n == bx * tile_n + tile_n)
                    by (nonlinear_arith)
                    requires
                        0 <= bx <= ceil_div(n as int, tile_n as int) - 1,
                        tile_n >= 1,
                        n >= 1 ==> (ceil_div(n as int, tile_n as int) - 1) * tile_n < n,
                        n == 0 ==> ceil_div(n as int, tile_n as int) == 0,
                ;
            }
            let row0: usize = by * tile_m;
            let col0: usize = bx * tile_n;
            let mut sums: Vec<i64> = zero_vec(tile_m * tile_n);
            proof {
                assert(0 * (tile_k as int) == 0) by (nonlinear_arith);
                assert forall|ty: int, tx: int| 0 <= ty < tile_m && 0 <= tx < tile_n implies #[trigger] sums@[lin(
                    tile_n as int, ty, tx,
                )] as int == (if row0 + ty < m && col0 + tx < n {
                    partial_dot(a@, b@, k as int, n as int, row0 + ty, col0 + tx, 0)
                } else {
                    0
                }) by {
                    lemma_lin_range(tile_m as int, tile_n as int, ty, tx);
                }
            }
            for t in 0..num_chunks
                invariant
                    block_sums_state(sums@, a@, b@, m as int, n as int, k as int, row0 as int,
                        col0 as int, tile_m as int, tile_n as int, chunk_end(0,
                        t * tile_k, k as int)),
            {
                proof {
                    assert(t * tile_k < k && (t + 1) * tile_k == t * tile_k + tile_k)
                        by (nonlinear_arith)
                        requires
                            0 <= t <= ceil_div(k as int, tile_k as int) - 1,
                            tile_k >= 1,
                            k >= 1 ==> (ceil_div(k as int, tile_k as int) - 1) * tile_k < k,
                            k == 0 ==> ceil_div(k as int, tile_k as int) == 0,
                    ;
                }
                let k0: usize = t * tile_k;
                let tile_a: Vec<i64> = load_tile(a, m, k, row0, k0, tile_m, tile_k);
                let tile_b: Vec<i64> = load_tile(b, k, n, k0, col0, tile_k, tile_n);
                accumulate_chunk(&mut sums, &tile_a, &tile_b, a, b, m, n, k, row0, col0, k0,
                    tile_m, tile_n, tile_k);
            }
            proof {
                assert(num_chunks * tile_k >= k) by (nonlinear_arith)
                    requires
                        num_chunks == ceil_div(k as int, tile_k as int),
                        ceil_div(k as int, tile_k as int) * tile_k >= k,
                ;
                assert(chunk_end(0, num_chunks as int * tile_k as int, k as int) == k);
            }
            let ghost pre: Seq<i64> = out@;
            write_block(&mut out, &sums, a, b, c, m, n, k, alpha, beta, row0, col0, tile_m,
                tile_n);
            proof {
                assert forall|i: int, j: int| 0 <= i < m && 0 <= j < n implies #[trigger] out@[lin(
                    n as int, i, j,
                )] as int == (if i / (tile_m as int) < by || (i / (tile_m as int) == by && j / (
                tile_n as int) < bx + 1) {
                    gemm_entry(a@, b@, c@, n as int, k as int, alpha as int, beta as int, i, j)
                } else {
                    ent(c@, n as int, i, j)
                }) by {
                    lemma_div_range(i, tile_m as int, by as int);
                    lemma_div_range(j, tile_n as int, bx as int);
                }
            }
        }
        proof {
            assert forall|i: int, j: int| 0 <= i < m && 0 <= j < n implies #[trigger] out@[lin(
                n as int, i, j,
            )] as int == (if i / (tile_m as int) < by + 1 {
                gemm_entry(a@, b@, c@, n as int, k as int, alpha as int, beta as int, i, j)
            } else {
                ent(c@, n as int, i, j)
            }) by {
                assert(j / (tile_n as int) < grid_cols);
            }
        }
    }
    proof {
        assert forall|i: int, j: int| 0 <= i < m && 0 <= j < n implies out@[lin(n as int, i, j)]
            == #[trigger] gemm_entry(a@, b@, c@, n as int, k as int, alpha as int, beta as int,
            i, j) by {
            assert(i / (tile_m as int) < grid_rows);
        }
    }
    out
}

} // verus!
