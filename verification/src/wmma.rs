//! Warp-synchronous tensor-fragment kernel model.
//!
//! Within a block, threads are grouped into warps of 32 lanes arranged in a
//! fixed 4 x 4 grid; each warp owns one 16 x 16 output sub-tile and drives a
//! fused multiply-accumulate step over 16 x 16 x 16 operand tiles. The
//! accumulator tile is distributed over the warp's lanes in 8 slots per lane
//! through a fixed, hardware-defined mapping; `fragment_coords` is the one
//! place that mapping lives, and the roundtrip lemmas prove it covers the
//! sub-tile exactly once, so the per-lane epilogue writes every element of
//! the sub-tile exactly once.

use vstd::prelude::*;
use crate::arith::exec_ceil_div;
use crate::arith::lemma_ceil_div_covers;
use crate::arith::lemma_div_range;
use crate::arith::lemma_lin_injective;
use crate::arith::lemma_lin_range;
use crate::arith::lin;
use crate::gemm_spec::dot;
use crate::gemm_spec::dots_fit;
use crate::gemm_spec::ent;
use crate::gemm_spec::gemm_entry;
use crate::gemm_spec::gemm_fits;
use crate::gemm_spec::gemm_result;
use crate::gemm_spec::lemma_gemm_result_unique;
use crate::gemm_spec::lemma_partial_dot_step;
use crate::gemm_spec::padded_ent;
use crate::gemm_spec::partial_dot;
use crate::kernels::chunk_end;
use crate::kernels::copy_vec;
use crate::kernels::in_tile_region;
use crate::kernels::load_tile;
use crate::kernels::staged;
use crate::kernels::zero_vec;

verus! {

/// Extent of the fused multiply-accumulate tile: 16 x 16 outputs over a
/// K-depth of 16.
pub const FRAG_DIM: usize = 16;

/// Warps per block along each output axis; a block covers a 64 x 64 tile.
pub const WARP_GRID_DIM: usize = 4;

/// Output tile extent of one block: `WARP_GRID_DIM * FRAG_DIM`.
pub const BLOCK_TILE: usize = 64;

/// Lanes in a warp.
pub const WMMA_LANES: usize = 32;

/// Accumulator slots each lane holds: 32 lanes x 8 slots = 256 = 16 x 16.
pub const FRAG_SLOTS: usize = 8;

/// Row inside the warp's 16 x 16 sub-tile of accumulator slot `slot` of
/// lane `lane`.
pub open spec fn spec_frag_row(lane: int, slot: int) -> int {
    (lane / 4) * 2 + slot / 4
}

/// Column inside the warp's 16 x 16 sub-tile of accumulator slot `slot` of
/// lane `lane`.
pub open spec fn spec_frag_col(lane: int, slot: int) -> int {
    (slot % 4) * 4 + lane % 4
}

/// The lane that owns position (r, c) of the warp's sub-tile.
pub open spec fn spec_frag_owner_lane(r: int, c: int) -> int {
    (r / 2) * 4 + c % 4
}

/// The slot under which the owning lane holds position (r, c).
pub open spec fn spec_frag_owner_slot(r: int, c: int) -> int {
    (r % 2) * 4 + c / 4
}

/// The hardware-defined lane-to-element mapping of the accumulator
/// fragment: which (row, col) of the warp's 16 x 16 sub-tile a given lane
/// holds in a given slot. This is the one non-portable piece of the design;
/// an alternative fused multiply-accumulate path supplies its own mapping
/// behind the same interface.
pub fn fragment_coords(lane: usize, slot: usize) -> (rc: (usize, usize))
    requires
        lane < WMMA_LANES,
        slot < FRAG_SLOTS,
    ensures
        rc.0 == spec_frag_row(lane as int, slot as int),
        rc.1 == spec_frag_col(lane as int, slot as int),
        rc.0 < FRAG_DIM,
        rc.1 < FRAG_DIM,
{
    ((lane / 4) * 2 + slot / 4, (slot % 4) * 4 + lane % 4)
}

/// Inverse of `fragment_coords`: the (lane, slot) pair that owns position
/// (r, c) of the warp's sub-tile.
pub fn fragment_owner(r: usize, c: usize) -> (ls: (usize, usize))
    requires
        r < FRAG_DIM,
        c < FRAG_DIM,
    ensures
        ls.0 == spec_frag_owner_lane(r as int, c as int),
        ls.1 == spec_frag_owner_slot(r as int, c as int),
        ls.0 < WMMA_LANES,
        ls.1 < FRAG_SLOTS,
{
    ((r / 2) * 4 + c % 4, (r % 2) * 4 + c / 4)
}

/// Law: the owner of the position a (lane, slot) pair holds is that pair —
/// no element of the sub-tile is held by two different slots.
pub proof fn lemma_fragment_roundtrip(lane: int, slot: int)
    requires
        0 <= lane < WMMA_LANES,
        0 <= slot < FRAG_SLOTS,
    ensures
        0 <= spec_frag_row(lane, slot) < FRAG_DIM,
        0 <= spec_frag_col(lane, slot) < FRAG_DIM,
        spec_frag_owner_lane(spec_frag_row(lane, slot), spec_frag_col(lane, slot)) == lane,
        spec_frag_owner_slot(spec_frag_row(lane, slot), spec_frag_col(lane, slot)) == slot,
{
}

/// Law: every position of the warp's 16 x 16 sub-tile is held by its owner
/// (lane, slot) pair — together with the roundtrip law, the fragment mapping
/// is a bijection between (lane, slot) pairs and sub-tile positions.
pub proof fn lemma_fragment_coords_of_owner(r: int, c: int)
    requires
        0 <= r < FRAG_DIM,
        0 <= c < FRAG_DIM,
    ensures
        0 <= spec_frag_owner_lane(r, c) < WMMA_LANES,
        0 <= spec_frag_owner_slot(r, c) < FRAG_SLOTS,
        spec_frag_row(spec_frag_owner_lane(r, c), spec_frag_owner_slot(r, c)) == r,
        spec_frag_col(spec_frag_owner_lane(r, c), spec_frag_owner_slot(r, c)) == c,
{
}

/// One warp's fused multiply-accumulate step for one K-chunk: the warp's
/// accumulator fragment gains the product of its 16 x K-chunk slice of the
/// staged A tile with the K-chunk x 16 slice of the staged B tile, executed
/// collectively by the warp's lanes in lockstep. Accumulators of other
/// warps are untouched.
#[verifier::loop_isolation(false)]
fn warp_mma_step(
    acc: &mut Vec<i64>,
    smem_a: &Vec<i64>,
    smem_b: &Vec<i64>,
    a: &Vec<i64>,
    b: &Vec<i64>,
    m: usize,
    n: usize,
    k: usize,
    row0: usize,
    col0: usize,
    k0: usize,
    wrl: usize,
    wcl: usize,
)
    requires
        a@.len() == m * k,
        b@.len() == k * n,
        dots_fit(a@, b@, m as int, n as int, k as int),
        k0 < k,
        staged(smem_a@, a@, m as int, k as int, row0 as int, k0 as int, BLOCK_TILE as int,
            FRAG_DIM as int),
        staged(smem_b@, b@, k as int, n as int, k0 as int, col0 as int, FRAG_DIM as int,
            BLOCK_TILE as int),
        old(acc)@.len() == BLOCK_TILE * BLOCK_TILE,
        wrl + FRAG_DIM <= BLOCK_TILE,
        wcl + FRAG_DIM <= BLOCK_TILE,
        row0 + BLOCK_TILE <= usize::MAX,
        col0 + BLOCK_TILE <= usize::MAX,
        k0 + FRAG_DIM <= usize::MAX,
        forall|rr: int, cc: int|
            0 <= rr < FRAG_DIM && 0 <= cc < FRAG_DIM ==> #[trigger] old(acc)@[lin(
                BLOCK_TILE as int, wrl + rr, wcl + cc)] as int == (if row0 + wrl + rr < m && col0
                + wcl + cc < n {
                partial_dot(a@, b@, k as int, n as int, row0 + wrl + rr, col0 + wcl + cc,
                    k0 as int)
            } else {
                0
            }),
    ensures
        final(acc)@.len() == BLOCK_TILE * BLOCK_TILE,
        forall|rr: int, cc: int|
            0 <= rr < FRAG_DIM && 0 <= cc < FRAG_DIM ==> #[trigger] final(acc)@[lin(
                BLOCK_TILE as int, wrl + rr, wcl + cc)] as int == (if row0 + wrl + rr < m && col0
                + wcl + cc < n {
                partial_dot(a@, b@, k as int, n as int, row0 + wrl + rr, col0 + wcl + cc,
                    chunk_end(k0 as int, FRAG_DIM as int, k as int))
            } else {
                0
            }),
        forall|ty: int, tx: int|
            0 <= ty < BLOCK_TILE && 0 <= tx < BLOCK_TILE && !(wrl <= ty < wrl + FRAG_DIM && wcl
                <= tx < wcl + FRAG_DIM) ==> #[trigger] final(acc)@[lin(BLOCK_TILE as int, ty, tx)]
                == old(acc)@[lin(BLOCK_TILE as int, ty, tx)],
{
    let clen: usize = if k - k0 < FRAG_DIM {
        k - k0
    } else {
        FRAG_DIM
    };
    let ghost pend: int = chunk_end(k0 as int, FRAG_DIM as int, k as int);
    assert(k0 + clen == pend);
    for rr in 0..FRAG_DIM
        invariant
            acc@.len() == BLOCK_TILE * BLOCK_TILE,
            forall|rr2: int, cc2: int|
                0 <= rr2 < FRAG_DIM && 0 <= cc2 < FRAG_DIM ==> #[trigger] acc@[lin(
                    BLOCK_TILE as int, wrl + rr2, wcl + cc2)] as int == (if row0 + wrl + rr2 < m
                    && col0 + wcl + cc2 < n {
                    partial_dot(a@, b@, k as int, n as int, row0 + wrl + rr2, col0 + wcl + cc2,
                        if rr2 < rr { pend } else { k0 as int })
                } else {
                    0
                }),
            forall|ty: int, tx: int|
                0 <= ty < BLOCK_TILE && 0 <= tx < BLOCK_TILE && !(wrl <= ty < wrl + FRAG_DIM
                    && wcl <= tx < wcl + FRAG_DIM) ==> #[trigger] acc@[lin(BLOCK_TILE as int, ty,
                    tx)] == old(acc)@[lin(BLOCK_TILE as int, ty, tx)],
    {
        for cc in 0..FRAG_DIM
            invariant
                acc@.len() == BLOCK_TILE * BLOCK_TILE,
                forall|rr2: int, cc2: int|
                    0 <= rr2 < FRAG_DIM && 0 <= cc2 < FRAG_DIM ==> #[trigger] acc@[lin(
                        BLOCK_TILE as int, wrl + rr2, wcl + cc2)] as int == (if row0 + wrl + rr2
                        < m && col0 + wcl + cc2 < n {
                        partial_dot(a@, b@, k as int, n as int, row0 + wrl + rr2, col0 + wcl
                            + cc2, if rr2 < rr || (rr2 == rr && cc2 < cc) { pend } else {
                            k0 as int
                        })
                    } else {
                        0
                    }),
                forall|ty: int, tx: int|
                    0 <= ty < BLOCK_TILE && 0 <= tx < BLOCK_TILE && !(wrl <= ty < wrl + FRAG_DIM
                        && wcl <= tx < wcl + FRAG_DIM) ==> #[trigger] acc@[lin(BLOCK_TILE as int,
                        ty, tx)] == old(acc)@[lin(BLOCK_TILE as int, ty, tx)],
        {
            let ty: usize = wrl + rr;
            let tx: usize = wcl + cc;
            proof {
                lemma_lin_range(BLOCK_TILE as int, BLOCK_TILE as int, ty as int, tx as int);
            }
            let sidx: usize = ty * BLOCK_TILE + tx;
            let row: usize = row0 + ty;
            let col: usize = col0 + tx;
            let mut s: i64 = acc[sidx];
            proof {
                assert(s == acc@[lin(BLOCK_TILE as int, wrl + rr as int, wcl + cc as int)]);
            }
            for kk in 0..clen
                invariant
                    s as int == (if row < m && col < n {
                        partial_dot(a@, b@, k as int, n as int, row as int, col as int, k0 + kk)
                    } else {
                        0
                    }),
            {
                proof {
                    lemma_lin_range(BLOCK_TILE as int, FRAG_DIM as int, ty as int, kk as int);
                    lemma_lin_range(FRAG_DIM as int, BLOCK_TILE as int, kk as int, tx as int);
                }
                let av: i64 = smem_a[ty * FRAG_DIM + kk];
                let bv: i64 = smem_b[kk * BLOCK_TILE + tx];
                proof {
                    assert(smem_a@[lin(FRAG_DIM as int, ty as int, kk as int)] as int
                        == padded_ent(a@, m as int, k as int, row as int, k0 + kk));
                    assert(smem_b@[lin(BLOCK_TILE as int, kk as int, tx as int)] as int
                        == padded_ent(b@, k as int, n as int, k0 + kk, col as int));
                    if row < m && col < n {
                        lemma_partial_dot_step(a@, b@, k as int, n as int, row as int,
                            col as int, k0 + kk);
                        assert(i64::MIN <= partial_dot(a@, b@, k as int, n as int, row as int,
                            col as int, (k0 + kk) + 1) <= i64::MAX);
                    } else {
                        assert(av as int == 0 || bv as int == 0);
                        assert(av as int * bv as int == 0) by (nonlinear_arith)
                            requires av as int == 0 || bv as int == 0,
                        ;
                    }
                }
                s = s + av * bv;
            }
            let ghost pre: Seq<i64> = acc@;
            acc.set(sidx, s);
            proof {
                assert forall|rr2: int, cc2: int| 0 <= rr2 < FRAG_DIM && 0 <= cc2 < FRAG_DIM implies #[trigger] acc@[lin(
                    BLOCK_TILE as int, wrl + rr2, wcl + cc2,
                )] as int == (if row0 + wrl + rr2 < m && col0 + wcl + cc2 < n {
                    partial_dot(a@, b@, k as int, n as int, row0 + wrl + rr2, col0 + wcl + cc2,
                        if rr2 < rr || (rr2 == rr && cc2 < cc + 1) { pend } else { k0 as int })
                } else {
                    0
                }) by {
                    lemma_lin_range(BLOCK_TILE as int, BLOCK_TILE as int, wrl + rr2, wcl + cc2);
                    assert(acc@ == pre.update(sidx as int, s));
                    if lin(BLOCK_TILE as int, wrl + rr2, wcl + cc2) == sidx as int {
                        lemma_lin_injective(BLOCK_TILE as int, wrl + rr2, wcl + cc2, ty as int,
                            tx as int);
                    } else {
                        assert(acc@[lin(BLOCK_TILE as int, wrl + rr2, wcl + cc2)] == pre[lin(
                            BLOCK_TILE as int, wrl + rr2, wcl + cc2)]);
                    }
                }
                assert forall|ty2: int, tx2: int| 0 <= ty2 < BLOCK_TILE && 0 <= tx2 < BLOCK_TILE
                    && !(wrl <= ty2 < wrl + FRAG_DIM && wcl <= tx2 < wcl + FRAG_DIM) implies #[trigger] acc@[lin(
                    BLOCK_TILE as int, ty2, tx2,
                )] == old(acc)@[lin(BLOCK_TILE as int, ty2, tx2)] by {
                    lemma_lin_range(BLOCK_TILE as int, BLOCK_TILE as int, ty2, tx2);
                    assert(acc@ == pre.update(sidx as int, s));
                    if lin(BLOCK_TILE as int, ty2, tx2) == sidx as int {
                        lemma_lin_injective(BLOCK_TILE as int, ty2, tx2, ty as int, tx as int);
                    } else {
                        assert(acc@[lin(BLOCK_TILE as int, ty2, tx2)] == pre[lin(
                            BLOCK_TILE as int, ty2, tx2)]);
                    }
                }
            }
        }
    }
}

/// Position (rr, cc) of a warp sub-tile has already been written once the
/// epilogue's (lane, slot) counter has passed its owner pair.
pub open spec fn frag_written(rr: int, cc: int, counter: int) -> bool {
    spec_frag_owner_lane(rr, cc) * FRAG_SLOTS + spec_frag_owner_slot(rr, cc) < counter
}

/// Epilogue of one warp: lane by lane, slot by slot, each lane scales its
/// accumulator slots by alpha, blends with the prior C by beta, and writes
/// back only the slots whose global coordinate is in bounds. The fragment
/// mapping is a bijection onto the sub-tile, so every in-range element of
/// the warp's 16 x 16 output is written exactly once; nothing else changes.
#[verifier::loop_isolation(false)]
#[verifier::rlimit(60)]
fn write_warp_fragment(
    out: &mut Vec<i64>,
    acc: &Vec<i64>,
    a: &Vec<i64>,
    b: &Vec<i64>,
    c: &Vec<i64>,
    m: usize,
    n: usize,
    k: usize,
    alpha: i64,
    beta: i64,
    row0: usize,
    col0: usize,
    wrl: usize,
    wcl: usize,
)
    requires
        old(out)@.len() == m * n,
        gemm_fits(a@, b@, c@, m as int, n as int, k as int, alpha as int, beta as int),
        wrl + FRAG_DIM <= BLOCK_TILE,
        wcl + FRAG_DIM <= BLOCK_TILE,
        row0 + BLOCK_TILE <= usize::MAX,
        col0 + BLOCK_TILE <= usize::MAX,
        acc@.len() == BLOCK_TILE * BLOCK_TILE,
        forall|rr: int, cc: int|
            0 <= rr < FRAG_DIM && 0 <= cc < FRAG_DIM ==> #[trigger] acc@[lin(BLOCK_TILE as int,
                wrl + rr, wcl + cc)] as int == (if row0 + wrl + rr < m && col0 + wcl + cc < n {
                dot(a@, b@, k as int, n as int, row0 + wrl + rr, col0 + wcl + cc)
            } else {
                0
            }),
    ensures
        final(out)@.len() == m * n,
        forall|i: int, j: int|
            0 <= i < m && 0 <= j < n ==> #[trigger] final(out)@[lin(n as int, i, j)] as int == (
            if in_tile_region(i, j, row0 + wrl, col0 + wcl, FRAG_DIM as int, FRAG_DIM as int) {
                gemm_entry(a@, b@, c@, n as int, k as int, alpha as int, beta as int, i, j)
            } else {
                old(out)@[lin(n as int, i, j)] as int
            }),
{
    let gr0: usize = row0 + wrl;
    let gc0: usize = col0 + wcl;
    let c_len: usize = c.len();
    proof {
        assert(c_len == m * n);
    }
    for lane in 0..WMMA_LANES
        invariant
            out@.len() == m * n,
            forall|i: int, j: int|
                0 <= i < m && 0 <= j < n ==> #[trigger] out@[lin(n as int, i, j)] as int == (
                if in_tile_region(i, j, gr0 as int, gc0 as int, FRAG_DIM as int, FRAG_DIM as int)
                    && frag_written(i - gr0, j - gc0, lane * FRAG_SLOTS) {
                    gemm_entry(a@, b@, c@, n as int, k as int, alpha as int, beta as int, i, j)
                } else {
                    old(out)@[lin(n as int, i, j)] as int
                }),
    {
        for slot in 0..FRAG_SLOTS
            invariant
                out@.len() == m * n,
                forall|i: int, j: int|
                    0 <= i < m && 0 <= j < n ==> #[trigger] out@[lin(n as int, i, j)] as int == (
                    if in_tile_region(i, j, gr0 as int, gc0 as int, FRAG_DIM as int,
                        FRAG_DIM as int) && frag_written(i - gr0, j - gc0, lane * FRAG_SLOTS
                        + slot) {
                        gemm_entry(a@, b@, c@, n as int, k as int, alpha as int, beta as int, i,
                            j)
                    } else {
                        old(out)@[lin(n as int, i, j)] as int
                    }),
        {
            let rc: (usize, usize) = fragment_coords(lane, slot);
            let row: usize = gr0 + rc.0;
            let col: usize = gc0 + rc.1;
            let ghost pre: Seq<i64> = out@;
            proof {
                lemma_fragment_roundtrip(lane as int, slot as int);
            }
            if row < m && col < n {
                proof {
                    lemma_lin_range(m as int, n as int, row as int, col as int);
                    lemma_lin_range(BLOCK_TILE as int, BLOCK_TILE as int, wrl + rc.0 as int,
                        wcl + rc.1 as int);
                    assert(acc@[lin(BLOCK_TILE as int, wrl + rc.0 as int, wcl + rc.1 as int)]
                        as int == dot(a@, b@, k as int, n as int, row as int, col as int));
                    assert(i64::MIN <= gemm_entry(
                        a@, b@, c@, n as int, k as int, alpha as int, beta as int, row as int,
                        col as int,
                    ) <= i64::MAX);
                    if beta == 0 {
                        assert(beta as int * ent(c@, n as int, row as int, col as int) == 0)
                            by (nonlinear_arith)
                            requires beta == 0,
                        ;
                    }
                }
                let sidx: usize = (wrl + rc.0) * BLOCK_TILE + (wcl + rc.1);
                let oidx: usize = row * n + col;
                // Same skip-read rule as the tiled epilogue: with beta zero
                // the prior contents of C are never read.
                let v: i64 = if beta == 0 {
                    alpha * acc[sidx]
                } else {
                    alpha * acc[sidx] + beta * c[oidx]
                };
                out.set(oidx, v);
            }
            proof {
                assert forall|i: int, j: int| 0 <= i < m && 0 <= j < n implies #[trigger] out@[lin(
                    n as int, i, j,
                )] as int == (if in_tile_region(i, j, gr0 as int, gc0 as int, FRAG_DIM as int,
                    FRAG_DIM as int) && frag_written(i - gr0, j - gc0, lane * FRAG_SLOTS + slot
                    + 1) {
                    gemm_entry(a@, b@, c@, n as int, k as int, alpha as int, beta as int, i, j)
                } else {
                    old(out)@[lin(n as int, i, j)] as int
                }) by {
                    lemma_lin_range(m as int, n as int, i, j);
                    if in_tile_region(i, j, gr0 as int, gc0 as int, FRAG_DIM as int,
                        FRAG_DIM as int) {
                        let rr: int = i - gr0;
                        let cc: int = j - gc0;
                        lemma_fragment_coords_of_owner(rr, cc);
                        if spec_frag_owner_lane(rr, cc) == lane && spec_frag_owner_slot(rr, cc)
                            == slot {
                            assert(rr == rc.0 && cc == rc.1);
                            assert(i == row && j == col);
                        } else {
                            if row < m && col < n && lin(n as int, i, j) == lin(n as int,
                                row as int, col as int) {
                                lemma_lin_injective(n as int, i, j, row as int, col as int);
                                assert(false);
                            }
                            assert(out@[lin(n as int, i, j)] == pre[lin(n as int, i, j)]);
                        }
                    } else {
                        if row < m && col < n && lin(n as int, i, j) == lin(n as int, row as int,
                            col as int) {
                            lemma_lin_injective(n as int, i, j, row as int, col as int);
                            assert(false);
                        }
                        assert(out@[lin(n as int, i, j)] == pre[lin(n as int, i, j)]);
                    }
                }
            }
        }
    }
    proof {
        assert forall|i: int, j: int| 0 <= i < m && 0 <= j < n && in_tile_region(i, j,
            gr0 as int, gc0 as int, FRAG_DIM as int, FRAG_DIM as int) implies frag_written(i
            - gr0, j - gc0, WMMA_LANES as int * FRAG_SLOTS as int) by {
            lemma_fragment_coords_of_owner(i - gr0, j - gc0);
        }
    }
}

/// Tensor-fragment kernel model. The grid partitions the output into
/// 64 x 64 block tiles; per K-chunk each block stages its A and B chunks
/// into shared scratch (block-wide, with a barrier before and after use on
/// the device), then each of the 4 x 4 warps drives one fused
/// multiply-accumulate step on its private 16 x 16 fragment accumulator.
/// The epilogue walks lanes and slots through the fragment mapping.
#[verifier::loop_isolation(false)]
#[verifier::rlimit(60)]
pub fn gemm_kernel_wmma(
    m: usize,
    n: usize,
    k: usize,
    alpha: i64,
    a: &Vec<i64>,
    b: &Vec<i64>,
    beta: i64,
    c: &Vec<i64>,
) -> (out: Vec<i64>)
    requires
        gemm_fits(a@, b@, c@, m as int, n as int, k as int, alpha as int, beta as int),
        m + BLOCK_TILE <= usize::MAX,
        n + BLOCK_TILE <= usize::MAX,
        k + FRAG_DIM <= usize::MAX,
    ensures
        gemm_result(out@, a@, b@, c@, m as int, n as int, k as int, alpha as int, beta as int),
{
    let c_len: usize = c.len();
    proof {
        assert(c_len == m * n);
    }
    let mut out: Vec<i64> = copy_vec(c);
    let grid_rows: usize = exec_ceil_div(m, BLOCK_TILE);
    let grid_cols: usize = exec_ceil_div(n, BLOCK_TILE);
    let num_chunks: usize = exec_ceil_div(k, FRAG_DIM);
    proof {
        lemma_ceil_div_covers(m as int, BLOCK_TILE as int);
        lemma_ceil_div_covers(n as int, BLOCK_TILE as int);
        lemma_ceil_div_covers(k as int, FRAG_DIM as int);
        lemma_ceil_div_covers(BLOCK_TILE as int, FRAG_DIM as int);
    }
    for by in 0..grid_rows
        invariant
            out@.len() == m * n,
            forall|i: int, j: int|
                0 <= i < m && 0 <= j < n ==> #[trigger] out@[lin(n as int, i, j)] as int == (
                if i / (BLOCK_TILE as int) < by {
                    gemm_entry(a@, b@, c@, n as int, k as int, alpha as int, beta as int, i, j)
                } else {
                    ent(c@, n as int, i, j)
                }),
    {
        for bx in 0..grid_cols
            invariant
                out@.len() == m * n,
                forall|i: int, j: int|
                    0 <= i < m && 0 <= j < n ==> #[trigger] out@[lin(n as int, i, j)] as int == (
                    if i / (BLOCK_TILE as int) < by || (i / (BLOCK_TILE as int) == by && j / (
                    BLOCK_TILE as int) < bx) {
                        gemm_entry(a@, b@, c@, n as int, k as int, alpha as int, beta as int, i,
                            j)
                    } else {
                        ent(c@, n as int, i, j)
                    }),
        {
            let row0: usize = by * BLOCK_TILE;
            let col0: usize = bx * BLOCK_TILE;
            let mut acc: Vec<i64> = zero_vec(BLOCK_TILE * BLOCK_TILE);
            proof {
                assert forall|ty: int, tx: int| 0 <= ty < BLOCK_TILE && 0 <= tx
                    < BLOCK_TILE implies #[trigger] acc@[lin(BLOCK_TILE as int, ty, tx)] as int
                    == (if row0 + ty < m && col0 + tx < n {
                    partial_dot(a@, b@, k as int, n as int, row0 + ty, col0 + tx, chunk_end(0,
                        0 * FRAG_DIM, k as int))
                } else {
                    0
                }) by {
                    lemma_lin_range(BLOCK_TILE as int, BLOCK_TILE as int, ty, tx);
                }
            }
            for t in 0..num_chunks
                invariant
                    acc@.len() == BLOCK_TILE * BLOCK_TILE,
                    forall|ty: int, tx: int|
                        0 <= ty < BLOCK_TILE && 0 <= tx < BLOCK_TILE ==> #[trigger] acc@[lin(
                            BLOCK_TILE as int, ty, tx)] as int == (if row0 + ty < m && col0 + tx
                            < n {
                            partial_dot(a@, b@, k as int, n as int, row0 + ty, col0 + tx,
                                chunk_end(0, t * FRAG_DIM, k as int))
                        } else {
                            0
                        }),
            {
                let k0: usize = t * FRAG_DIM;
                let ghost pend: int = chunk_end(k0 as int, FRAG_DIM as int, k as int);
                let smem_a: Vec<i64> = load_tile(a, m, k, row0, k0, BLOCK_TILE, FRAG_DIM);
                let smem_b: Vec<i64> = load_tile(b, k, n, k0, col0, FRAG_DIM, BLOCK_TILE);
                for wy in 0..WARP_GRID_DIM
                    invariant
                        acc@.len() == BLOCK_TILE * BLOCK_TILE,
                        forall|ty: int, tx: int|
                            0 <= ty < BLOCK_TILE && 0 <= tx < BLOCK_TILE ==> #[trigger] acc@[lin(
                                BLOCK_TILE as int, ty, tx)] as int == (if row0 + ty < m && col0
                                + tx < n {
                                partial_dot(a@, b@, k as int, n as int, row0 + ty, col0 + tx,
                                    if ty / (FRAG_DIM as int) < wy { pend } else { k0 as int })
                            } else {
                                0
                            }),
                {
                    for wx in 0..WARP_GRID_DIM
                        invariant
                            acc@.len() == BLOCK_TILE * BLOCK_TILE,
                            forall|ty: int, tx: int|
                                0 <= ty < BLOCK_TILE && 0 <= tx < BLOCK_TILE ==> #[trigger] acc@[lin(
                                    BLOCK_TILE as int, ty, tx)] as int == (if row0 + ty < m
                                    && col0 + tx < n {
                                    partial_dot(a@, b@, k as int, n as int, row0 + ty, col0
                                        + tx, if ty / (FRAG_DIM as int) < wy || (ty / (
                                    FRAG_DIM as int) == wy && tx / (FRAG_DIM as int) < wx) {
                                        pend
                                    } else {
                                        k0 as int
                                    })
                                } else {
                                    0
                                }),
                    {
                        let wrl: usize = wy * FRAG_DIM;
                        let wcl: usize = wx * FRAG_DIM;
                        proof {
                            assert forall|rr: int, cc: int| 0 <= rr < FRAG_DIM && 0 <= cc
                                < FRAG_DIM implies #[trigger] acc@[lin(BLOCK_TILE as int, wrl
                                + rr, wcl + cc)] as int == (if row0 + wrl + rr < m && col0 + wcl
                                + cc < n {
                                partial_dot(a@, b@, k as int, n as int, row0 + wrl + rr, col0
                                    + wcl + cc, k0 as int)
                            } else {
                                0
                            }) by {
                                lemma_div_range(wrl + rr, FRAG_DIM as int, wy as int);
                                lemma_div_range(wcl + cc, FRAG_DIM as int, wx as int);
                            }
                        }
                        let ghost pre_acc: Seq<i64> = acc@;
                        warp_mma_step(&mut acc, &smem_a, &smem_b, a, b, m, n, k, row0, col0, k0,
                            wrl, wcl);
                        proof {
                            assert forall|ty: int, tx: int| 0 <= ty < BLOCK_TILE && 0 <= tx
                                < BLOCK_TILE implies #[trigger] acc@[lin(BLOCK_TILE as int, ty,
                                tx)] as int == (if row0 + ty < m && col0 + tx < n {
                                partial_dot(a@, b@, k as int, n as int, row0 + ty, col0 + tx,
                                    if ty / (FRAG_DIM as int) < wy || (ty / (FRAG_DIM as int)
                                        == wy && tx / (FRAG_DIM as int) < wx + 1) {
                                        pend
                                    } else {
                                        k0 as int
                                    })
                            } else {
                                0
                            }) by {
                                lemma_div_range(ty, FRAG_DIM as int, wy as int);
                                lemma_div_range(tx, FRAG_DIM as int, wx as int);
                                if wrl <= ty < wrl + FRAG_DIM && wcl <= tx < wcl + FRAG_DIM {
                                    assert(acc@[lin(BLOCK_TILE as int, wrl + (ty - wrl), wcl + (
                                    tx - wcl))] as int == (if row0 + wrl + (ty - wrl) < m && col0
                                        + wcl + (tx - wcl) < n {
                                        partial_dot(a@, b@, k as int, n as int, row0 + wrl + (ty
                                            - wrl), col0 + wcl + (tx - wcl), pend)
                                    } else {
                                        0
                                    }));
                                } else {
                                    assert(acc@[lin(BLOCK_TILE as int, ty, tx)] == pre_acc[lin(
                                        BLOCK_TILE as int, ty, tx)]);
                                }
                            }
                        }
                    }
                }
                proof {
                    assert forall|ty: int, tx: int| 0 <= ty < BLOCK_TILE && 0 <= tx
                        < BLOCK_TILE implies #[trigger] acc@[lin(BLOCK_TILE as int, ty, tx)]
                        as int == (if row0 + ty < m && col0 + tx < n {
                        partial_dot(a@, b@, k as int, n as int, row0 + ty, col0 + tx, chunk_end(
                            0, (t + 1) * FRAG_DIM, k as int))
                    } else {
                        0
                    }) by {
                        assert(ty / (FRAG_DIM as int) < WARP_GRID_DIM);
                    }
                }
            }
            proof {
                assert(chunk_end(0, num_chunks as int * FRAG_DIM as int, k as int) == k);
            }
            for wy in 0..WARP_GRID_DIM
                invariant
                    out@.len() == m * n,
                    forall|i: int, j: int|
                        0 <= i < m && 0 <= j < n ==> #[trigger] out@[lin(n as int, i, j)] as int
                            == (if i / (BLOCK_TILE as int) < by || (i / (BLOCK_TILE as int) == by
                            && j / (BLOCK_TILE as int) < bx) {
                            gemm_entry(a@, b@, c@, n as int, k as int, alpha as int, beta as int,
                                i, j)
                        } else if in_tile_region(i, j, row0 as int, col0 as int,
                            BLOCK_TILE as int, BLOCK_TILE as int) && (i - row0) / (
                        FRAG_DIM as int) < wy {
                            gemm_entry(a@, b@, c@, n as int, k as int, alpha as int, beta as int,
                                i, j)
                        } else {
                            ent(c@, n as int, i, j)
                        }),
            {
                for wx in 0..WARP_GRID_DIM
                    invariant
                        out@.len() == m * n,
                        forall|i: int, j: int|
                            0 <= i < m && 0 <= j < n ==> #[trigger] out@[lin(n as int, i, j)]
                                as int == (if i / (BLOCK_TILE as int) < by || (i / (
                            BLOCK_TILE as int) == by && j / (BLOCK_TILE as int) < bx) {
                                gemm_entry(a@, b@, c@, n as int, k as int, alpha as int,
                                    beta as int, i, j)
                            } else if in_tile_region(i, j, row0 as int, col0 as int,
                                BLOCK_TILE as int, BLOCK_TILE as int) && ((i - row0) / (
                            FRAG_DIM as int) < wy || ((i - row0) / (FRAG_DIM as int) == wy && (j
                                - col0) / (FRAG_DIM as int) < wx)) {
                                gemm_entry(a@, b@, c@, n as int, k as int, alpha as int,
                                    beta as int, i, j)
                            } else {
                                ent(c@, n as int, i, j)
                            }),
                {
                    let wrl: usize = wy * FRAG_DIM;
                    let wcl: usize = wx * FRAG_DIM;
                    proof {
                        assert forall|rr: int, cc: int| 0 <= rr < FRAG_DIM && 0 <= cc
                            < FRAG_DIM implies #[trigger] acc@[lin(BLOCK_TILE as int, wrl + rr,
                            wcl + cc)] as int == (if row0 + wrl + rr < m && col0 + wcl + cc < n {
                            dot(a@, b@, k as int, n as int, row0 + wrl + rr, col0 + wcl + cc)
                        } else {
                            0
                        }) by {
                            assert(0 <= wrl + rr < BLOCK_TILE && 0 <= wcl + cc < BLOCK_TILE);
                        }
                    }
                    let ghost pre_out: Seq<i64> = out@;
                    write_warp_fragment(&mut out, &acc, a, b, c, m, n, k, alpha, beta, row0,
                        col0, wrl, wcl);
                    proof {
                        assert forall|i: int, j: int| 0 <= i < m && 0 <= j < n implies #[trigger] out@[lin(
                            n as int, i, j,
                        )] as int == (if i / (BLOCK_TILE as int) < by || (i / (
                        BLOCK_TILE as int) == by && j / (BLOCK_TILE as int) < bx) {
                            gemm_entry(a@, b@, c@, n as int, k as int, alpha as int, beta as int,
                                i, j)
                        } else if in_tile_region(i, j, row0 as int, col0 as int,
                            BLOCK_TILE as int, BLOCK_TILE as int) && ((i - row0) / (
                        FRAG_DIM as int) < wy || ((i - row0) / (FRAG_DIM as int) == wy && (j
                            - col0) / (FRAG_DIM as int) < wx + 1)) {
                            gemm_entry(a@, b@, c@, n as int, k as int, alpha as int, beta as int,
                                i, j)
                        } else {
                            ent(c@, n as int, i, j)
                        }) by {
                            if in_tile_region(i, j, row0 as int, col0 as int, BLOCK_TILE as int,
                                BLOCK_TILE as int) {
                                lemma_div_range(i - row0, FRAG_DIM as int, wy as int);
                                lemma_div_range(j - col0, FRAG_DIM as int, wx as int);
                            }
                        }
                    }
                }
            }
            proof {
                assert forall|i: int, j: int| 0 <= i < m && 0 <= j < n implies #[trigger] out@[lin(
                    n as int, i, j,
                )] as int == (if i / (BLOCK_TILE as int) < by || (i / (BLOCK_TILE as int) == by
                    && j / (BLOCK_TILE as int) < bx + 1) {
                    gemm_entry(a@, b@, c@, n as int, k as int, alpha as int, beta as int, i, j)
                } else {
                    ent(c@, n as int, i, j)
                }) by {
                    lemma_div_range(i, BLOCK_TILE as int, by as int);
                    lemma_div_range(j, BLOCK_TILE as int, bx as int);
                    if in_tile_region(i, j, row0 as int, col0 as int, BLOCK_TILE as int,
                        BLOCK_TILE as int) {
                        assert((i - row0) / (FRAG_DIM as int) < WARP_GRID_DIM);
                    }
                }
            }
        }
        proof {
            assert forall|i: int, j: int| 0 <= i < m && 0 <= j < n implies #[trigger] out@[lin(
                n as int, i, j,
            )] as int == (if i / (BLOCK_TILE as int) < by + 1 {
                gemm_entry(a@, b@, c@, n as int, k as int, alpha as int, beta as int, i, j)
            } else {
                ent(c@, n as int, i, j)
            }) by {
                assert(j / (BLOCK_TILE as int) < grid_cols);
            }
        }
    }
    proof {
        assert forall|i: int, j: int| 0 <= i < m && 0 <= j < n implies out@[lin(n as int, i, j)]
            == #[trigger] gemm_entry(a@, b@, c@, n as int, k as int, alpha as int, beta as int,
            i, j) by {
            assert(i / (BLOCK_TILE as int) < grid_rows);
        }
    }
    out
}

/// Law: an output of the tensor-fragment kernel agrees with an output of the
/// tiled kernel for the same operands, entry for entry — the two kernel
/// paths cross-validate.
pub proof fn lemma_wmma_matches_tiled(
    out_wmma: Seq<i64>,
    out_tiled: Seq<i64>,
    a: Seq<i64>,
    b: Seq<i64>,
    c: Seq<i64>,
    m: int,
    n: int,
    k: int,
    alpha: int,
    beta: int,
)
    requires
        m >= 0,
        n >= 0,
        gemm_result(out_wmma, a, b, c, m, n, k, alpha, beta),
        gemm_result(out_tiled, a, b, c, m, n, k, alpha, beta),
    ensures
        out_wmma =~= out_tiled,
{
    lemma_gemm_result_unique(out_wmma, out_tiled, a, b, c, m, n, k, alpha, beta);
}

} // verus!
