//! Host-side launch geometry: choosing a block shape from device limits and
//! deriving the grid shape that covers the whole output, with the proof that
//! the cover is exact — every output element is owned by exactly one thread.

use vstd::prelude::*;
use crate::arith::ceil_div;
use crate::arith::lemma_ceil_div_alt;
use crate::arith::lemma_ceil_div_covers;
use crate::arith::lemma_div_range;
use vstd::arithmetic::div_mod::lemma_fundamental_div_mod;
use vstd::arithmetic::div_mod::lemma_fundamental_div_mod_converse;
use vstd::arithmetic::div_mod::lemma_mod_division_less_than_divisor;

verus! {

/// Pick the thread-block shape from the device's maximum threads per block:
/// 32 x 32 threads where the device allows 1024 or more, 16 x 16 for the
/// common smaller limits, and further square fallbacks for devices that
/// cannot support even those — the derived block never asks for more
/// threads than the device supports.
pub fn calculate_block_size(max_threads_per_block: u32) -> (r: (u32, u32, u32))
    requires
        max_threads_per_block >= 1,
    ensures
        r.1 == r.0 && r.2 == 1,
        r.0 * r.1 * r.2 <= max_threads_per_block,
        max_threads_per_block >= 1024 ==> r.0 == 32,
        256 <= max_threads_per_block < 1024 ==> r.0 == 16,
        64 <= max_threads_per_block < 256 ==> r.0 == 8,
        16 <= max_threads_per_block < 64 ==> r.0 == 4,
        4 <= max_threads_per_block < 16 ==> r.0 == 2,
        max_threads_per_block < 4 ==> r.0 == 1,
{
    let block_dim: u32 = if max_threads_per_block >= 1024 {
        32
    } else if max_threads_per_block >= 256 {
        16
    } else if max_threads_per_block >= 64 {
        8
    } else if max_threads_per_block >= 16 {
        4
    } else if max_threads_per_block >= 4 {
        2
    } else {
        1
    };
    (block_dim, block_dim, 1)
}

/// Grid shape for an m x n output under the given block shape: the ceiling
/// divisions that cover the full output.
pub fn grid_dims(m: u32, n: u32, block_x: u32, block_y: u32) -> (r: (u32, u32))
    requires
        block_x >= 1,
        block_y >= 1,
    ensures
        r.0 == ceil_div(n as int, block_x as int),
        r.1 == ceil_div(m as int, block_y as int),
{
    let grid_x: u64 = if n == 0 {
        0
    } else {
        1 + ((n as u64 - 1) / block_x as u64)
    };
    let grid_y: u64 = if m == 0 {
        0
    } else {
        1 + ((m as u64 - 1) / block_y as u64)
    };
    proof {
        lemma_ceil_div_covers(n as int, block_x as int);
        lemma_ceil_div_covers(m as int, block_y as int);
        if n >= 1 {
            lemma_ceil_div_alt(n as int, block_x as int);
            lemma_div_range(n as int - 1, block_x as int, (n as int - 1) / (block_x as int));
            lemma_fundamental_div_mod(n as int - 1, block_x as int);
            lemma_mod_division_less_than_divisor(n as int - 1, block_x as int);
            assert((n as int - 1) / (block_x as int) <= n as int - 1) by (nonlinear_arith)
                requires
                    n >= 1,
                    block_x >= 1,
                    n as int - 1 == block_x as int * ((n as int - 1) / (block_x as int)) + (n
                        as int - 1) % (block_x as int),
                    0 <= (n as int - 1) % (block_x as int) < block_x as int,
            ;
        }
        if m >= 1 {
            lemma_ceil_div_alt(m as int, block_y as int);
            lemma_fundamental_div_mod(m as int - 1, block_y as int);
            lemma_mod_division_less_than_divisor(m as int - 1, block_y as int);
            assert((m as int - 1) / (block_y as int) <= m as int - 1) by (nonlinear_arith)
                requires
                    m >= 1,
                    block_y >= 1,
                    m as int - 1 == block_y as int * ((m as int - 1) / (block_y as int)) + (m
                        as int - 1) % (block_y as int),
                    0 <= (m as int - 1) % (block_y as int) < block_y as int,
            ;
        }
    }
    (grid_x as u32, grid_y as u32)
}

/// Law: along one axis, the grid of `ceil_div(len, bsize)` blocks of `bsize`
/// threads covers `[0, len)` exactly once. Every coordinate `x` below `len`
/// is owned by the thread `(x / bsize, x % bsize)`, that block index is below
/// the grid extent, and no other (block, thread) pair reaches `x`.
pub proof fn lemma_grid_covers_exactly_once(len: int, bsize: int, x: int)
    requires
        bsize >= 1,
        0 <= x < len,
    ensures
        (x / bsize) * bsize + x % bsize == x,
        0 <= x / bsize < ceil_div(len, bsize),
        0 <= x % bsize < bsize,
        forall|blk: int, t: int|
            0 <= t < bsize && #[trigger] (blk * bsize + t) == x ==> blk == x / bsize && t == x
                % bsize,
{
    lemma_fundamental_div_mod(x, bsize);
    lemma_mod_division_less_than_divisor(x, bsize);
    assert((x / bsize) * bsize + x % bsize == x) by (nonlinear_arith)
        requires x == bsize * (x / bsize) + x % bsize,
    ;
    lemma_ceil_div_covers(len, bsize);
    assert forall|blk: int, t: int|
        0 <= t < bsize && #[trigger] (blk * bsize + t) == x implies blk == x / bsize && t == x
        % bsize by {
        lemma_fundamental_div_mod_converse(x, bsize, blk, t);
    }
}

/// Law: the grid returned by `grid_dims` covers the m x n output exactly
/// once. Output element (r, c) belongs to block (c / block_x, r / block_y)
/// — which lies inside the grid — at thread (c % block_x, r % block_y), and
/// no other (block, thread) pair reaches it.
pub proof fn lemma_launch_covers_output(
    m: int,
    n: int,
    block_x: int,
    block_y: int,
    r: int,
    c: int,
)
    requires
        block_x >= 1,
        block_y >= 1,
        0 <= r < m,
        0 <= c < n,
    ensures
        0 <= r / block_y < ceil_div(m, block_y),
        0 <= c / block_x < ceil_div(n, block_x),
        (r / block_y) * block_y + r % block_y == r,
        (c / block_x) * block_x + c % block_x == c,
        forall|gy: int, ty: int|
            0 <= ty < block_y && #[trigger] (gy * block_y + ty) == r ==> gy == r / block_y && ty
                == r % block_y,
        forall|gx: int, tx: int|
            0 <= tx < block_x && #[trigger] (gx * block_x + tx) == c ==> gx == c / block_x && tx
                == c % block_x,
{
    lemma_grid_covers_exactly_once(m, block_y, r);
    lemma_grid_covers_exactly_once(n, block_x, c);
}

} // verus!
