//! Matrix shapes, memory layouts and tiling geometry.
//!
//! A `TensorLayout` binds a logical shape to a rule that maps (row, col)
//! coordinates to a linear memory offset; a `TileConfig` describes how a
//! kernel partitions its output tile across warps and threads.

use vstd::prelude::*;
use crate::arith::ceil_div;
use crate::arith::exec_ceil_div;
use crate::arith::lemma_ceil_div_covers;
use crate::arith::lemma_unit_step;
use vstd::arithmetic::div_mod::lemma_mod_division_less_than_divisor;

verus! {

/// How a matrix's elements are ordered in linear memory.
#[derive(Debug, Clone, Copy, PartialEq, Eq)]
pub enum MemoryLayout {
    RowMajor,
    ColumnMajor,
    Tiled { tile_m: usize, tile_n: usize },
}

/// A logical (rows x cols) extent.
#[derive(Debug, Clone, Copy, PartialEq, Eq)]
pub struct TensorShape {
    pub rows: usize,
    pub cols: usize,
}

impl TensorShape {
    pub fn new(rows: usize, cols: usize) -> (s: Self)
        ensures
            s.rows == rows,
            s.cols == cols,
    {
        Self { rows, cols }
    }

    /// Number of elements of the shape, as a mathematical integer.
    pub open spec fn spec_size(&self) -> int {
        self.rows * self.cols
    }

    pub fn size(&self) -> (r: usize)
        requires
            self.rows * self.cols <= usize::MAX,
        ensures
            r == self.spec_size(),
    {
        self.rows * self.cols
    }

    /// A shape may be used to index memory only when both extents are positive.
    pub open spec fn spec_is_valid(&self) -> bool {
        self.rows > 0 && self.cols > 0
    }

    pub fn is_valid(&self) -> (r: bool)
        ensures
            r == self.spec_is_valid(),
    {
        self.rows > 0 && self.cols > 0
    }
}

/// A shape together with an element ordering and a leading dimension
/// (the memory stride between successive rows, or columns, of the matrix).
#[derive(Debug, Clone, Copy)]
pub struct TensorLayout {
    pub shape: TensorShape,
    pub layout: MemoryLayout,
    pub leading_dim: usize,
}

impl TensorLayout {
    /// The layout built by `row_major`.
    pub open spec fn spec_row_major(rows: usize, cols: usize) -> TensorLayout {
        TensorLayout {
            shape: TensorShape { rows, cols },
            layout: MemoryLayout::RowMajor,
            leading_dim: cols,
        }
    }

    /// The layout built by `column_major`.
    pub open spec fn spec_column_major(rows: usize, cols: usize) -> TensorLayout {
        TensorLayout {
            shape: TensorShape { rows, cols },
            layout: MemoryLayout::ColumnMajor,
            leading_dim: rows,
        }
    }

    /// The layout built by `tiled`.
    pub open spec fn spec_tiled(rows: usize, cols: usize, tile_m: usize, tile_n: usize) -> TensorLayout {
        TensorLayout {
            shape: TensorShape { rows, cols },
            layout: MemoryLayout::Tiled { tile_m, tile_n },
            leading_dim: cols,
        }
    }

    pub fn row_major(rows: usize, cols: usize) -> (l: Self)
        ensures
            l == Self::spec_row_major(rows, cols),
    {
        Self {
            shape: TensorShape::new(rows, cols),
            layout: MemoryLayout::RowMajor,
            leading_dim: cols,
        }
    }

    pub fn column_major(rows: usize, cols: usize) -> (l: Self)
        ensures
            l == Self::spec_column_major(rows, cols),
    {
        Self {
            shape: TensorShape::new(rows, cols),
            layout: MemoryLayout::ColumnMajor,
            leading_dim: rows,
        }
    }

    pub fn tiled(rows: usize, cols: usize, tile_m: usize, tile_n: usize) -> (l: Self)
        ensures
            l == Self::spec_tiled(rows, cols, tile_m, tile_n),
    {
        Self {
            shape: TensorShape::new(rows, cols),
            layout: MemoryLayout::Tiled { tile_m, tile_n },
            leading_dim: cols,
        }
    }

    /// A layout is well formed when its shape is valid and its parameters can
    /// address the whole shape: the leading dimension spans a full row (or
    /// column), and tile extents are positive.
    pub open spec fn wf(&self) -> bool {
        &&& self.shape.spec_is_valid()
        &&& match self.layout {
            MemoryLayout::RowMajor => self.leading_dim >= self.shape.cols,
            MemoryLayout::ColumnMajor => self.leading_dim >= self.shape.rows,
            MemoryLayout::Tiled { tile_m, tile_n } => tile_m > 0 && tile_n > 0,
        }
    }

    /// The linear offset of (row, col), as a mathematical integer.
    ///
    /// Row major places rows contiguously with stride `leading_dim`; column
    /// major places columns contiguously. The tiled layout stores
    /// `tile_m x tile_n` blocks contiguously, block-major in row order.
    pub open spec fn spec_index(&self, row: int, col: int) -> int {
        match self.layout {
            MemoryLayout::RowMajor => row * self.leading_dim + col,
            MemoryLayout::ColumnMajor => col * self.leading_dim + row,
            MemoryLayout::Tiled { tile_m, tile_n } => {
                let tiles_per_row: int = ceil_div(self.shape.cols as int, tile_n as int);
                let tile_idx: int = (row / (tile_m as int)) * tiles_per_row + col / (tile_n as int);
                let in_tile_idx: int = (row % (tile_m as int)) * (tile_n as int) + col % (tile_n as int);
                tile_idx * (tile_m as int * tile_n as int) + in_tile_idx
            }
        }
    }

    /// The machine can compute `spec_index(row, col)` without overflow.
    pub open spec fn index_fits(&self, row: int, col: int) -> bool {
        &&& self.spec_index(row, col) <= usize::MAX
        &&& match self.layout {
            MemoryLayout::Tiled { tile_m, tile_n } => tile_m * tile_n <= usize::MAX,
            _ => true,
        }
    }

    /// Linear offset of an in-range coordinate.
    pub fn index(&self, row: usize, col: usize) -> (r: usize)
        requires
            self.wf(),
            row < self.shape.rows,
            col < self.shape.cols,
            self.index_fits(row as int, col as int),
        ensures
            r == self.spec_index(row as int, col as int),
    {
        match self.layout {
            MemoryLayout::RowMajor => row * self.leading_dim + col,
            MemoryLayout::ColumnMajor => col * self.leading_dim + row,
            MemoryLayout::Tiled { tile_m, tile_n } => {
                let tile_row: usize = row / tile_m;
                let tile_col: usize = col / tile_n;
                let in_tile_row: usize = row % tile_m;
                let in_tile_col: usize = col % tile_n;
                let tiles_per_row: usize = exec_ceil_div(self.shape.cols, tile_n);
                proof {
                    let tm: int = tile_m as int;
                    let tn: int = tile_n as int;
                    let s: int = self.spec_index(row as int, col as int);
                    let ti: int = tile_row as int * tiles_per_row as int + tile_col as int;
                    let iti: int = in_tile_row as int * tn + in_tile_col as int;
                    lemma_mod_division_less_than_divisor(row as int, tm);
                    lemma_mod_division_less_than_divisor(col as int, tn);
                    assert(s == ti * (tm * tn) + iti);
                    assert(0 <= iti < tm * tn) by (nonlinear_arith)
                        requires
                            iti == in_tile_row as int * tn + in_tile_col as int,
                            0 <= in_tile_row < tm,
                            0 <= in_tile_col < tn,
                    ;
                    assert(ti >= 0 && tile_row as int * tiles_per_row as int >= 0) by (nonlinear_arith)
                        requires
                            ti == tile_row as int * tiles_per_row as int + tile_col as int,
                            tile_row >= 0,
                            tiles_per_row >= 0,
                            tile_col >= 0,
                    ;
                    assert(ti <= ti * (tm * tn)) by (nonlinear_arith)
                        requires
                            ti >= 0,
                            tm * tn >= 1,
                    ;
                }
                let tile_idx: usize = tile_row * tiles_per_row + tile_col;
                let in_tile_idx: usize = in_tile_row * tile_n + in_tile_col;
                tile_idx * (tile_m * tile_n) + in_tile_idx
            }
        }
    }

    /// Memory distance of a unit step along the row dimension.
    pub open spec fn spec_row_stride(&self) -> int {
        match self.layout {
            MemoryLayout::RowMajor => self.leading_dim as int,
            MemoryLayout::ColumnMajor => 1,
            MemoryLayout::Tiled { tile_m: _, tile_n } => tile_n as int,
        }
    }

    pub fn row_stride(&self) -> (r: usize)
        ensures
            r == self.spec_row_stride(),
    {
        match self.layout {
            MemoryLayout::RowMajor => self.leading_dim,
            MemoryLayout::ColumnMajor => 1,
            MemoryLayout::Tiled { tile_m: _, tile_n } => tile_n,
        }
    }

    /// Memory distance of a unit step along the column dimension. In the
    /// tiled layout, elements of one tile row are contiguous, so a unit
    /// column step inside a tile moves the offset by 1.
    pub open spec fn spec_col_stride(&self) -> int {
        match self.layout {
            MemoryLayout::RowMajor => 1,
            MemoryLayout::ColumnMajor => self.leading_dim as int,
            MemoryLayout::Tiled { tile_m: _, tile_n: _ } => 1,
        }
    }

    pub fn col_stride(&self) -> (r: usize)
        ensures
            r == self.spec_col_stride(),
    {
        match self.layout {
            MemoryLayout::RowMajor => 1,
            MemoryLayout::ColumnMajor => self.leading_dim,
            MemoryLayout::Tiled { tile_m: _, tile_n: _ } => 1,
        }
    }

    /// A unit row step stays inside the stride's regime: always, except that
    /// in the tiled layout the step must not cross into the next tile row.
    pub open spec fn row_step_in_regime(&self, row: int) -> bool {
        match self.layout {
            MemoryLayout::Tiled { tile_m, tile_n: _ } => row % (tile_m as int) + 1 < tile_m,
            _ => true,
        }
    }

    /// A unit column step stays inside the stride's regime: always, except
    /// that in the tiled layout the step must not cross into the next tile.
    pub open spec fn col_step_in_regime(&self, col: int) -> bool {
        match self.layout {
            MemoryLayout::Tiled { tile_m: _, tile_n } => col % (tile_n as int) + 1 < tile_n,
            _ => true,
        }
    }

    /// The operands of C = alpha * A * B + beta * C agree on their extents.
    pub open spec fn spec_is_gemm_compatible(a: TensorLayout, b: TensorLayout, c: TensorLayout) -> bool {
        &&& a.shape.cols == b.shape.rows
        &&& a.shape.rows == c.shape.rows
        &&& b.shape.cols == c.shape.cols
    }

    pub fn is_gemm_compatible(a: &Self, b: &Self, c: &Self) -> (r: bool)
        ensures
            r == Self::spec_is_gemm_compatible(*a, *b, *c),
    {
        a.shape.cols == b.shape.rows
            && a.shape.rows == c.shape.rows
            && b.shape.cols == c.shape.cols
    }
}

/// Law: under a row-major layout with leading dimension equal to the column
/// count, the offset of (r, c) is exactly r * cols + c.
pub proof fn lemma_row_major_offset(rows: usize, cols: usize, r: int, c: int)
    requires
        0 <= r < rows,
        0 <= c < cols,
    ensures
        TensorLayout::spec_row_major(rows, cols).spec_index(r, c) == r * cols + c,
{
}

/// Law: under a column-major layout with leading dimension equal to the row
/// count, the offset of (r, c) is exactly c * rows + r.
pub proof fn lemma_column_major_offset(rows: usize, cols: usize, r: int, c: int)
    requires
        0 <= r < rows,
        0 <= c < cols,
    ensures
        TensorLayout::spec_column_major(rows, cols).spec_index(r, c) == c * rows + r,
{
}

/// Law: a unit step along the row dimension moves the linear offset by
/// exactly `row_stride` — unconditionally for the row- and column-major
/// layouts, and while the step stays inside one tile for the tiled layout.
pub proof fn lemma_row_stride_step(l: &TensorLayout, row: int, col: int)
    requires
        l.wf(),
        0 <= row,
        row + 1 < l.shape.rows,
        0 <= col < l.shape.cols,
        l.row_step_in_regime(row),
    ensures
        l.spec_index(row + 1, col) == l.spec_index(row, col) + l.spec_row_stride(),
{
    match l.layout {
        MemoryLayout::RowMajor => {
            assert((row + 1) * l.leading_dim == row * l.leading_dim + l.leading_dim)
                by (nonlinear_arith);
        },
        MemoryLayout::ColumnMajor => {},
        MemoryLayout::Tiled { tile_m, tile_n } => {
            lemma_unit_step(row, tile_m as int);
            assert((row % (tile_m as int) + 1) * (tile_n as int) == (row % (tile_m as int)) * (
            tile_n as int) + tile_n) by (nonlinear_arith);
        },
    }
}

/// Law: a unit step along the column dimension moves the linear offset by
/// exactly `col_stride` — unconditionally for the row- and column-major
/// layouts, and while the step stays inside one tile for the tiled layout.
pub proof fn lemma_col_stride_step(l: &TensorLayout, row: int, col: int)
    requires
        l.wf(),
        0 <= row < l.shape.rows,
        0 <= col,
        col + 1 < l.shape.cols,
        l.col_step_in_regime(col),
    ensures
        l.spec_index(row, col + 1) == l.spec_index(row, col) + l.spec_col_stride(),
{
    match l.layout {
        MemoryLayout::RowMajor => {},
        MemoryLayout::ColumnMajor => {
            assert((col + 1) * l.leading_dim == col * l.leading_dim + l.leading_dim)
                by (nonlinear_arith);
        },
        MemoryLayout::Tiled { tile_m: _, tile_n } => {
            lemma_unit_step(col, tile_n as int);
        },
    }
}

/// Static tiling geometry of a kernel: the per-block output tile extents, the
/// K-chunk width, and the per-warp sub-tile extents.
#[derive(Debug, Clone, Copy)]
pub struct TileConfig {
    pub tile_m: usize,
    pub tile_n: usize,
    pub tile_k: usize,
    pub warp_m: usize,
    pub warp_n: usize,
    pub warp_k: usize,
}

/// Hardware warp width: the number of lanes that execute in lockstep.
pub const WARP_WIDTH: usize = 32;

impl TileConfig {
    /// All extents positive, and a warp sub-tile fits inside the block tile.
    pub open spec fn wf(&self) -> bool {
        &&& self.tile_m > 0
        &&& self.tile_n > 0
        &&& self.tile_k > 0
        &&& self.warp_m > 0
        &&& self.warp_n > 0
        &&& self.warp_k > 0
        &&& self.warp_m <= self.tile_m
        &&& self.warp_n <= self.tile_n
    }

    pub fn ampere_default() -> (c: Self)
        ensures
            c.tile_m == 128,
            c.tile_n == 128,
            c.tile_k == 16,
            c.warp_m == 32,
            c.warp_n == 32,
            c.warp_k == 16,
            c.wf(),
    {
        Self { tile_m: 128, tile_n: 128, tile_k: 16, warp_m: 32, warp_n: 32, warp_k: 16 }
    }

    pub fn hopper_default() -> (c: Self)
        ensures
            c.tile_m == 256,
            c.tile_n == 128,
            c.tile_k == 64,
            c.warp_m == 64,
            c.warp_n == 64,
            c.warp_k == 16,
            c.wf(),
    {
        Self { tile_m: 256, tile_n: 128, tile_k: 64, warp_m: 64, warp_n: 64, warp_k: 16 }
    }

    /// Number of warps needed to cover the block tile with warp sub-tiles.
    pub open spec fn spec_warps_per_block(&self) -> int {
        ceil_div(self.tile_m as int, self.warp_m as int)
            * ceil_div(self.tile_n as int, self.warp_n as int)
    }

    /// One hardware warp runs 32 lanes, so a block always asks for exactly
    /// 32 threads for each of its warps.
    pub open spec fn spec_threads_per_block(&self) -> int {
        self.spec_warps_per_block() * 32
    }

    pub fn warps_per_block(&self) -> (r: usize)
        requires
            self.wf(),
            self.spec_warps_per_block() <= usize::MAX,
        ensures
            r == self.spec_warps_per_block(),
    {
        let warps_m: usize = exec_ceil_div(self.tile_m, self.warp_m);
        let warps_n: usize = exec_ceil_div(self.tile_n, self.warp_n);
        warps_m * warps_n
    }

    pub fn threads_per_block(&self) -> (r: usize)
        requires
            self.wf(),
            self.spec_threads_per_block() <= usize::MAX,
        ensures
            r == self.spec_threads_per_block(),
    {
        proof {
            lemma_ceil_div_covers(self.tile_m as int, self.warp_m as int);
            lemma_ceil_div_covers(self.tile_n as int, self.warp_n as int);
            assert(self.spec_warps_per_block() >= 1) by (nonlinear_arith)
                requires
                    ceil_div(self.tile_m as int, self.warp_m as int) >= 1,
                    ceil_div(self.tile_n as int, self.warp_n as int) >= 1,
                    self.spec_warps_per_block() == ceil_div(self.tile_m as int, self.warp_m as int)
                        * ceil_div(self.tile_n as int, self.warp_n as int),
            ;
        }
        self.warps_per_block() * 32
    }
}

/// Law: the thread count of a block is exactly 32 threads for each warp,
/// whatever the tile geometry.
pub proof fn lemma_threads_are_warps_times_warp_width(c: &TileConfig)
    ensures
        c.spec_threads_per_block() == c.spec_warps_per_block() * WARP_WIDTH,
{
}

} // verus!
