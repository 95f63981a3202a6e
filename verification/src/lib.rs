//! Verified model of a tiled GEMM subsystem: C = alpha * A * B + beta * C.
//!
//! The library describes how a dense matrix multiply is laid out in memory,
//! partitioned across a grid of thread blocks, staged through block-shared
//! scratch tiles, and accumulated per warp through distributed fragments.
//! Every kernel here is a sequential, exact-arithmetic model of the parallel
//! execution, proved equal to the reference oracle; the floating-point device
//! path that drives real hardware lives outside the verified library.

pub mod arith;
pub mod gemm_spec;
pub mod geometry;
pub mod kernels;
pub mod oracle;
pub mod tensor_defs;
pub mod wmma;

pub use tensor_defs::MemoryLayout;
pub use tensor_defs::TensorLayout;
pub use tensor_defs::TensorShape;
pub use tensor_defs::TileConfig;
