use rust_gpu_gemm::geometry::calculate_block_size;
use rust_gpu_gemm::geometry::grid_dims;
use rust_gpu_gemm::tensor_defs::TensorLayout;
use rust_gpu_gemm::tensor_defs::TensorShape;
use rust_gpu_gemm::tensor_defs::TileConfig;
use rust_gpu_gemm::wmma::fragment_coords;
use rust_gpu_gemm::wmma::fragment_owner;

#[test]
fn test_tensor_shape() {
    let shape = TensorShape::new(10, 20);
    assert_eq!(shape.rows, 10);
    assert_eq!(shape.cols, 20);
    assert_eq!(shape.size(), 200);
    assert!(shape.is_valid());
}

#[test]
fn test_row_major_layout() {
    let layout = TensorLayout::row_major(4, 3);
    assert_eq!(layout.index(0, 0), 0);
    assert_eq!(layout.index(0, 1), 1);
    assert_eq!(layout.index(1, 0), 3);
    assert_eq!(layout.index(1, 1), 4);
}

#[test]
fn test_column_major_layout() {
    let layout = TensorLayout::column_major(4, 3);
    assert_eq!(layout.index(0, 0), 0);
    assert_eq!(layout.index(1, 0), 1);
    assert_eq!(layout.index(0, 1), 4);
    assert_eq!(layout.index(1, 1), 5);
}

#[test]
fn test_gemm_compatibility() {
    let a = TensorLayout::row_major(10, 20);
    let b = TensorLayout::row_major(20, 30);
    let c = TensorLayout::row_major(10, 30);

    assert!(TensorLayout::is_gemm_compatible(&a, &b, &c));
}

#[test]
fn test_gemm_incompatible_inner_dim() {
    let a = TensorLayout::row_major(10, 20);
    let b = TensorLayout::row_major(21, 30);
    let c = TensorLayout::row_major(10, 30);

    assert!(!TensorLayout::is_gemm_compatible(&a, &b, &c));
}

#[test]
fn test_tile_config() {
    let config = TileConfig::ampere_default();
    assert_eq!(config.tile_m, 128);
    assert_eq!(config.tile_n, 128);
    assert!(config.threads_per_block() > 0);
}

#[test]
fn test_tile_config_warp_counts() {
    // 128/32 x 128/32 warps, 32 threads each.
    let config = TileConfig::ampere_default();
    assert_eq!(config.warps_per_block(), 16);
    assert_eq!(config.threads_per_block(), 512);
    assert_eq!(config.threads_per_block(), config.warps_per_block() * 32);

    let hopper = TileConfig::hopper_default();
    assert_eq!(hopper.warps_per_block(), 8);
    assert_eq!(hopper.threads_per_block(), 256);
    assert_eq!(hopper.threads_per_block(), hopper.warps_per_block() * 32);
}

#[test]
fn test_tile_config_ragged_warps() {
    // Warp sub-tiles that do not divide the block tile are rounded up.
    let config = TileConfig { tile_m: 100, tile_n: 70, tile_k: 8, warp_m: 32, warp_n: 32, warp_k: 8 };
    assert_eq!(config.warps_per_block(), 4 * 3);
    assert_eq!(config.threads_per_block(), 12 * 32);
}

#[test]
fn test_tiled_layout_index() {
    // 4 x 6 matrix in 2 x 3 tiles: two tiles per tile-row, tiles of 6 elements.
    let layout = TensorLayout::tiled(4, 6, 2, 3);
    assert_eq!(layout.index(0, 0), 0);
    assert_eq!(layout.index(1, 2), 5);
    assert_eq!(layout.index(0, 3), 6);
    assert_eq!(layout.index(2, 0), 12);
    assert_eq!(layout.index(2, 3), 18);
    assert_eq!(layout.index(3, 5), 23);
}

#[test]
fn test_strides() {
    let rm = TensorLayout::row_major(4, 3);
    assert_eq!(rm.row_stride(), 3);
    assert_eq!(rm.col_stride(), 1);

    let cm = TensorLayout::column_major(4, 3);
    assert_eq!(cm.row_stride(), 1);
    assert_eq!(cm.col_stride(), 4);

    // Inside a tile, one row step skips a tile row (tile_n elements) and
    // one column step moves to the adjacent element.
    let tl = TensorLayout::tiled(4, 6, 2, 3);
    assert_eq!(tl.row_stride(), 3);
    assert_eq!(tl.col_stride(), 1);
}

#[test]
fn test_stride_step_consistency() {
    // A unit step along either dimension moves the offset by the stride
    // (within one tile, for the tiled layout).
    let rm = TensorLayout::row_major(4, 3);
    assert_eq!(rm.index(2, 1) - rm.index(1, 1), rm.row_stride());
    assert_eq!(rm.index(1, 2) - rm.index(1, 1), rm.col_stride());

    let cm = TensorLayout::column_major(4, 3);
    assert_eq!(cm.index(2, 1) - cm.index(1, 1), cm.row_stride());
    assert_eq!(cm.index(1, 2) - cm.index(1, 1), cm.col_stride());

    let tl = TensorLayout::tiled(4, 6, 2, 3);
    assert_eq!(tl.index(1, 0) - tl.index(0, 0), tl.row_stride());
    assert_eq!(tl.index(0, 1) - tl.index(0, 0), tl.col_stride());
    assert_eq!(tl.index(3, 4) - tl.index(2, 4), tl.row_stride());
    assert_eq!(tl.index(2, 5) - tl.index(2, 4), tl.col_stride());
}

#[test]
fn test_hopper_default_fields() {
    let config = TileConfig::hopper_default();
    assert_eq!(config.tile_m, 256);
    assert_eq!(config.tile_n, 128);
    assert_eq!(config.tile_k, 64);
    assert_eq!(config.warp_m, 64);
    assert_eq!(config.warp_n, 64);
    assert_eq!(config.warp_k, 16);
}

#[test]
fn test_calculate_block_size_thresholds() {
    assert_eq!(calculate_block_size(1024), (32, 32, 1));
    assert_eq!(calculate_block_size(2048), (32, 32, 1));
    assert_eq!(calculate_block_size(1023), (16, 16, 1));
    assert_eq!(calculate_block_size(512), (16, 16, 1));
    assert_eq!(calculate_block_size(256), (16, 16, 1));
    assert_eq!(calculate_block_size(255), (8, 8, 1));
    assert_eq!(calculate_block_size(64), (8, 8, 1));
    assert_eq!(calculate_block_size(63), (4, 4, 1));
    assert_eq!(calculate_block_size(16), (4, 4, 1));
    assert_eq!(calculate_block_size(15), (2, 2, 1));
    assert_eq!(calculate_block_size(4), (2, 2, 1));
    assert_eq!(calculate_block_size(3), (1, 1, 1));
    assert_eq!(calculate_block_size(1), (1, 1, 1));
}

#[test]
fn test_calculate_block_size_fits_device() {
    // The derived block never asks for more threads than the device limit.
    for limit in 1..2100 {
        let (x, y, z) = calculate_block_size(limit);
        assert!(x * y * z <= limit);
    }
}

#[test]
fn test_grid_dims_cover() {
    // grid_x covers n with block_x, grid_y covers m with block_y.
    assert_eq!(grid_dims(100, 50, 16, 16), (4, 7));
    assert_eq!(grid_dims(1024, 1024, 32, 32), (32, 32));
    assert_eq!(grid_dims(1, 1, 32, 32), (1, 1));
    assert_eq!(grid_dims(0, 0, 16, 16), (0, 0));
}

#[test]
fn test_fragment_mapping_roundtrip() {
    for lane in 0..32 {
        for slot in 0..8 {
            let (r, c) = fragment_coords(lane, slot);
            assert!(r < 16 && c < 16);
            assert_eq!(fragment_owner(r, c), (lane, slot));
        }
    }
}

#[test]
fn test_fragment_mapping_covers_tile_once() {
    let mut hits = [[0u32; 16]; 16];
    for lane in 0..32 {
        for slot in 0..8 {
            let (r, c) = fragment_coords(lane, slot);
            hits[r][c] += 1;
        }
    }
    for row in hits.iter() {
        for count in row.iter() {
            assert_eq!(*count, 1);
        }
    }
}
