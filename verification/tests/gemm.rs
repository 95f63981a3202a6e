use rust_gpu_gemm::kernels::gemm_kernel;
use rust_gpu_gemm::kernels::gemm_kernel_tiled;
use rust_gpu_gemm::oracle::first_mismatch;
use rust_gpu_gemm::oracle::gemm_mismatch;
use rust_gpu_gemm::oracle::reference_gemm;
use rust_gpu_gemm::oracle::gemm_mismatch_with_prior;
use rust_gpu_gemm::oracle::verify_gemm;
use rust_gpu_gemm::oracle::verify_gemm_with_prior;
use rust_gpu_gemm::tensor_defs::TileConfig;
use rust_gpu_gemm::wmma::gemm_kernel_wmma;

fn small_tiles() -> TileConfig {
    TileConfig { tile_m: 4, tile_n: 4, tile_k: 4, warp_m: 2, warp_n: 2, warp_k: 2 }
}

/// Deterministic, varied test data.
fn pattern(len: usize, seed: i64) -> Vec<i64> {
    let mut v = Vec::with_capacity(len);
    for i in 0..len {
        let x = i as i64;
        v.push((x * 7 + seed * 13) % 23 - 11);
    }
    v
}

#[test]
fn test_reference_gemm_exact_values() {
    // A = [[1,2],[3,4]], B = [[5,6],[7,8]], C = ones.
    // A*B = [[19,22],[43,50]]; 2*A*B + 3*C = [[41,47],[89,103]].
    let a = vec![1, 2, 3, 4];
    let b = vec![5, 6, 7, 8];
    let c = vec![1, 1, 1, 1];
    let out = reference_gemm(2, 2, 2, 2, &a, &b, 3, &c);
    assert_eq!(out, vec![41, 47, 89, 103]);
}

#[test]
fn test_gemm_kernel_matches_reference() {
    let (m, n, k) = (9, 11, 7);
    let a = pattern(m * k, 1);
    let b = pattern(k * n, 2);
    let c = pattern(m * n, 3);
    let reference = reference_gemm(m, n, k, 3, &a, &b, -2, &c);
    let out = gemm_kernel(m, n, k, 3, &a, &b, -2, &c);
    assert_eq!(out, reference);
}

#[test]
fn test_tiled_kernel_ragged_all_ones() {
    // Problem sizes that are not multiples of the 128 x 128 x 16 tiles:
    // with all-ones inputs, alpha = 1, beta = 0, every entry must be k.
    let (m, n, k) = (130, 70, 33);
    let a = vec![1i64; m * k];
    let b = vec![1i64; k * n];
    let c = vec![0i64; m * n];
    let out = gemm_kernel_tiled(m, n, k, 1, &a, &b, 0, &c, &TileConfig::ampere_default());
    assert_eq!(out.len(), m * n);
    for v in out.iter() {
        assert_eq!(*v, k as i64);
    }
    let reference = reference_gemm(m, n, k, 1, &a, &b, 0, &c);
    assert_eq!(out, reference);
}

#[test]
fn test_tiled_kernel_small_tiles() {
    let (m, n, k) = (7, 5, 9);
    let a = pattern(m * k, 4);
    let b = pattern(k * n, 5);
    let c = pattern(m * n, 6);
    let reference = reference_gemm(m, n, k, -1, &a, &b, 2, &c);
    let out = gemm_kernel_tiled(m, n, k, -1, &a, &b, 2, &c, &small_tiles());
    assert_eq!(out, reference);
}

#[test]
fn test_beta_zero_ignores_prior_c() {
    // With beta = 0, running on garbage C and on zeroed C must agree.
    let (m, n, k) = (10, 6, 5);
    let a = pattern(m * k, 7);
    let b = pattern(k * n, 8);
    let garbage = pattern(m * n, 99);
    let zeros = vec![0i64; m * n];
    let cfg = small_tiles();
    let out_garbage = gemm_kernel_tiled(m, n, k, 4, &a, &b, 0, &garbage, &cfg);
    let out_zeros = gemm_kernel_tiled(m, n, k, 4, &a, &b, 0, &zeros, &cfg);
    assert_eq!(out_garbage, out_zeros);
}

#[test]
fn test_accumulate_second_pass() {
    // First pass: C1 = A*B. Second pass with alpha = beta = 1 on C1:
    // C2 = C1 + A*B, entry for entry.
    let (m, n, k) = (6, 9, 4);
    let a = pattern(m * k, 10);
    let b = pattern(k * n, 11);
    let zeros = vec![0i64; m * n];
    let cfg = small_tiles();
    let c1 = gemm_kernel_tiled(m, n, k, 1, &a, &b, 0, &zeros, &cfg);
    let c2 = gemm_kernel_tiled(m, n, k, 1, &a, &b, 1, &c1, &cfg);
    let product = reference_gemm(m, n, k, 1, &a, &b, 0, &zeros);
    for i in 0..(m * n) {
        assert_eq!(c2[i], c1[i] + product[i]);
        assert_eq!(c2[i], 2 * product[i]);
    }
}

#[test]
fn test_wmma_matches_tiled() {
    // Cross-validation of the two kernel paths, on sizes that are ragged
    // with respect to the 64 x 64 block tile and the 16-wide chunks.
    let (m, n, k) = (70, 65, 21);
    let a = pattern(m * k, 12);
    let b = pattern(k * n, 13);
    let c = pattern(m * n, 14);
    let out_wmma = gemm_kernel_wmma(m, n, k, 3, &a, &b, 1, &c);
    let out_tiled = gemm_kernel_tiled(m, n, k, 3, &a, &b, 1, &c, &TileConfig::ampere_default());
    assert_eq!(out_wmma, out_tiled);
    let reference = reference_gemm(m, n, k, 3, &a, &b, 1, &c);
    assert_eq!(out_wmma, reference);
}

#[test]
fn test_wmma_beta_zero() {
    let (m, n, k) = (64, 64, 16);
    let a = pattern(m * k, 15);
    let b = pattern(k * n, 16);
    let garbage = pattern(m * n, 99);
    let zeros = vec![0i64; m * n];
    let out_garbage = gemm_kernel_wmma(m, n, k, 1, &a, &b, 0, &garbage);
    let out_zeros = gemm_kernel_wmma(m, n, k, 1, &a, &b, 0, &zeros);
    assert_eq!(out_garbage, out_zeros);
}

#[test]
fn test_zero_sized_dimensions() {
    let empty: Vec<i64> = Vec::new();
    let out = reference_gemm(0, 0, 0, 1, &empty, &empty, 1, &empty);
    assert!(out.is_empty());

    // k = 0: the product is empty, so the result is just beta * C.
    let c = vec![3, -4, 5, -6];
    let out = gemm_kernel_tiled(2, 2, 0, 7, &empty, &empty, 2, &c, &small_tiles());
    assert_eq!(out, vec![6, -8, 10, -12]);
}

#[test]
fn test_verify_gemm_accepts_exact_result() {
    let (m, n, k) = (5, 4, 3);
    let a = pattern(m * k, 17);
    let b = pattern(k * n, 18);
    let zeros = vec![0i64; m * n];
    let result = gemm_kernel(m, n, k, 2, &a, &b, 0, &zeros);
    // verify_gemm compares its C argument against the oracle built from the
    // same operands; with beta = 0 the prior C plays no role in the formula.
    assert!(verify_gemm(m, n, k, 2, &a, &b, 0, &result, 0));
}

#[test]
fn test_verify_gemm_reports_first_mismatch() {
    let (m, n, k) = (3, 3, 2);
    let a = pattern(m * k, 19);
    let b = pattern(k * n, 20);
    let zeros = vec![0i64; m * n];
    let mut result = gemm_kernel(m, n, k, 1, &a, &b, 0, &zeros);
    let good = result[4];
    result[4] += 10;
    assert!(!verify_gemm(m, n, k, 1, &a, &b, 0, &result, 3));
    let report = gemm_mismatch(m, n, k, 1, &a, &b, 0, &result, 3);
    assert_eq!(report, Some((4, good + 10, good)));
    // A tolerance that absorbs the perturbation accepts the result.
    assert!(verify_gemm(m, n, k, 1, &a, &b, 0, &result, 10));
}

#[test]
fn test_verify_gemm_with_prior_accumulation() {
    // With beta = 1 the oracle reads the pre-kernel C, which the kernel run
    // overwrites, so verification must receive that C separately.
    let (m, n, k) = (4, 5, 3);
    let a = pattern(m * k, 21);
    let b = pattern(k * n, 22);
    let c_prev = pattern(m * n, 23);
    let result = gemm_kernel_tiled(m, n, k, 2, &a, &b, 1, &c_prev, &small_tiles());
    assert!(verify_gemm_with_prior(m, n, k, 2, &a, &b, 1, &c_prev, &result, 0));
    assert_eq!(gemm_mismatch_with_prior(m, n, k, 2, &a, &b, 1, &c_prev, &result, 0), None);

    let mut wrong = result.clone();
    let good = wrong[7];
    wrong[7] += 5;
    assert!(!verify_gemm_with_prior(m, n, k, 2, &a, &b, 1, &c_prev, &wrong, 4));
    assert_eq!(
        gemm_mismatch_with_prior(m, n, k, 2, &a, &b, 1, &c_prev, &wrong, 4),
        Some((7, good + 5, good))
    );
}

#[test]
fn test_first_mismatch_within_tolerance() {
    let got = vec![10, 20, 28, 40];
    let want = vec![11, 19, 31, 40];
    assert_eq!(first_mismatch(&got, &want, 3), None);
    assert_eq!(first_mismatch(&got, &want, 2), Some((2, 28, 31)));
    assert_eq!(first_mismatch(&got, &want, 0), Some((0, 10, 11)));
}
