//! Tiled-GEMM parity tests.
//!
//! For every tiled backend, run the encoder on randomly-generated weights and
//! inputs across a range of `d_in` / `d_sae` / `batch` sizes. Each backend must
//! agree with the scalar-tiled reference (same packed layout, scalar steps) to
//! within 1e-5 absolute error.

use rayon::iter::{IntoParallelIterator, ParallelIterator};
use rayon::ThreadPoolBuilder;

use saeitoshi::backends::{AVX2, AVX512, NEON, SCALAR};
use saeitoshi::bits::FloatOp;
use saeitoshi::kernels::encoder::encode_f32;
use saeitoshi::kernels::gemm::pack::panel_count;
use saeitoshi::kernels::gemm::tiled::{
    encode_from_blocks, encode_m_block, finish_tail, m_block_range, panels_per_m_block, store_m_block,
};
use saeitoshi::kernels::gemm::{pack::repack, DEFAULT_M_C, DEFAULT_M_R};
use saeitoshi::kernels::{backend_m_r, select_backend, Backend, CpuFeatures};
use saeitoshi::sae::{EncoderWeights, WeightLayout};

fn unit(op: FloatOp) -> u32 {
    let f = f32::from_bits;
    let r: f32 = match op {
        FloatOp::Add(a, b) => f(a) + f(b),
        FloatOp::Sub(a, b) => f(a) - f(b),
        FloatOp::Mul(a, b) => f(a) * f(b),
        FloatOp::Div(a, b) => f(a) / f(b),
        FloatOp::MulAdd(x, w, acc) => f(x).mul_add(f(w), f(acc)),
        FloatOp::Sqrt(a) => f(a).sqrt(),
        FloatOp::FromCount(n) => n as f32,
    };
    r.to_bits()
}

fn lcg_floats(n: usize, seed: u64, scale: f32) -> Vec<u32> {
    let mut state = seed.wrapping_mul(0x9E3779B97F4A7C15).wrapping_add(1);
    let mut out = Vec::with_capacity(n);
    for _ in 0..n {
        state = state
            .wrapping_mul(6364136223846793005)
            .wrapping_add(1442695040888963407);
        let raw = (state >> 40) as u32;
        let f = (raw as f32 / (1u32 << 24) as f32) * 2.0 - 1.0;
        out.push((f * scale).to_bits());
    }
    out
}

fn make_encoder(d_in: usize, d_sae: usize, seed: u64) -> EncoderWeights {
    EncoderWeights {
        w_enc: lcg_floats(d_sae * d_in, seed, 0.1),
        b_enc: lcg_floats(d_sae, seed.wrapping_add(1), 0.01),
        d_in,
        d_sae,
        layout: WeightLayout::RowMajor,
    }
}

fn make_packed_encoder(d_in: usize, d_sae: usize, seed: u64, m_r: usize) -> EncoderWeights {
    let mut enc = make_encoder(d_in, d_sae, seed);
    repack(&mut enc, m_r);
    enc
}

fn run_backend(backend: Backend, x: &[u32], enc: &EncoderWeights, batch: usize) -> Vec<u32> {
    let mut out = vec![0u32; batch * enc.d_sae];
    encode_f32(backend, x, enc, &mut out, batch, DEFAULT_M_C, &unit);
    out
}

fn max_error(a: &[u32], b: &[u32]) -> f32 {
    assert_eq!(a.len(), b.len());
    a.iter()
        .zip(b.iter())
        .map(|(a, b)| (f32::from_bits(*a) - f32::from_bits(*b)).abs())
        .fold(0.0f32, f32::max)
}

fn check_tiled_parity(
    name: &str,
    backend: Backend,
    d_in: usize,
    d_sae: usize,
    batch: usize,
    seed: u64,
) {
    let packed_enc = make_packed_encoder(d_in, d_sae, seed, DEFAULT_M_R);
    let x = lcg_floats(batch * d_in, seed.wrapping_add(100), 1.0);
    let baseline = run_backend(SCALAR, &x, &packed_enc, batch);
    let candidate = run_backend(backend, &x, &packed_enc, batch);
    let max_err = max_error(&baseline, &candidate);
    assert!(
        max_err < 1e-5,
        "{name} parity (d_in={d_in}, d_sae={d_sae}, batch={batch}, seed={seed}, m_r={}): \
         max abs error {max_err}",
        DEFAULT_M_R,
    );
}

fn check_tiled_simd_across_sizes(name: &str, backend: Backend) {
    // Standard grid plus a wider d_in to stress the K loop, and batch
    // values that exercise both full N_R tiles and partial-batch tails.
    let sizes = [
        (4usize, 16),
        (7, 16),
        (8, 32),
        (16, 32),
        (33, 64),
        (64, 128),
        (128, 256),
        (256, 512),
        (1024, 2048),
        (513, 96), // odd d_in + d_sae with partial trailing panel
    ];
    for (i, &(d_in, d_sae)) in sizes.iter().enumerate() {
        // Batch 1 / 5 / 6 / 12 / 13 covers below, partial, exact, exact, and
        // partial fills of both N_R=6 (AVX2) and N_R=12 (AVX-512) tiles.
        for &batch in &[1usize, 5, 6, 12, 13] {
            check_tiled_parity(name, backend, d_in, d_sae, batch, 300 + i as u64);
        }
    }
}

#[test]
fn auto_selected_backend_matches_scalar_tiled() {
    let backend = select_backend(CpuFeatures { avx512f: false, avx2: true, fma: true, neon: false });
    println!("auto-selected backend: {}", backend.name());
    check_tiled_simd_across_sizes(backend.name(), backend);
}

#[test]
fn scalar_tiled_self_parity_standard_sizes() {
    // Sanity: scalar-tiled against itself is bit-exact. Same shape grid
    // we use for the SIMD variants, including odd d_in (scalar tail) and
    // d_sae values that span partial trailing panels.
    let sizes = [
        (4usize, 16),
        (7, 16),
        (8, 32),
        (16, 32),
        (33, 64),
        (64, 128),
        (128, 256),
        (256, 512),
        (1024, 2048),
        (513, 96),
    ];
    for (i, &(d_in, d_sae)) in sizes.iter().enumerate() {
        for &batch in &[1usize, 5, 6, 12, 13] {
            check_tiled_parity("scalar_tiled", SCALAR, d_in, d_sae, batch, 200 + i as u64);
        }
    }
}

#[test]
fn avx2_tiled_parity_with_scalar() {
    check_tiled_simd_across_sizes("avx2_tiled", AVX2);
}

#[test]
fn avx512_tiled_parity_with_scalar() {
    check_tiled_simd_across_sizes("avx512_tiled", AVX512);
}

/// The tiled encoder with its M-blocks computed by the threads of the current
/// pool.
fn run_parallel(backend: Backend, x: &[u32], enc: &EncoderWeights, batch: usize, m_c: usize) -> Vec<u32> {
    let mut out = vec![0u32; batch * enc.d_sae];
    let m_r = DEFAULT_M_R;
    let n_full = enc.d_sae / m_r;
    let per_block = panels_per_m_block(m_c, m_r);
    let n_blocks = panel_count(n_full, per_block);
    let n_r = backend.tile_rows();
    let mut blocks: Vec<(usize, Vec<Vec<u32>>)> = (0..n_blocks)
        .into_par_iter()
        .map(|m_block| (m_block, encode_m_block(m_block, per_block, x, enc, batch, m_r, n_r, &unit)))
        .collect();
    encode_from_blocks(&blocks, per_block, x, enc, &mut out, batch, m_r, n_r, &unit);
    // The order of the blocks does not show.
    let mut again = vec![1u32; out.len()];
    blocks.reverse();
    blocks.swap(0, n_blocks / 2);
    encode_from_blocks(&blocks, per_block, x, enc, &mut again, batch, m_r, n_r, &unit);
    assert_eq!(out, again);
    // Nor does it when the blocks are stored by hand.
    again.fill(2);
    for (m_block, tiles) in &blocks {
        let (start, _) = m_block_range(*m_block, per_block, n_full);
        store_m_block(tiles, start, &mut again, batch, enc.d_sae, m_r);
    }
    finish_tail(x, enc, &mut again, batch, m_r, n_r, &unit);
    assert_eq!(out, again);
    out
}

#[test]
fn avx2_tiled_parity_across_thread_counts() {
    // Shape large enough to span multiple M-blocks (M_C = 512, m_r = 16 →
    // 32 panels per M-block, so d_sae = 2048 → 4 M-blocks; 24 threads
    // exercises work-stealing on the trailing tasks).
    let d_in = 256usize;
    let d_sae = 2048usize;
    let batch = 12usize;

    for &num_threads in &[1usize, 2, 4, 24] {
        let pool = ThreadPoolBuilder::new()
            .num_threads(num_threads)
            .build()
            .expect("rayon pool build");

        pool.install(|| {
            let seed = 7777 + num_threads as u64;
            let enc = make_packed_encoder(d_in, d_sae, seed, DEFAULT_M_R);
            let x = lcg_floats(batch * d_in, seed.wrapping_add(100), 1.0);
            let baseline = run_backend(SCALAR, &x, &enc, batch);
            let candidate = run_parallel(AVX2, &x, &enc, batch, DEFAULT_M_C);
            let max_err = max_error(&baseline, &candidate);
            assert!(max_err < 1e-5, "avx2_tiled[threads={num_threads}]: {max_err}");
            // The partition into blocks does not show in the bits.
            assert_eq!(candidate, run_backend(AVX2, &x, &enc, batch));
            assert_eq!(candidate, run_parallel(AVX2, &x, &enc, batch, 48));
        });
    }
}

#[test]
fn scalar_tiled_parity_awkward_d_in() {
    // Stress tail handling and packing-padded panels.
    let awkward_d_ins = [1usize, 7, 511, 513, 1023, 1024, 1025, 2049];
    for (i, &d_in) in awkward_d_ins.iter().enumerate() {
        // Pick d_sae values that exercise partial trailing panels at m_r=16:
        //   17 → panel0 full, panel1 = 1 used + 15 padded
        //   31 → panel0 full, panel1 = 15 used + 1 padded
        //   32 → panel0 full, panel1 full (no padding)
        for &d_sae in &[17usize, 31, 32, 64] {
            check_tiled_parity("scalar_tiled", SCALAR, d_in, d_sae, 2, 200 + i as u64);
        }
    }
}

#[test]
fn packed_scalar_is_bit_exact_with_row_major_scalar() {
    for (d_in, d_sae, batch) in [(13usize, 35usize, 3usize), (1, 1, 1), (5, 16, 2), (0, 3, 2), (4, 0, 2)] {
        let enc = make_encoder(d_in, d_sae, 5);
        let packed = make_packed_encoder(d_in, d_sae, 5, DEFAULT_M_R);
        let x = lcg_floats(batch * d_in, 6, 1.0);
        assert_eq!(run_backend(SCALAR, &x, &enc, batch), run_backend(SCALAR, &x, &packed, batch));
    }
}

#[test]
fn panel_widths_give_the_same_scalar_bits() {
    let (d_in, d_sae, batch) = (13usize, 35usize, 3usize);
    let x = lcg_floats(batch * d_in, 6, 1.0);
    let at = |m_r| run_backend(SCALAR, &x, &make_packed_encoder(d_in, d_sae, 5, m_r), batch);
    for m_r in [1usize, 3, 8, 35, 64] {
        assert_eq!(at(m_r), at(DEFAULT_M_R));
    }
}

#[test]
fn vector_backends_run_over_row_major_weights() {
    let (d_in, d_sae, batch) = (37usize, 9usize, 4usize);
    let enc = make_encoder(d_in, d_sae, 11);
    let x = lcg_floats(batch * d_in, 12, 1.0);
    let baseline = run_backend(SCALAR, &x, &enc, batch);
    for backend in [AVX2, AVX512, NEON] {
        assert!(max_error(&baseline, &run_backend(backend, &x, &enc, batch)) < 1e-5);
    }
}

/// One feature over one row, with one input past the last whole vector: fused lane
/// sums, then their sum by `add`, then the tail, then the bias.
fn check_lanes(backend: Backend, n: usize, add: fn(&[f32]) -> f32) {
    let x = lcg_floats(n + 1, 3, 2.0);
    let w = lcg_floats(n + 1, 4, 2.0);
    let f = f32::from_bits;
    let lanes: Vec<f32> = (0..n).map(|l| f(x[l]).mul_add(f(w[l]), 0.0)).collect();
    let want = (add(&lanes) + f(x[n]) * f(w[n])) + 0.5;
    let enc = EncoderWeights {
        w_enc: w,
        b_enc: vec![0.5f32.to_bits()],
        d_in: n + 1,
        d_sae: 1,
        layout: WeightLayout::RowMajor,
    };
    assert_eq!(run_backend(backend, &x, &enc, 1), vec![want.to_bits()]);
}

#[test]
fn lanes_sum_as_the_instruction_set_does() {
    check_lanes(AVX2, 8, |v| v[1..].iter().fold(v[0], |s, l| s + l));
    check_lanes(AVX512, 16, |v| {
        let v: Vec<f32> = (0..8).map(|i| v[i] + v[i + 8]).collect();
        let v: Vec<f32> = (0..4).map(|i| v[i] + v[i + 4]).collect();
        (v[0] + v[2]) + (v[1] + v[3])
    });
    check_lanes(NEON, 4, |v| (v[0] + v[1]) + (v[2] + v[3]));
}

#[test]
fn backend_choice_and_names() {
    let none = CpuFeatures { avx512f: false, avx2: false, fma: false, neon: false };
    assert_eq!(select_backend(none), SCALAR);
    assert_eq!(select_backend(CpuFeatures { avx2: true, ..none }), SCALAR);
    assert_eq!(select_backend(CpuFeatures { avx2: true, fma: true, ..none }), AVX2);
    assert_eq!(select_backend(CpuFeatures { avx512f: true, avx2: true, fma: true, ..none }), AVX512);
    assert_eq!(select_backend(CpuFeatures { neon: true, ..none }), NEON);
    assert_eq!(SCALAR.name(), "scalar_tiled");
    assert_eq!(AVX2.name(), "avx2_tiled");
    assert_eq!(AVX512.name(), "avx512_tiled");
    assert_eq!(NEON.name(), "neon_tiled");
    assert_eq!(backend_m_r(AVX2), Some(16));
}
