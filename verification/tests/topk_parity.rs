//! TopK parity: the heap-based partial sort gives the same output as the full
//! sort across a grid of shapes and seeds.

use saeitoshi::kernels::topk::{backend_name, dispatch, select_into, TopkFn};
use saeitoshi::kernels::{scalar, topk_heap};
use saeitoshi::sparsify::TopKScratch;

fn lcg_floats(n: usize, seed: u64, scale: f32) -> Vec<u32> {
    let mut state = seed.wrapping_mul(0x9E3779B97F4A7C15).wrapping_add(1);
    let mut out = Vec::with_capacity(n);
    for _ in 0..n {
        state = state
            .wrapping_mul(6364136223846793005)
            .wrapping_add(1442695040888963407);
        let raw = (state >> 40) as u32;
        let f = (raw as f32 / (1u32 << 24) as f32) * 2.0 - 1.0;
        out.push((f * scale).to_bits());
    }
    out
}

fn bits(v: &[f32]) -> Vec<u32> {
    v.iter().map(|x| x.to_bits()).collect()
}

fn check_parity(d_sae: usize, k: usize, seed: u64) {
    let scores = lcg_floats(d_sae, seed, 1.0);
    let mut scratch_heap = TopKScratch::new();
    let mut scratch_ref = TopKScratch::new();
    topk_heap::topk_select(&scores, k, &mut scratch_heap);
    scalar::topk_select(&scores, k, &mut scratch_ref);
    assert_eq!(
        scratch_heap.indexed, scratch_ref.indexed,
        "TopK parity (d_sae={d_sae}, k={k}, seed={seed})"
    );
}

#[test]
fn small_shapes_grid() {
    let shapes = [(8usize, 1), (8, 3), (16, 4), (64, 4), (256, 16), (256, 100)];
    for (d_sae, k) in shapes {
        for seed in 1u64..6 {
            check_parity(d_sae, k, seed);
        }
    }
}

#[test]
fn headline_shape() {
    for seed in 1u64..6 {
        check_parity(16_384, 32, seed);
    }
}

#[test]
fn k_equals_d_sae() {
    for &d_sae in &[1usize, 8, 32, 256, 1024] {
        for seed in 1u64..4 {
            check_parity(d_sae, d_sae, seed);
        }
    }
}

#[test]
fn k_one() {
    for &d_sae in &[1usize, 8, 256, 16_384] {
        for seed in 1u64..4 {
            check_parity(d_sae, 1, seed);
        }
    }
}

#[test]
fn ties_everywhere() {
    // Every score equal: pure tie-break, only ordering by index matters.
    let scores = bits(&vec![3.5_f32; 1024]);
    let mut heap = TopKScratch::new();
    let mut refs = TopKScratch::new();
    for &k in &[1usize, 8, 32, 100, 1024] {
        topk_heap::topk_select(&scores, k, &mut heap);
        scalar::topk_select(&scores, k, &mut refs);
        assert_eq!(heap.indexed, refs.indexed, "ties k={k}");
        // Sanity: must be exactly k lowest indices.
        let want: Vec<u32> = (0..k as u32).collect();
        let got: Vec<u32> = heap.indexed.iter().map(|&(i, _)| i).collect();
        assert_eq!(got, want, "ties k={k} indices");
    }
}

#[test]
fn partial_ties_at_boundary() {
    // Several scores tied at the cut: tie-break by index must keep the lowest
    // indices of the tied group.
    let scores = bits(&[5.0, 5.0, 5.0, 1.0, 1.0, 5.0, 5.0, 5.0]);
    let mut heap = TopKScratch::new();
    let mut refs = TopKScratch::new();
    topk_heap::topk_select(&scores, 3, &mut heap);
    scalar::topk_select(&scores, 3, &mut refs);
    assert_eq!(heap.indexed, refs.indexed);
    let got: Vec<u32> = heap.indexed.iter().map(|&(i, _)| i).collect();
    assert_eq!(got, vec![0, 1, 2]);
}

#[test]
fn dispatch_resolves_to_heap_by_default() {
    // Unset (or anything but "legacy"): heap path.
    assert_eq!(backend_name(None), "heap");
}

#[test]
fn dispatch_follows_the_setting() {
    assert_eq!(backend_name(Some("legacy")), "legacy");
    assert_eq!(backend_name(Some("LEGACY")), "heap");
    assert_eq!(backend_name(Some("")), "heap");
    assert_eq!(dispatch(Some("legacy")), TopkFn::Legacy);
    assert_eq!(dispatch(None), TopkFn::Heap);
}

#[test]
fn select_into_takes_either_path() {
    let scores = bits(&[2.0, 9.0, 4.0]);
    for choice in [TopkFn::Heap, TopkFn::Legacy] {
        let mut scratch = TopKScratch::new();
        select_into(choice, &scores, 2, &mut scratch);
        assert_eq!(scratch.indexed, vec![(1, 9.0f32.to_bits()), (2, 4.0f32.to_bits())]);
    }
}

#[test]
fn the_two_zeros_tie() {
    // -0.0 and 0.0 are equal numbers: the lower index wins, on either path.
    let scores = bits(&[-0.0, 0.0, -1.0]);
    for choice in [TopkFn::Heap, TopkFn::Legacy] {
        let mut scratch = TopKScratch::new();
        select_into(choice, &scores, 1, &mut scratch);
        assert_eq!(scratch.indexed, vec![(0, (-0.0f32).to_bits())]);
        select_into(choice, &scores, 2, &mut scratch);
        assert_eq!(scratch.indexed, vec![(0, (-0.0f32).to_bits()), (1, 0.0f32.to_bits())]);
    }
    let mut scratch = TopKScratch::new();
    topk_heap::topk_select(&bits(&[-2.0, 0.0, -0.0]), 1, &mut scratch);
    assert_eq!(scratch.indexed, vec![(1, 0.0f32.to_bits())]);
}
