//! Heap-based TopK selection.

use saeitoshi::kernels::topk_heap::topk_select;
use saeitoshi::sparsify::TopKScratch;

fn bits(v: &[f32]) -> Vec<u32> {
    v.iter().map(|x| x.to_bits()).collect()
}

fn run(scores: &[f32], k: usize) -> Vec<(u32, f32)> {
    let mut scratch = TopKScratch::new();
    topk_select(&bits(scores), k, &mut scratch);
    scratch.indexed.iter().map(|&(i, v)| (i, f32::from_bits(v))).collect()
}

#[test]
fn empty_k_returns_empty() {
    let out = run(&[1.0, 2.0, 3.0], 0);
    assert!(out.is_empty());
}

#[test]
fn k_equals_n_returns_all_in_index_order() {
    let out = run(&[3.0, 1.0, 4.0, 1.5, 9.0, 2.0], 6);
    let idx: Vec<u32> = out.iter().map(|&(i, _)| i).collect();
    assert_eq!(idx, vec![0, 1, 2, 3, 4, 5]);
}

#[test]
fn k_greater_than_n_clamps_to_n() {
    let out = run(&[3.0, 1.0, 4.0], 10);
    assert_eq!(out.len(), 3);
}

#[test]
fn matches_brief_example() {
    // top-3 in [1, 5, 2, 4, 3, 0.5, 7, 6] is {1: 5.0, 6: 7.0, 7: 6.0}.
    let out = run(&[1.0, 5.0, 2.0, 4.0, 3.0, 0.5, 7.0, 6.0], 3);
    let idx: Vec<u32> = out.iter().map(|&(i, _)| i).collect();
    assert_eq!(idx, vec![1, 6, 7]);
}

#[test]
fn tie_break_lowest_indices_win() {
    // All equal -> pick the two lowest indices.
    let out = run(&[3.0, 3.0, 3.0, 3.0], 2);
    let idx: Vec<u32> = out.iter().map(|&(i, _)| i).collect();
    assert_eq!(idx, vec![0, 1]);
}

#[test]
fn matches_scalar_reference_on_random_input() {
    let mut scores: Vec<f32> = Vec::with_capacity(513);
    let mut state: u32 = 0xC0FFEE;
    for _ in 0..513 {
        state = state.wrapping_mul(1664525).wrapping_add(1013904223);
        let v = ((state >> 8) as f32) / ((1u32 << 24) as f32) * 2.0 - 1.0;
        scores.push(v);
    }
    let scores = bits(&scores);
    for &k in &[1usize, 3, 32, 100, 512] {
        let mut scratch_a = TopKScratch::new();
        let mut scratch_b = TopKScratch::new();
        topk_select(&scores, k, &mut scratch_a);
        saeitoshi::kernels::scalar::topk_select(&scores, k, &mut scratch_b);
        assert_eq!(scratch_a.indexed, scratch_b.indexed, "k={k}");
    }
}

#[test]
fn handles_negative_values_correctly() {
    let out = run(&[-1.0, -3.0, 2.0, -0.5, 5.0, -100.0, 0.0], 3);
    let idx: Vec<u32> = out.iter().map(|&(i, _)| i).collect();
    // Top-3: 5.0 (idx 4), 2.0 (idx 2), 0.0 (idx 6) -> index-asc [2, 4, 6].
    assert_eq!(idx, vec![2, 4, 6]);
}

#[test]
fn infinities_and_subnormals_are_ordered() {
    let tiny = f32::from_bits(1);
    let out = run(&[f32::NEG_INFINITY, tiny, f32::INFINITY, -tiny, 0.0], 3);
    assert_eq!(out, vec![(1, tiny), (2, f32::INFINITY), (4, 0.0)]);
}

#[test]
fn scratch_is_overwritten() {
    let mut scratch = TopKScratch::new();
    topk_select(&bits(&[1.0, 2.0, 3.0]), 2, &mut scratch);
    assert_eq!(scratch.indexed.len(), 2);
    topk_select(&bits(&[5.0, 4.0]), 1, &mut scratch);
    assert_eq!(scratch.indexed, vec![(0, 5.0f32.to_bits())]);
}
