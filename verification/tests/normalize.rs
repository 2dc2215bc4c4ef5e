//! Activation normalization.

use saeitoshi::bits::FloatOp;
use saeitoshi::config::NormalizeMode;
use saeitoshi::normalize::{apply_in_place, l2_norm, LAYER_NORM_EPS};

fn unit(op: FloatOp) -> u32 {
    let f = f32::from_bits;
    let r: f32 = match op {
        FloatOp::Add(a, b) => f(a) + f(b),
        FloatOp::Sub(a, b) => f(a) - f(b),
        FloatOp::Mul(a, b) => f(a) * f(b),
        FloatOp::Div(a, b) => f(a) / f(b),
        FloatOp::MulAdd(x, w, acc) => f(x).mul_add(f(w), f(acc)),
        FloatOp::Sqrt(a) => f(a).sqrt(),
        FloatOp::FromCount(n) => n as f32,
    };
    r.to_bits()
}

fn normalized(mode: NormalizeMode, x: &[f32], batch: usize, d_in: usize) -> Vec<f32> {
    let mut y: Vec<u32> = x.iter().map(|v| v.to_bits()).collect();
    apply_in_place(mode, &mut y, batch, d_in, &unit);
    y.into_iter().map(f32::from_bits).collect()
}

#[test]
fn none_is_noop() {
    let orig = vec![1.0, 2.0, 3.0, 4.0];
    let x = normalized(NormalizeMode::Off, &orig, 1, 4);
    assert_eq!(x, orig);
}

#[test]
fn expected_average_only_in_subtracts_row_mean() {
    let x = normalized(NormalizeMode::ExpectedAverageOnlyIn, &[1.0, 2.0, 3.0, 4.0], 1, 4);
    let mean: f32 = (1.0 + 2.0 + 3.0 + 4.0) / 4.0;
    assert!((x[0] - (1.0 - mean)).abs() < 1e-6);
    assert!((x[3] - (4.0 - mean)).abs() < 1e-6);
    // Post-norm row sums to ~0.
    assert!(x.iter().sum::<f32>().abs() < 1e-5);
}

#[test]
fn constant_norm_rescale_targets_sqrt_d_in() {
    let d_in = 4usize;
    let x = normalized(NormalizeMode::ConstantNormRescale, &[1.0, 2.0, 2.0, 4.0], 1, d_in);
    let new_norm: f32 = x.iter().map(|v| v * v).sum::<f32>().sqrt();
    let target = (d_in as f32).sqrt();
    assert!((new_norm - target).abs() < 1e-5, "{new_norm} vs {target}");
}

#[test]
fn layer_norm_normalizes_to_unit_variance() {
    let x = normalized(NormalizeMode::LayerNorm, &[1.0, 2.0, 3.0, 4.0, 5.0], 1, 5);
    let mean: f32 = x.iter().sum::<f32>() / 5.0;
    let var: f32 = x.iter().map(|v| (v - mean) * (v - mean)).sum::<f32>() / 5.0;
    assert!(mean.abs() < 1e-5);
    // Variance is < 1.0 because of the epsilon; just check it's close.
    assert!((var - 1.0).abs() < 1e-3);
}

#[test]
fn batched_rows_are_independent() {
    let x = normalized(
        NormalizeMode::ExpectedAverageOnlyIn,
        &[1.0, 2.0, 3.0, 4.0, 100.0, 200.0, 300.0, 400.0],
        2,
        4,
    );
    // Each row should sum to ~0.
    assert!(x[..4].iter().sum::<f32>().abs() < 1e-4);
    assert!(x[4..].iter().sum::<f32>().abs() < 1e-3);
}

#[test]
fn exact_values_of_each_mode() {
    let row = [1.0f32, 2.0, 2.0, 4.0];
    assert_eq!(
        normalized(NormalizeMode::ExpectedAverageOnlyIn, &row, 1, 4),
        vec![-1.25, -0.25, -0.25, 1.75]
    );
    // The norm is 5, the target is 2.
    let scale = 2.0f32 / 5.0;
    assert_eq!(
        normalized(NormalizeMode::ConstantNormRescale, &row, 1, 4),
        row.map(|v| v * scale).to_vec()
    );
    let mean = 2.25f32;
    let var = row.iter().fold(0.0f32, |s, v| s + (v - mean) * (v - mean)) / 4.0;
    let inv = 1.0 / (var + 1e-5).sqrt();
    assert_eq!(
        normalized(NormalizeMode::LayerNorm, &row, 1, 4),
        row.map(|v| (v - mean) * inv).to_vec()
    );
}

#[test]
fn a_zero_row_is_not_rescaled() {
    assert_eq!(
        normalized(NormalizeMode::ConstantNormRescale, &[0.0, 0.0, 3.0, 4.0], 2, 2),
        vec![0.0, 0.0, 3.0 * (2.0f32.sqrt() / 5.0), 4.0 * (2.0f32.sqrt() / 5.0)]
    );
}

#[test]
fn a_row_normalizes_alike_in_any_batch() {
    let a = [0.3f32, -1.5, 2.25];
    let b = [9.0f32, 0.125, -7.0];
    for mode in [
        NormalizeMode::ExpectedAverageOnlyIn,
        NormalizeMode::ConstantNormRescale,
        NormalizeMode::LayerNorm,
    ] {
        let both = normalized(mode, &[a, b].concat(), 2, 3);
        assert_eq!(both[..3], normalized(mode, &a, 1, 3)[..]);
        assert_eq!(both[3..], normalized(mode, &b, 1, 3)[..]);
    }
}

#[test]
fn constants_are_the_numbers_they_name() {
    assert_eq!(f32::from_bits(LAYER_NORM_EPS), 1e-5);
    assert_eq!(f32::from_bits(l2_norm(&[3.0f32.to_bits(), 4.0f32.to_bits()], &unit)), 5.0);
}
