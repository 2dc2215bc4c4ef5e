//! SAE configuration types.
//!
//! [`SaeConfig`] is the decoded form of `cfg.json` (SAELens) or the equivalent
//! config in EleutherAI sparsify or in a `.sit` header.

use vstd::prelude::*;

verus! {

/// Sparsification architecture.
#[derive(Debug, Clone, Copy, PartialEq, Eq, Hash, Structural)]
pub enum Architecture {
    /// Plain ReLU + L1 sparsity penalty (the original SAE).
    Standard,
    /// TopK selection over pre-activations (OpenAI / Gao et al. 2024).
    Topk,
    /// JumpReLU with per-feature thresholds (DeepMind / Rajamanoharan et al. 2024).
    Jumprelu,
    /// BatchTopK (Bussmann et al. 2024). Deploys as JumpReLU.
    BatchTopk,
    /// Gated SAE (factored gate × magnitude path).
    Gated,
}

/// On-disk activation-normalization mode applied before the encoder matmul.
#[derive(Debug, Clone, Copy, PartialEq, Eq, Hash, Structural)]
pub enum NormalizeMode {
    /// No normalization.
    Off,
    ExpectedAverageOnlyIn,
    ConstantNormRescale,
    LayerNorm,
}

impl Default for NormalizeMode {
    fn default() -> (res: Self)
        ensures
            res == NormalizeMode::Off,
    {
        NormalizeMode::Off
    }
}

/// Storage dtype for weight matrices.
#[derive(Debug, Clone, Copy, PartialEq, Eq, Hash, Structural)]
pub enum WeightDtype {
    F32,
    F16,
    Bf16,
    I8,
}

impl Default for WeightDtype {
    fn default() -> (res: Self)
        ensures
            res == WeightDtype::F32,
    {
        WeightDtype::F32
    }
}

/// The full SAE configuration, normalized across loader formats.
#[derive(Debug, Clone, Copy, PartialEq, Eq, Structural)]
pub struct SaeConfig {
    pub architecture: Architecture,
    pub d_in: usize,
    pub d_sae: usize,
    pub weight_dtype: WeightDtype,
    /// Subtract `b_dec` from `x` before the encoder matmul.
    pub apply_b_dec_to_input: bool,
    pub normalize_activations: NormalizeMode,
    /// For TopK: the k. Ignored for other architectures.
    pub k: Option<usize>,
    /// For TopK: rescale pre-activations by the per-feature decoder norms,
    /// baked in at load time.
    pub rescale_by_decoder_norm: bool,
}

/// The value of `apply_b_dec_to_input` where a config leaves it out.
pub fn default_true() -> (res: bool)
    ensures
        res,
{
    true
}

impl SaeConfig {
    /// Minimal config for construction from explicit fields.
    pub fn new(architecture: Architecture, d_in: usize, d_sae: usize) -> (res: Self)
        ensures
            res == (SaeConfig {
                architecture,
                d_in,
                d_sae,
                weight_dtype: WeightDtype::F32,
                apply_b_dec_to_input: true,
                normalize_activations: NormalizeMode::Off,
                k: None,
                rescale_by_decoder_norm: false,
            }),
    {
        SaeConfig {
            architecture,
            d_in,
            d_sae,
            weight_dtype: WeightDtype::F32,
            apply_b_dec_to_input: true,
            normalize_activations: NormalizeMode::Off,
            k: None,
            rescale_by_decoder_norm: false,
        }
    }
}

} // verus!
