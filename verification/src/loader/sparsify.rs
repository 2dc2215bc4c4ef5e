//! EleutherAI `sparsify` loader.
//!
//! Format:
//! ```text
//! <dir>/
//!   cfg.json              # {d_in, expansion_factor, k, ...}
//!   sae.safetensors       # encoder.weight, encoder.bias, W_dec, b_dec
//! ```
//!
//! Differences from SAELens that the loader handles:
//! - `expansion_factor` instead of `d_sae`.
//! - Tensor names `encoder.weight` / `encoder.bias` (vs `W_enc` / `b_enc`).
//! - Always TopK with `k` from config.
//! - The decoder bias is always subtracted from the input.

use vstd::prelude::*;

use crate::config::{Architecture, NormalizeMode, SaeConfig, WeightDtype};
use crate::error::{ErrorView, SaeError};
use crate::io::safetensors::{
    archive, f32_tensor, holds_tensor, parse, read_f32_tensor, SafetensorsFile, StoredView,
};
use crate::kernels::Backend;
use crate::loader::{
    build, gather, has_weights, or_else, read_either, weights_of, Tensors, TensorsView, Weights,
};
use crate::sae::Sae;
use crate::sparsify::Sparsifier;

verus! {

/// The fields of `cfg.json` that the loader reads. Extra fields are ignored.
#[derive(Debug)]
pub struct RawCfg {
    pub d_in: usize,
    pub expansion_factor: usize,
    /// TopK k.
    pub k: usize,
    /// Whether features can be negative.
    pub signed: bool,
}

/// The configuration that a `cfg.json` stands for.
pub open spec fn config_of(raw: RawCfg) -> SaeConfig {
    SaeConfig {
        architecture: Architecture::Topk,
        d_in: raw.d_in,
        d_sae: (raw.d_in * raw.expansion_factor) as usize,
        weight_dtype: WeightDtype::F32,
        apply_b_dec_to_input: true,
        normalize_activations: NormalizeMode::Off,
        k: Some(raw.k),
        rescale_by_decoder_norm: false,
    }
}

/// What keeps a checkpoint from being put together, if anything does.
pub open spec fn assemble_error(raw: RawCfg, tensors: TensorsView) -> Option<ErrorView> {
    match weights_of(tensors, true, "encoder.weight"@, "encoder.bias"@, config_of(raw)) {
        Err(e) => Some(e),
        Ok(_) => None,
    }
}

/// `sae` is what a checkpoint holds.
pub open spec fn assembles(raw: RawCfg, tensors: TensorsView, sae: Sae) -> bool {
    let cfg = config_of(raw);
    &&& sae.wf()
    &&& sae.cfg == cfg
    &&& has_weights(
        sae,
        weights_of(tensors, true, "encoder.weight"@, "encoder.bias"@, cfg)->Ok_0,
    )
    &&& sae.sparsifier == (Sparsifier::TopK {
        k: raw.k as u32,
        post_relu: !raw.signed,
        rescale: None,
    })
}

/// The weight tensors that a sparsify file holds. The encoder's tensors may have
/// the SAELens names.
pub open spec fn tensors_of(file: Map<Seq<char>, StoredView>) -> TensorsView {
    TensorsView {
        w_enc: or_else(f32_tensor(file, "encoder.weight"@), f32_tensor(file, "W_enc"@)),
        b_enc: or_else(f32_tensor(file, "encoder.bias"@), f32_tensor(file, "b_enc"@)),
        w_dec: f32_tensor(file, "W_dec"@),
        b_dec: f32_tensor(file, "b_dec"@),
    }
}

/// What keeps a checkpoint from loading, if anything does.
pub open spec fn load_error(raw: RawCfg, weights: Seq<u8>) -> Option<ErrorView> {
    match archive(weights) {
        None => Some(ErrorView::Safetensors),
        Some(file) => assemble_error(raw, tensors_of(file)),
    }
}

/// The bytes of a weights file are those of a sparsify checkpoint: the encoder's
/// matrix has its sparsify name, and no tensor has the SAELens name.
pub open spec fn is_sparsify(weights: Seq<u8>) -> bool {
    &&& archive(weights) matches Some(file)
    &&& file.contains_key("encoder.weight"@)
    &&& !file.contains_key("W_enc"@)
}

/// Whether the bytes of a weights file are those of a sparsify checkpoint.
pub fn recognizes(weights: &[u8]) -> (res: bool)
    ensures
        res == is_sparsify(weights@),
        res <==> (archive(weights@) matches Some(file) && file.contains_key("encoder.weight"@)
            && !file.contains_key("W_enc"@)),
{
    match parse(weights) {
        Ok(st) => holds_tensor(&st, "encoder.weight") && !holds_tensor(&st, "W_enc"),
        Err(_) => false,
    }
}

/// The weights file of a sparsify directory: the first of the candidates that is
/// there.
pub fn pick_weights_file(dir: &str, sae: bool, sae_weights: bool, weights: bool) -> (res: Result<
    &'static str,
    SaeError,
>)
    ensures
        if sae {
            res matches Ok(n) && n@ == "sae.safetensors"@
        } else if sae_weights {
            res matches Ok(n) && n@ == "sae_weights.safetensors"@
        } else if weights {
            res matches Ok(n) && n@ == "weights.safetensors"@
        } else {
            res matches Err(e) && e@ == (ErrorView::InvalidCheckpoint {
                path: dir@,
                reason: "no sae.safetensors / sae_weights.safetensors found"@,
            })
        },
{
    if sae {
        Ok("sae.safetensors")
    } else if sae_weights {
        Ok("sae_weights.safetensors")
    } else if weights {
        Ok("weights.safetensors")
    } else {
        Err(SaeError::invalid(dir, "no sae.safetensors / sae_weights.safetensors found"))
    }
}

/// Put a checkpoint together from its configuration and the tensors that were
/// read.
pub fn assemble(raw: &RawCfg, tensors: Tensors, backend: Backend) -> (res: Result<Sae, SaeError>)
    requires
        raw.d_in * raw.expansion_factor <= usize::MAX,
        tensors.wf(),
    ensures
        match assemble_error(*raw, tensors@) {
            Some(err) => res matches Err(e) && e@ == err,
            None => {
                &&& res matches Ok(sae)
                &&& assembles(*raw, tensors@, sae)
                &&& sae.backend == backend
                &&& sae.topk is Heap
            },
        },
{
    let cfg = SaeConfig {
        architecture: Architecture::Topk,
        d_in: raw.d_in,
        d_sae: raw.d_in * raw.expansion_factor,
        weight_dtype: WeightDtype::F32,
        apply_b_dec_to_input: true,
        normalize_activations: NormalizeMode::Off,
        k: Some(raw.k),
        rescale_by_decoder_norm: false,
    };
    let w: Weights = match gather(tensors, true, "encoder.weight", "encoder.bias", &cfg) {
        Ok(w) => w,
        Err(e) => {
            return Err(e);
        },
    };
    let sparsifier = Sparsifier::TopK { k: raw.k as u32, post_relu: !raw.signed, rescale: None };
    build(cfg, w, sparsifier, backend)
}

/// Load a sparsify checkpoint from its parsed `cfg.json` and the bytes of its
/// weights file.
pub fn load_dir(raw: &RawCfg, weights: Vec<u8>, backend: Backend) -> (res: Result<Sae, SaeError>)
    requires
        raw.d_in * raw.expansion_factor <= usize::MAX,
    ensures
        match load_error(*raw, weights@) {
            Some(err) => res matches Err(e) && e@ == err,
            None => {
                &&& res matches Ok(sae)
                &&& assembles(*raw, tensors_of(archive(weights@)->0), sae)
                &&& sae.backend == backend
                &&& sae.topk is Heap
            },
        },
{
    let file: SafetensorsFile = match SafetensorsFile::from_bytes(weights) {
        Ok(f) => f,
        Err(e) => {
            return Err(e);
        },
    };
    let st: safetensors::SafeTensors<'_> = match file.view() {
        Ok(s) => s,
        Err(e) => {
            return Err(e);
        },
    };
    let tensors = Tensors {
        w_enc: read_either(&st, "encoder.weight", "W_enc"),
        b_enc: read_either(&st, "encoder.bias", "b_enc"),
        w_dec: read_f32_tensor(&st, "W_dec"),
        b_dec: read_f32_tensor(&st, "b_dec"),
    };
    assemble(raw, tensors, backend)
}

} // verus!
