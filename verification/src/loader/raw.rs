//! Raw safetensors loader. The caller supplies an explicit [`SaeConfig`] and the
//! bytes of a bare `sae_weights.safetensors`-style file. Used when there is no
//! `cfg.json` on disk.

use vstd::prelude::*;

use crate::config::{Architecture, SaeConfig};
use crate::error::{ErrorView, SaeError};
use crate::io::safetensors::{
    archive, f32_tensor, read_f32_tensor, read_view, SafetensorsFile, StoredView, TensorRead,
    TensorView,
};
use crate::kernels::Backend;
use crate::loader::{
    build, expect_vector, gather, has_weights, or_else, read_either, vector_of, weights_of, Tensors,
    TensorsView, Weights,
};
use crate::sae::Sae;
use crate::sparsify::Sparsifier;

verus! {

/// `res` is the sparsifier of a checkpoint, or what keeps it from having one:
/// Standard is the ReLU, TopK takes its `k` from the config, and JumpReLU and
/// BatchTopK are JumpReLU with the saved thresholds.
pub open spec fn sparsifier_of(
    threshold: TensorView,
    cfg: SaeConfig,
    path: Seq<char>,
    res: Result<Sparsifier, ErrorView>,
) -> bool {
    match cfg.architecture {
        Architecture::Standard => res == Ok::<_, ErrorView>(Sparsifier::Relu),
        Architecture::Topk => match cfg.k {
            Some(k) => res == Ok::<_, ErrorView>(
                Sparsifier::TopK { k: k as u32, post_relu: false, rescale: None },
            ),
            None => res == Err::<Sparsifier, _>(
                ErrorView::InvalidCheckpoint {
                    path,
                    reason: "topk arch requires `k` in SaeConfig"@,
                },
            ),
        },
        Architecture::Jumprelu | Architecture::BatchTopk => match threshold {
            Err(e) => res == Err::<Sparsifier, _>(e),
            Ok(t) => match vector_of(t.1, cfg.d_sae as int, "threshold"@) {
                Some(e) => res == Err::<Sparsifier, _>(e),
                None => res matches Ok(s) && (s matches Sparsifier::JumpReLU { thresholds }
                    && thresholds@ == t.0),
            },
        },
        Architecture::Gated => res == Err::<Sparsifier, _>(
            ErrorView::UnknownArchitecture("gated SAEs not supported in v0"@),
        ),
    }
}

/// A result as a specification sees it.
pub open spec fn outcome<T>(res: Result<T, SaeError>) -> Result<T, ErrorView> {
    match res {
        Ok(t) => Ok(t),
        Err(e) => Err(e@),
    }
}

/// `res` is what a checkpoint holds, or the first thing that is wrong with it:
/// its weights, then its sparsifier.
pub open spec fn assembles(
    path: Seq<char>,
    cfg: SaeConfig,
    tensors: TensorsView,
    threshold: TensorView,
    res: Result<Sae, ErrorView>,
) -> bool {
    match weights_of(tensors, true, "W_enc"@, "b_enc"@, cfg) {
        Err(e) => res == Err::<Sae, _>(e),
        Ok(w) => match res {
            Err(e) => sparsifier_of(threshold, cfg, path, Err(e)),
            Ok(sae) => {
                &&& sparsifier_of(threshold, cfg, path, Ok(sae.sparsifier))
                &&& sae.wf()
                &&& sae.cfg == cfg
                &&& has_weights(sae, w)
            },
        },
    }
}

/// The weight tensors that a bare file holds. The encoder's tensors may have the
/// sparsify names.
pub open spec fn tensors_of(file: Map<Seq<char>, StoredView>) -> TensorsView {
    TensorsView {
        w_enc: or_else(f32_tensor(file, "W_enc"@), f32_tensor(file, "encoder.weight"@)),
        b_enc: or_else(f32_tensor(file, "b_enc"@), f32_tensor(file, "encoder.bias"@)),
        w_dec: f32_tensor(file, "W_dec"@),
        b_dec: f32_tensor(file, "b_dec"@),
    }
}

/// `res` is what loading a checkpoint gives.
pub open spec fn loads(
    path: Seq<char>,
    cfg: SaeConfig,
    weights: Seq<u8>,
    res: Result<Sae, ErrorView>,
) -> bool {
    match archive(weights) {
        None => res == Err::<Sae, _>(ErrorView::Safetensors),
        Some(file) => assembles(
            path,
            cfg,
            tensors_of(file),
            f32_tensor(file, "threshold"@),
            res,
        ),
    }
}

/// Build the sparsifier from the architecture.
fn build_sparsifier(threshold: TensorRead, cfg: &SaeConfig, path: &str) -> (res: Result<
    Sparsifier,
    SaeError,
>)
    ensures
        sparsifier_of(read_view(threshold), *cfg, path@, outcome(res)),
{
    match cfg.architecture {
        Architecture::Standard => Ok(Sparsifier::Relu),
        Architecture::Topk => match cfg.k {
            Some(k) => Ok(Sparsifier::TopK { k: k as u32, post_relu: false, rescale: None }),
            None => Err(SaeError::invalid(path, "topk arch requires `k` in SaeConfig")),
        },
        Architecture::Jumprelu | Architecture::BatchTopk => match threshold {
            Err(e) => Err(e),
            Ok(t) => {
                match expect_vector(&t.1, cfg.d_sae, "threshold") {
                    Ok(_) => {},
                    Err(e) => {
                        return Err(e);
                    },
                }
                Ok(Sparsifier::JumpReLU { thresholds: t.0 })
            },
        },
        Architecture::Gated => Err(
            SaeError::UnknownArchitecture("gated SAEs not supported in v0".to_owned()),
        ),
    }
}

/// Put a checkpoint together from its configuration and the tensors that were
/// read.
pub fn assemble(
    path: &str,
    cfg: SaeConfig,
    tensors: Tensors,
    threshold: TensorRead,
    backend: Backend,
) -> (res: Result<Sae, SaeError>)
    requires
        tensors.wf(),
    ensures
        assembles(path@, cfg, tensors@, read_view(threshold), outcome(res)),
        res matches Ok(sae) ==> sae.backend == backend && sae.topk is Heap,
{
    let w: Weights = match gather(tensors, true, "W_enc", "b_enc", &cfg) {
        Ok(w) => w,
        Err(e) => {
            return Err(e);
        },
    };
    let sparsifier: Sparsifier = match build_sparsifier(threshold, &cfg, path) {
        Ok(s) => s,
        Err(e) => {
            return Err(e);
        },
    };
    build(cfg, w, sparsifier, backend)
}

/// Load a checkpoint from the bytes of its weights file, which was read from
/// `path`.
pub fn load_safetensors(path: &str, cfg: SaeConfig, weights: Vec<u8>, backend: Backend) -> (res: Result<
    Sae,
    SaeError,
>)
    ensures
        loads(path@, cfg, weights@, outcome(res)),
        res matches Ok(sae) ==> sae.backend == backend && sae.topk is Heap,
{
    let file: SafetensorsFile = match SafetensorsFile::from_bytes(weights) {
        Ok(f) => f,
        Err(e) => {
            return Err(e);
        },
    };
    let st: safetensors::SafeTensors<'_> = match file.view() {
        Ok(s) => s,
        Err(e) => {
            return Err(e);
        },
    };
    let tensors = Tensors {
        w_enc: read_either(&st, "W_enc", "encoder.weight"),
        b_enc: read_either(&st, "b_enc", "encoder.bias"),
        w_dec: read_f32_tensor(&st, "W_dec"),
        b_dec: read_f32_tensor(&st, "b_dec"),
    };
    let threshold: TensorRead = read_f32_tensor(&st, "threshold");
    assemble(path, cfg, tensors, threshold, backend)
}

} // verus!
