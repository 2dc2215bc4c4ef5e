//! SAELens loader: from a parsed `cfg.json` and the bytes of
//! `sae_weights.safetensors` to a [`crate::sae::Sae`].
//!
//! Supports the standard, topk, jumprelu, and batch_topk architectures. Gated
//! SAEs are refused with [`crate::error::SaeError::UnknownArchitecture`].

use vstd::prelude::*;

use crate::bits::{abs, absolute, greater, gt, total, yields, FloatOp, ONE};
use crate::config::{Architecture, NormalizeMode, SaeConfig, WeightDtype};
use crate::error::{ErrorView, SaeError};
use crate::index::{at, lemma_cell, lemma_row, lemma_store, row};
use crate::io::safetensors::{
    archive, f32_tensor, read_f32_tensor, read_view, sized, SafetensorsFile, StoredView, TensorRead,
    TensorView,
};
use crate::kernels::Backend;
use crate::loader::{
    build, expect_vector, gather, has_weights, lemma_product, or_else, read_either, vector_of,
    weights_of, Tensors, TensorsView, Weights, WeightsView,
};
use crate::normalize::{l2_norm, norm_of};
use crate::sae::Sae;
use crate::sparsify::Sparsifier;
use crate::text::{lower, same, same_ignoring_case};

verus! {

/// The encoding of `1e-7`.
pub const ONES_TOLERANCE: u32 = 0x33d6_bf95;

/// The fields of `cfg.json` that the loader reads. Extra fields are ignored.
#[derive(Debug)]
pub struct RawCfg {
    pub architecture: Option<String>,
    /// Current releases use `d_in`/`d_sae`; older releases used
    /// `d_in`/`d_hidden`.
    pub d_in: Option<usize>,
    pub d_sae: Option<usize>,
    pub d_hidden: Option<usize>,
    pub expansion_factor: Option<usize>,
    pub dtype: Option<String>,
    pub apply_b_dec_to_input: bool,
    pub normalize_activations: Option<String>,
    pub k: Option<usize>,
    pub activation_fn_str: Option<String>,
    pub rescale_acts_by_decoder_norm: bool,
    /// The activation function of older checkpoints.
    pub activation_fn: Option<String>,
}

/// A text field, in lower case.
pub open spec fn folded(s: Option<String>) -> Option<Seq<char>> {
    match s {
        Some(t) => Some(lower(t@)),
        None => None,
    }
}

/// The architecture that a config names, or the name (in lower case) if there
/// is none of that name. Without a name, or under the name `standard`, it is
/// inferred from the activation function.
pub open spec fn architecture_of(arch: Option<String>, activation_fn: Option<String>) -> Result<
    Architecture,
    Seq<char>,
> {
    let name = folded(arch);
    let act = folded(activation_fn);
    if name is None || name == Some("standard"@) {
        if act == Some("topk"@) || act == Some("topk_relu"@) {
            Ok(Architecture::Topk)
        } else if act == Some("jumprelu"@) {
            Ok(Architecture::Jumprelu)
        } else {
            Ok(Architecture::Standard)
        }
    } else if name == Some("topk"@) {
        Ok(Architecture::Topk)
    } else if name == Some("jumprelu"@) {
        Ok(Architecture::Jumprelu)
    } else if name == Some("batch_topk"@) || name == Some("batchtopk"@) {
        Ok(Architecture::BatchTopk)
    } else if name == Some("gated"@) {
        Ok(Architecture::Gated)
    } else {
        Err(name->0)
    }
}

/// The normalization that a config names; none, if the name is unknown.
pub open spec fn normalization_of(s: Option<String>) -> NormalizeMode {
    let name = folded(s);
    if name == Some("expected_average_only_in"@) {
        NormalizeMode::ExpectedAverageOnlyIn
    } else if name == Some("constant_norm_rescale"@) {
        NormalizeMode::ConstantNormRescale
    } else if name == Some("layer_norm"@) {
        NormalizeMode::LayerNorm
    } else {
        NormalizeMode::Off
    }
}

/// The storage dtype that a config names; single precision, if the name is
/// unknown.
pub open spec fn dtype_of(s: Option<String>) -> WeightDtype {
    let name = folded(s);
    if name == Some("float16"@) || name == Some("f16"@) {
        WeightDtype::F16
    } else if name == Some("bfloat16"@) || name == Some("bf16"@) {
        WeightDtype::Bf16
    } else if name == Some("int8"@) || name == Some("i8"@) {
        WeightDtype::I8
    } else {
        WeightDtype::F32
    }
}

/// The number of features that a config gives, if it gives one.
pub open spec fn d_sae_of(raw: RawCfg) -> Option<int> {
    if raw.d_sae is Some {
        Some(raw.d_sae->0 as int)
    } else if raw.d_hidden is Some {
        Some(raw.d_hidden->0 as int)
    } else if raw.expansion_factor is Some {
        Some(raw.d_in->0 * raw.expansion_factor->0)
    } else {
        None
    }
}

/// The configuration that a `cfg.json` stands for, or what is wrong with it.
pub open spec fn config_of(raw: RawCfg, cfg_path: Seq<char>) -> Result<SaeConfig, ErrorView> {
    if raw.d_in is None {
        Err(ErrorView::InvalidCheckpoint { path: cfg_path, reason: "missing d_in"@ })
    } else if d_sae_of(raw) is None {
        Err(
            ErrorView::InvalidCheckpoint {
                path: cfg_path,
                reason: "missing d_sae / d_hidden / expansion_factor"@,
            },
        )
    } else {
        match architecture_of(raw.architecture, raw.activation_fn) {
            Err(name) => Err(ErrorView::UnknownArchitecture(name)),
            Ok(architecture) => Ok(
                SaeConfig {
                    architecture,
                    d_in: raw.d_in->0,
                    d_sae: d_sae_of(raw)->0 as usize,
                    weight_dtype: dtype_of(raw.dtype),
                    apply_b_dec_to_input: raw.apply_b_dec_to_input,
                    normalize_activations: normalization_of(raw.normalize_activations),
                    k: raw.k,
                    rescale_by_decoder_norm: raw.rescale_acts_by_decoder_norm,
                },
            ),
        }
    }
}

/// A text field in lower case.
fn fold(s: &Option<String>) -> (res: Option<String>)
    ensures
        (match res {
            Some(t) => Some(t@),
            None => None,
        }) == folded(*s),
{
    match s {
        Some(t) => Some(t.as_str().to_ascii_lowercase()),
        None => None,
    }
}

/// Whether a text field is there and equal to `name`.
fn is(s: &Option<String>, name: &str) -> (res: bool)
    ensures
        res == (s matches Some(t) && t@ == name@),
{
    match s {
        Some(t) => same(t.as_str(), name),
        None => false,
    }
}

/// The architecture that a config names.
pub fn parse_architecture(arch: &Option<String>, activation_fn: &Option<String>) -> (res: Result<
    Architecture,
    SaeError,
>)
    ensures
        match architecture_of(*arch, *activation_fn) {
            Ok(a) => res matches Ok(r) && r == a,
            Err(name) => res matches Err(e) && e@ == ErrorView::UnknownArchitecture(name),
        },
{
    let name: Option<String> = fold(arch);
    let act: Option<String> = fold(activation_fn);
    if name.is_none() || is(&name, "standard") {
        if is(&act, "topk") || is(&act, "topk_relu") {
            return Ok(Architecture::Topk);
        }
        if is(&act, "jumprelu") {
            return Ok(Architecture::Jumprelu);
        }
        return Ok(Architecture::Standard);
    }
    if is(&name, "topk") {
        return Ok(Architecture::Topk);
    }
    if is(&name, "jumprelu") {
        return Ok(Architecture::Jumprelu);
    }
    if is(&name, "batch_topk") || is(&name, "batchtopk") {
        return Ok(Architecture::BatchTopk);
    }
    if is(&name, "gated") {
        return Ok(Architecture::Gated);
    }
    Err(SaeError::UnknownArchitecture(name.unwrap()))
}

/// The normalization that a config names.
pub fn parse_normalize(s: &Option<String>) -> (res: NormalizeMode)
    ensures
        res == normalization_of(*s),
{
    let name: Option<String> = fold(s);
    if is(&name, "expected_average_only_in") {
        NormalizeMode::ExpectedAverageOnlyIn
    } else if is(&name, "constant_norm_rescale") {
        NormalizeMode::ConstantNormRescale
    } else if is(&name, "layer_norm") {
        NormalizeMode::LayerNorm
    } else {
        NormalizeMode::Off
    }
}

/// The storage dtype that a config names.
pub fn parse_dtype(s: &Option<String>) -> (res: WeightDtype)
    ensures
        res == dtype_of(*s),
{
    let name: Option<String> = fold(s);
    if is(&name, "float16") || is(&name, "f16") {
        WeightDtype::F16
    } else if is(&name, "bfloat16") || is(&name, "bf16") {
        WeightDtype::Bf16
    } else if is(&name, "int8") || is(&name, "i8") {
        WeightDtype::I8
    } else {
        WeightDtype::F32
    }
}

/// The configuration that the `cfg.json` at `cfg_path` stands for.
pub fn parse_config(raw: &RawCfg, cfg_path: &str) -> (res: Result<SaeConfig, SaeError>)
    requires
        raw.d_in is Some && d_sae_of(*raw) is Some ==> d_sae_of(*raw)->0 <= usize::MAX,
    ensures
        match config_of(*raw, cfg_path@) {
            Ok(cfg) => res matches Ok(c) && c == cfg,
            Err(err) => res matches Err(e) && e@ == err,
        },
        res matches Ok(c) ==> {
            &&& raw.d_in == Some(c.d_in)
            &&& raw.d_sae is Some ==> raw.d_sae == Some(c.d_sae)
            &&& c.apply_b_dec_to_input == raw.apply_b_dec_to_input
            &&& c.rescale_by_decoder_norm == raw.rescale_acts_by_decoder_norm
            &&& c.k == raw.k
        },
{
    let d_in: usize = match raw.d_in {
        Some(d) => d,
        None => {
            return Err(SaeError::invalid(cfg_path, "missing d_in"));
        },
    };
    let d_sae: usize = match raw.d_sae {
        Some(d) => d,
        None => match raw.d_hidden {
            Some(d) => d,
            None => match raw.expansion_factor {
                Some(e) => d_in * e,
                None => {
                    return Err(
                        SaeError::invalid(cfg_path, "missing d_sae / d_hidden / expansion_factor"),
                    );
                },
            },
        },
    };
    let architecture: Architecture = match parse_architecture(
        &raw.architecture,
        &raw.activation_fn,
    ) {
        Ok(a) => a,
        Err(e) => {
            return Err(e);
        },
    };
    Ok(
        SaeConfig {
            architecture,
            d_in,
            d_sae,
            weight_dtype: parse_dtype(&raw.dtype),
            apply_b_dec_to_input: raw.apply_b_dec_to_input,
            normalize_activations: parse_normalize(&raw.normalize_activations),
            k: raw.k,
            rescale_by_decoder_norm: raw.rescale_acts_by_decoder_norm,
        },
    )
}

/// The weights file of a SAELens directory: the first of the candidates that is
/// there.
pub fn pick_weights_file(dir: &str, sae_weights: bool, sae: bool, weights: bool) -> (res: Result<
    &'static str,
    SaeError,
>)
    ensures
        if sae_weights {
            res matches Ok(n) && n@ == "sae_weights.safetensors"@
        } else if sae {
            res matches Ok(n) && n@ == "sae.safetensors"@
        } else if weights {
            res matches Ok(n) && n@ == "weights.safetensors"@
        } else {
            res matches Err(e) && e@ == (ErrorView::InvalidCheckpoint {
                path: dir@,
                reason: "no sae_weights.safetensors or sae.safetensors found"@,
            })
        },
{
    if sae_weights {
        Ok("sae_weights.safetensors")
    } else if sae {
        Ok("sae.safetensors")
    } else if weights {
        Ok("weights.safetensors")
    } else {
        Err(SaeError::invalid(dir, "no sae_weights.safetensors or sae.safetensors found"))
    }
}

/// `diffs` are the distances of numbers from one.
pub open spec fn distances_of<F: Fn(FloatOp) -> u32>(unit: F, v: Seq<u32>, diffs: Seq<u32>) -> bool {
    &&& diffs.len() == v.len()
    &&& forall|i: int| 0 <= i < v.len() ==> yields(unit, FloatOp::Sub(v[i], ONE), #[trigger] diffs[i])
}

/// `ones` says whether all of `v` is within the tolerance of one.
pub open spec fn near_ones<F: Fn(FloatOp) -> u32>(unit: F, v: Seq<u32>, ones: bool) -> bool {
    exists|diffs: Seq<u32>| #[trigger]
        distances_of(unit, v, diffs) && ones == (forall|i: int|
            0 <= i < v.len() ==> greater(ONES_TOLERANCE, absolute(#[trigger] diffs[i])))
}

/// Whether all of `v` is within the tolerance of one.
fn is_all_ones<F: Fn(FloatOp) -> u32>(v: &Vec<u32>, unit: &F) -> (ones: bool)
    requires
        total(*unit),
    ensures
        near_ones(*unit, v@, ones),
{
    let ghost mut diffs: Seq<u32> = Seq::empty();
    let mut ones: bool = true;
    let mut i: usize = 0;
    while i < v.len()
        invariant
            total(*unit),
            i <= v@.len(),
            diffs.len() == i,
            forall|j: int|
                0 <= j < i ==> yields(*unit, FloatOp::Sub(v@[j], ONE), #[trigger] diffs[j]),
            ones == (forall|j: int|
                0 <= j < i ==> greater(ONES_TOLERANCE, absolute(#[trigger] diffs[j]))),
        decreases v@.len() - i,
    {
        let d: u32 = (*unit)(FloatOp::Sub(v[i], ONE));
        assert(yields(*unit, FloatOp::Sub(v@[i as int], ONE), d));
        let ghost before = diffs;
        proof {
            diffs = diffs.push(d);
            assert(forall|j: int| 0 <= j < i ==> #[trigger] diffs[j] == before[j]);
            assert(diffs[i as int] == d);
            if !ones {
                let j = choose|j: int|
                    0 <= j < i && !greater(ONES_TOLERANCE, absolute(#[trigger] before[j]));
                assert(diffs[j] == before[j]);
            }
        }
        if !gt(ONES_TOLERANCE, abs(d)) {
            ones = false;
        }
        i += 1;
    }
    assert(distances_of(*unit, v@, diffs));
    ones
}

/// `after` is the matrix `before` with row `f` scaled by `scales[f]`.
pub open spec fn rows_scaled<F: Fn(FloatOp) -> u32>(
    unit: F,
    scales: Seq<u32>,
    d_sae: int,
    d_in: int,
    before: Seq<u32>,
    after: Seq<u32>,
) -> bool {
    &&& after.len() == before.len()
    &&& forall|f: int, j: int|
        0 <= f < d_sae && 0 <= j < d_in ==> yields(
            unit,
            FloatOp::Mul(at(before, d_in, f, j), scales[f]),
            #[trigger] at(after, d_in, f, j),
        )
}

/// `after` is the decoder matrix `before` with the optional scaling factors of a
/// checkpoint folded in: they are left out where they are missing, have another
/// shape, or are all ones.
pub open spec fn scaling_folded<F: Fn(FloatOp) -> u32>(
    unit: F,
    scaling: TensorView,
    d_sae: int,
    d_in: int,
    before: Seq<u32>,
    after: Seq<u32>,
) -> bool {
    match scaling {
        Err(_) => after == before,
        Ok(t) => if vector_of(t.1, d_sae, Seq::empty()) is Some {
            after == before
        } else {
            exists|ones: bool| #[trigger]
                near_ones(unit, t.0, ones) && if ones {
                    after == before
                } else {
                    rows_scaled(unit, t.0, d_sae, d_in, before, after)
                }
        },
    }
}

/// Scale row `f` of a matrix by `scales[f]`.
fn scale_rows<F: Fn(FloatOp) -> u32>(
    w: &mut Vec<u32>,
    scales: &Vec<u32>,
    d_sae: usize,
    d_in: usize,
    unit: &F,
)
    requires
        total(*unit),
        old(w)@.len() == d_sae * d_in,
        scales@.len() == d_sae,
    ensures
        rows_scaled(*unit, scales@, d_sae as int, d_in as int, old(w)@, final(w)@),
{
    let ghost before = w@;
    let w_len: usize = w.len();
    let mut f: usize = 0;
    while f < d_sae
        invariant
            total(*unit),
            w@.len() == w_len == d_sae * d_in,
            before.len() == w_len,
            scales@.len() == d_sae,
            f <= d_sae,
            forall|g: int, j: int|
                0 <= g < d_sae && 0 <= j < d_in ==> if g < f {
                    yields(
                        *unit,
                        FloatOp::Mul(at(before, d_in as int, g, j), scales@[g]),
                        #[trigger] at(w@, d_in as int, g, j),
                    )
                } else {
                    at(w@, d_in as int, g, j) == at(before, d_in as int, g, j)
                },
        decreases d_sae - f,
    {
        proof {
            lemma_row(d_sae as int, d_in as int, f as int);
        }
        let s: u32 = scales[f];
        let base: usize = f * d_in;
        let mut j: usize = 0;
        while j < d_in
            invariant
                total(*unit),
                w@.len() == w_len == d_sae * d_in,
                before.len() == w_len,
                f < d_sae,
                s == scales@[f as int],
                base == f * d_in,
                j <= d_in,
                forall|g: int, i: int|
                    0 <= g < d_sae && 0 <= i < d_in ==> if g < f || (g == f && i < j) {
                        yields(
                            *unit,
                            FloatOp::Mul(at(before, d_in as int, g, i), scales@[g]),
                            #[trigger] at(w@, d_in as int, g, i),
                        )
                    } else {
                        at(w@, d_in as int, g, i) == at(before, d_in as int, g, i)
                    },
            decreases d_in - j,
        {
            proof {
                lemma_cell(d_sae as int, d_in as int, f as int, j as int);
                assert(at(w@, d_in as int, f as int, j as int) == at(
                    before,
                    d_in as int,
                    f as int,
                    j as int,
                ));
            }
            let v: u32 = (*unit)(FloatOp::Mul(w[base + j], s));
            proof {
                assert(yields(
                    *unit,
                    FloatOp::Mul(
                        at(before, d_in as int, f as int, j as int),
                        scales@[f as int],
                    ),
                    v,
                ));
                lemma_store(w@, d_sae as int, d_in as int, f as int, j as int, v);
            }
            w.set(base + j, v);
            j += 1;
        }
        f += 1;
    }
}

/// `norms` are the L2 norms of the rows of a decoder matrix.
pub open spec fn decoder_norms<F: Fn(FloatOp) -> u32>(
    unit: F,
    w_dec: Seq<u32>,
    d_sae: int,
    d_in: int,
    norms: Seq<u32>,
) -> bool {
    &&& norms.len() == d_sae
    &&& forall|f: int| 0 <= f < d_sae ==> norm_of(unit, row(w_dec, d_in, f), #[trigger] norms[f])
}

/// The L2 norms of the rows of a decoder matrix.
fn per_feature_decoder_norm<F: Fn(FloatOp) -> u32>(
    w_dec: &Vec<u32>,
    d_sae: usize,
    d_in: usize,
    unit: &F,
) -> (norms: Vec<u32>)
    requires
        total(*unit),
        w_dec@.len() == d_sae * d_in,
    ensures
        decoder_norms(*unit, w_dec@, d_sae as int, d_in as int, norms@),
{
    let w_len: usize = w_dec.len();
    let mut norms: Vec<u32> = Vec::new();
    let mut f: usize = 0;
    while f < d_sae
        invariant
            total(*unit),
            w_dec@.len() == w_len == d_sae * d_in,
            f <= d_sae,
            norms@.len() == f,
            forall|g: int|
                0 <= g < f ==> norm_of(*unit, row(w_dec@, d_in as int, g), #[trigger] norms@[g]),
        decreases d_sae - f,
    {
        proof {
            lemma_row(d_sae as int, d_in as int, f as int);
        }
        let cells: &[u32] = vstd::slice::slice_subrange(
            w_dec.as_slice(),
            f * d_in,
            f * d_in + d_in,
        );
        let n: u32 = l2_norm(cells, unit);
        norms.push(n);
        f += 1;
    }
    norms
}

/// The thresholds of a checkpoint, or what is wrong with them.
pub open spec fn thresholds_of(threshold: TensorView, d_sae: int) -> Result<Seq<u32>, ErrorView> {
    match threshold {
        Err(e) => Err(e),
        Ok(t) => match vector_of(t.1, d_sae, "threshold"@) {
            Some(e) => Err(e),
            None => Ok(t.0),
        },
    }
}

/// What keeps a checkpoint from having a sparsifier, if anything does.
pub open spec fn sparsifier_error(
    threshold: TensorView,
    cfg: SaeConfig,
    cfg_path: Seq<char>,
) -> Option<ErrorView> {
    match cfg.architecture {
        Architecture::Standard => None,
        Architecture::Topk => if cfg.k is None {
            Some(
                ErrorView::InvalidCheckpoint { path: cfg_path, reason: "topk arch missing k"@ },
            )
        } else {
            None
        },
        Architecture::Jumprelu | Architecture::BatchTopk => match thresholds_of(
            threshold,
            cfg.d_sae as int,
        ) {
            Err(e) => Some(e),
            Ok(_) => None,
        },
        Architecture::Gated => Some(
            ErrorView::UnknownArchitecture("gated SAEs are not implemented in v0"@),
        ),
    }
}

/// `sparsifier` is the one that a checkpoint asks for: Standard is the ReLU,
/// TopK takes its `k` from the config, and JumpReLU and BatchTopK are JumpReLU
/// with the saved thresholds.
pub open spec fn sparsifier_for<F: Fn(FloatOp) -> u32>(
    unit: F,
    threshold: TensorView,
    cfg: SaeConfig,
    activation: Option<String>,
    w_dec: Seq<u32>,
    sparsifier: Sparsifier,
) -> bool {
    match cfg.architecture {
        Architecture::Standard => sparsifier is Relu,
        Architecture::Topk => {
            &&& sparsifier matches Sparsifier::TopK { k, post_relu, rescale }
            &&& k == cfg.k->0 as u32
            &&& post_relu == (folded(activation) == Some(lower("topk_relu"@)))
            &&& match rescale {
                Some(norms) => cfg.rescale_by_decoder_norm && decoder_norms(
                    unit,
                    w_dec,
                    cfg.d_sae as int,
                    cfg.d_in as int,
                    norms@,
                ),
                None => !cfg.rescale_by_decoder_norm,
            }
        },
        Architecture::Jumprelu | Architecture::BatchTopk => {
            &&& sparsifier matches Sparsifier::JumpReLU { thresholds }
            &&& thresholds_of(threshold, cfg.d_sae as int) == Ok::<_, ErrorView>(thresholds@)
        },
        Architecture::Gated => false,
    }
}

/// Build the sparsifier from the architecture.
fn build_sparsifier<F: Fn(FloatOp) -> u32>(
    threshold: TensorRead,
    cfg: &SaeConfig,
    activation: &Option<String>,
    w_dec: &Vec<u32>,
    cfg_path: &str,
    unit: &F,
) -> (res: Result<Sparsifier, SaeError>)
    requires
        total(*unit),
        w_dec@.len() == cfg.d_sae * cfg.d_in,
    ensures
        match sparsifier_error(read_view(threshold), *cfg, cfg_path@) {
            Some(err) => res matches Err(e) && e@ == err,
            None => res matches Ok(s) && sparsifier_for(
                *unit,
                read_view(threshold),
                *cfg,
                *activation,
                w_dec@,
                s,
            ),
        },
{
    match cfg.architecture {
        Architecture::Standard => Ok(Sparsifier::Relu),
        Architecture::Topk => {
            let k: usize = match cfg.k {
                Some(k) => k,
                None => {
                    return Err(SaeError::invalid(cfg_path, "topk arch missing k"));
                },
            };
            let post_relu: bool = match activation {
                Some(s) => same_ignoring_case(s.as_str(), "topk_relu"),
                None => false,
            };
            let rescale: Option<Vec<u32>> = if cfg.rescale_by_decoder_norm {
                Some(per_feature_decoder_norm(w_dec, cfg.d_sae, cfg.d_in, unit))
            } else {
                None
            };
            Ok(Sparsifier::TopK { k: k as u32, post_relu, rescale })
        },
        Architecture::Jumprelu | Architecture::BatchTopk => match threshold {
            Err(e) => Err(e),
            Ok(t) => {
                match expect_vector(&t.1, cfg.d_sae, "threshold") {
                    Ok(_) => {},
                    Err(e) => {
                        return Err(e);
                    },
                }
                Ok(Sparsifier::JumpReLU { thresholds: t.0 })
            },
        },
        Architecture::Gated => Err(
            SaeError::UnknownArchitecture("gated SAEs are not implemented in v0".to_owned()),
        ),
    }
}

/// Fold the optional scaling factors of a checkpoint into the decoder rows, so
/// that they cost nothing at run time.
fn fold_scaling<F: Fn(FloatOp) -> u32>(
    scaling: TensorRead,
    w_dec: &mut Vec<u32>,
    d_sae: usize,
    d_in: usize,
    unit: &F,
)
    requires
        total(*unit),
        sized(scaling),
        old(w_dec)@.len() == d_sae * d_in,
    ensures
        final(w_dec)@.len() == old(w_dec)@.len(),
        scaling_folded(
            *unit,
            read_view(scaling),
            d_sae as int,
            d_in as int,
            old(w_dec)@,
            final(w_dec)@,
        ),
{
    let ghost read = read_view(scaling);
    let ghost before = w_dec@;
    match scaling {
        Err(_) => {},
        Ok(t) => {
            if t.1.len() == 1 && t.1[0] == d_sae {
                proof {
                    lemma_product(t.1@);
                }
                let ones: bool = is_all_ones(&t.0, unit);
                if !ones {
                    scale_rows(w_dec, &t.0, d_sae, d_in, unit);
                    assert(rows_scaled(*unit, t.0@, d_sae as int, d_in as int, before, w_dec@));
                }
                assert(near_ones(*unit, read->Ok_0.0, ones));
                assert(vector_of(read->Ok_0.1, d_sae as int, Seq::empty()) is None);
            }
        },
    }
}

/// What keeps a checkpoint from being put together, if anything does: its
/// weights, then its sparsifier.
pub open spec fn assemble_error(
    cfg: SaeConfig,
    cfg_path: Seq<char>,
    tensors: TensorsView,
    threshold: TensorView,
) -> Option<ErrorView> {
    match weights_of(tensors, false, "W_enc"@, "b_enc"@, cfg) {
        Err(e) => Some(e),
        Ok(_) => sparsifier_error(threshold, cfg, cfg_path),
    }
}

/// `sae` is what a checkpoint holds: its weights, with the scaling factors
/// folded into the decoder, and its sparsifier.
pub open spec fn assembles<F: Fn(FloatOp) -> u32>(
    unit: F,
    cfg: SaeConfig,
    activation: Option<String>,
    tensors: TensorsView,
    scaling: TensorView,
    threshold: TensorView,
    sae: Sae,
) -> bool {
    let w = weights_of(tensors, false, "W_enc"@, "b_enc"@, cfg)->Ok_0;
    &&& sae.wf()
    &&& sae.cfg == cfg
    &&& has_weights(sae, WeightsView { w_dec: sae.dec.w_dec@, ..w })
    &&& scaling_folded(
        unit,
        scaling,
        cfg.d_sae as int,
        cfg.d_in as int,
        w.w_dec,
        sae.dec.w_dec@,
    )
    &&& sparsifier_for(unit, threshold, cfg, activation, sae.dec.w_dec@, sae.sparsifier)
}

/// Put a checkpoint together from its configuration and the tensors that were
/// read. `activation` is the config's `activation_fn_str`.
pub fn assemble<F: Fn(FloatOp) -> u32>(
    cfg: SaeConfig,
    activation: &Option<String>,
    cfg_path: &str,
    tensors: Tensors,
    scaling: TensorRead,
    threshold: TensorRead,
    backend: Backend,
    unit: &F,
) -> (res: Result<Sae, SaeError>)
    requires
        total(*unit),
        tensors.wf(),
        sized(scaling),
    ensures
        match assemble_error(cfg, cfg_path@, tensors@, read_view(threshold)) {
            Some(err) => res matches Err(e) && e@ == err,
            None => {
                &&& res matches Ok(sae)
                &&& assembles(
                    *unit,
                    cfg,
                    *activation,
                    tensors@,
                    read_view(scaling),
                    read_view(threshold),
                    sae,
                )
                &&& sae.backend == backend
                &&& sae.topk is Heap
            },
        },
{
    let mut w: Weights = match gather(tensors, false, "W_enc", "b_enc", &cfg) {
        Ok(w) => w,
        Err(e) => {
            return Err(e);
        },
    };
    fold_scaling(scaling, &mut w.w_dec, cfg.d_sae, cfg.d_in, unit);
    let sparsifier: Sparsifier = match build_sparsifier(
        threshold,
        &cfg,
        activation,
        &w.w_dec,
        cfg_path,
        unit,
    ) {
        Ok(s) => s,
        Err(e) => {
            return Err(e);
        },
    };
    build(cfg, w, sparsifier, backend)
}

/// The weight tensors that a SAELens file holds.
pub open spec fn tensors_of(file: Map<Seq<char>, StoredView>) -> TensorsView {
    TensorsView {
        w_enc: f32_tensor(file, "W_enc"@),
        b_enc: f32_tensor(file, "b_enc"@),
        w_dec: f32_tensor(file, "W_dec"@),
        b_dec: f32_tensor(file, "b_dec"@),
    }
}

/// The thresholds that a SAELens file holds: its tensor `threshold`, or else
/// `log_threshold`.
pub open spec fn threshold_of(file: Map<Seq<char>, StoredView>) -> TensorView {
    or_else(f32_tensor(file, "threshold"@), f32_tensor(file, "log_threshold"@))
}

/// What keeps a SAELens checkpoint from loading, if anything does: the config,
/// then the file, then what the file holds.
pub open spec fn load_error(raw: RawCfg, cfg_path: Seq<char>, weights: Seq<u8>) -> Option<ErrorView> {
    match config_of(raw, cfg_path) {
        Err(e) => Some(e),
        Ok(cfg) => match archive(weights) {
            None => Some(ErrorView::Safetensors),
            Some(file) => assemble_error(cfg, cfg_path, tensors_of(file), threshold_of(file)),
        },
    }
}

/// `sae` is what a SAELens checkpoint holds.
pub open spec fn loads<F: Fn(FloatOp) -> u32>(
    unit: F,
    raw: RawCfg,
    cfg_path: Seq<char>,
    weights: Seq<u8>,
    sae: Sae,
) -> bool {
    let file = archive(weights)->0;
    assembles(
        unit,
        config_of(raw, cfg_path)->Ok_0,
        raw.activation_fn_str,
        tensors_of(file),
        f32_tensor(file, "scaling_factor"@),
        threshold_of(file),
        sae,
    )
}

/// Load a SAELens checkpoint from its parsed `cfg.json` (at `cfg_path`) and the
/// bytes of its weights file.
pub fn load_dir<F: Fn(FloatOp) -> u32>(
    raw: &RawCfg,
    cfg_path: &str,
    weights: Vec<u8>,
    backend: Backend,
    unit: &F,
) -> (res: Result<Sae, SaeError>)
    requires
        total(*unit),
        raw.d_in is Some && d_sae_of(*raw) is Some ==> d_sae_of(*raw)->0 <= usize::MAX,
    ensures
        match load_error(*raw, cfg_path@, weights@) {
            Some(err) => res matches Err(e) && e@ == err,
            None => {
                &&& res matches Ok(sae)
                &&& loads(*unit, *raw, cfg_path@, weights@, sae)
                &&& sae.backend == backend
                &&& sae.topk is Heap
            },
        },
        res matches Ok(sae) ==> {
            &&& raw.d_in == Some(sae.cfg.d_in)
            &&& raw.d_sae is Some ==> raw.d_sae == Some(sae.cfg.d_sae)
            &&& sae.cfg.apply_b_dec_to_input == raw.apply_b_dec_to_input
            &&& sae.cfg.rescale_by_decoder_norm == raw.rescale_acts_by_decoder_norm
            &&& sae.cfg.k == raw.k
        },
{
    let cfg: SaeConfig = match parse_config(raw, cfg_path) {
        Ok(c) => c,
        Err(e) => {
            return Err(e);
        },
    };
    let file: SafetensorsFile = match SafetensorsFile::from_bytes(weights) {
        Ok(f) => f,
        Err(e) => {
            return Err(e);
        },
    };
    let st: safetensors::SafeTensors<'_> = match file.view() {
        Ok(s) => s,
        Err(e) => {
            return Err(e);
        },
    };
    let tensors = Tensors {
        w_enc: read_f32_tensor(&st, "W_enc"),
        b_enc: read_f32_tensor(&st, "b_enc"),
        w_dec: read_f32_tensor(&st, "W_dec"),
        b_dec: read_f32_tensor(&st, "b_dec"),
    };
    let scaling: TensorRead = read_f32_tensor(&st, "scaling_factor");
    let threshold: TensorRead = read_either(&st, "threshold", "log_threshold");
    assemble(
        cfg,
        &raw.activation_fn_str,
        cfg_path,
        tensors,
        scaling,
        threshold,
        backend,
        unit,
    )
}

} // verus!
