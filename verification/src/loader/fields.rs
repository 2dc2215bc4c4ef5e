//! What a loaded model takes from where.
//!
//! The laws here say of every part of a loaded model which field of the
//! configuration, or which bytes of which stored tensor, it is.

use vstd::prelude::*;

use crate::bits::{absolute, greater, yields, FloatOp, ZERO};
use crate::config::{Architecture, SaeConfig};
use crate::error::ErrorView;
use crate::exact::{
    energy_at, encodings_order_as_numbers, exact, lemma_added_up, lemma_series_congruent, number,
};
use crate::index::{at, lemma_cell, lemma_row, row};
use crate::io::bytes::words;
use crate::io::safetensors::{archive, f32_tensor, StoredView};
use crate::kernels::reduce::sum;
use crate::loader::{has_extension, oriented, raw, saelens, sparsify, weights_of, Probe};
use crate::normalize::{norm_of, squared, squares_of};
use crate::sae::Sae;
use crate::sparsify::Sparsifier;
use crate::steps::{adds_up, lemma_sum_in_steps};
use crate::text::lower;

verus! {

/// A text field is there and says `name`, up to ASCII case.
pub open spec fn says(field: Option<String>, name: Seq<char>) -> bool {
    field matches Some(t) && lower(t@) == name
}

/// The configuration of a SAELens model takes each of its fields from the `cfg.json`:
/// the sizes (of which the number of features has three spellings, the first that is
/// there counting), the two flags and `k` as they stand, and the names by their
/// meaning.
pub proof fn saelens_config_takes_its_fields(
    file: saelens::RawCfg,
    cfg_path: Seq<char>,
    cfg: SaeConfig,
)
    requires
        saelens::config_of(file, cfg_path) == Ok::<_, ErrorView>(cfg),
        file.d_in is Some && file.expansion_factor is Some ==> file.d_in->0
            * file.expansion_factor->0 <= usize::MAX,
    ensures
        file.d_in == Some(cfg.d_in),
        file.d_sae matches Some(d) ==> cfg.d_sae == d,
        file.d_sae is None && file.d_hidden is Some ==> Some(cfg.d_sae) == file.d_hidden,
        file.d_sae is None && file.d_hidden is None ==> file.expansion_factor is Some && cfg.d_sae
            == cfg.d_in * file.expansion_factor->0,
        cfg.apply_b_dec_to_input == file.apply_b_dec_to_input,
        cfg.rescale_by_decoder_norm == file.rescale_acts_by_decoder_norm,
        cfg.k == file.k,
        ({
            let unnamed = file.architecture is None || says(file.architecture, "standard"@);
            let topk = says(file.activation_fn, "topk"@) || says(file.activation_fn, "topk_relu"@);
            let jump = says(file.activation_fn, "jumprelu"@);
            &&& cfg.architecture is Topk <==> says(file.architecture, "topk"@) || (unnamed && topk)
            &&& cfg.architecture is Jumprelu <==> says(file.architecture, "jumprelu"@) || (unnamed
                && jump)
            &&& cfg.architecture is BatchTopk <==> says(file.architecture, "batch_topk"@) || says(
                file.architecture,
                "batchtopk"@,
            )
            &&& cfg.architecture is Gated <==> says(file.architecture, "gated"@)
            &&& cfg.architecture is Standard <==> unnamed && !topk && !jump
        }),
        cfg.normalize_activations is ExpectedAverageOnlyIn <==> says(
            file.normalize_activations,
            "expected_average_only_in"@,
        ),
        cfg.normalize_activations is ConstantNormRescale <==> says(
            file.normalize_activations,
            "constant_norm_rescale"@,
        ),
        cfg.normalize_activations is LayerNorm <==> says(
            file.normalize_activations,
            "layer_norm"@,
        ),
        cfg.weight_dtype is F16 <==> says(file.dtype, "float16"@) || says(file.dtype, "f16"@),
        cfg.weight_dtype is Bf16 <==> says(file.dtype, "bfloat16"@) || says(file.dtype, "bf16"@),
        cfg.weight_dtype is I8 <==> says(file.dtype, "int8"@) || says(file.dtype, "i8"@),
{
    lemma_names();
}

/// A `cfg.json` is refused if it lacks the number of inputs, or gives no number of
/// features, or names an architecture that is not known; and for nothing else.
pub proof fn saelens_config_is_refused_for(file: saelens::RawCfg, cfg_path: Seq<char>)
    ensures
        saelens::config_of(file, cfg_path) is Err <==> {
            ||| file.d_in is None
            ||| file.d_sae is None && file.d_hidden is None && file.expansion_factor is None
            ||| {
                &&& file.architecture is Some
                &&& !says(file.architecture, "standard"@)
                &&& !says(file.architecture, "topk"@)
                &&& !says(file.architecture, "jumprelu"@)
                &&& !says(file.architecture, "batch_topk"@)
                &&& !says(file.architecture, "batchtopk"@)
                &&& !says(file.architecture, "gated"@)
            }
        },
        file.d_in is None ==> saelens::config_of(file, cfg_path) == Err::<SaeConfig, _>(
            ErrorView::InvalidCheckpoint { path: cfg_path, reason: "missing d_in"@ },
        ),
        file.d_in is Some && file.d_sae is None && file.d_hidden is None && file.expansion_factor
            is None ==> saelens::config_of(file, cfg_path) == Err::<SaeConfig, _>(
            ErrorView::InvalidCheckpoint {
                path: cfg_path,
                reason: "missing d_sae / d_hidden / expansion_factor"@,
            },
        ),
        file.d_in is Some && (file.d_sae is Some || file.d_hidden is Some || file.expansion_factor
            is Some) ==> (saelens::config_of(file, cfg_path) matches Err(e) ==> e
            == ErrorView::UnknownArchitecture(lower(file.architecture->0@))),
{
}

/// The names are different.
proof fn lemma_names()
    ensures
        "topk"@ != "jumprelu"@,
        "topk"@ != "batch_topk"@,
        "topk"@ != "batchtopk"@,
        "topk"@ != "gated"@,
        "topk"@ != "standard"@,
        "topk_relu"@ != "jumprelu"@,
        "jumprelu"@ != "batch_topk"@,
        "jumprelu"@ != "batchtopk"@,
        "jumprelu"@ != "gated"@,
        "jumprelu"@ != "standard"@,
        "batch_topk"@ != "gated"@,
        "batch_topk"@ != "standard"@,
        "batchtopk"@ != "gated"@,
        "batchtopk"@ != "standard"@,
        "gated"@ != "standard"@,
        "expected_average_only_in"@ != "constant_norm_rescale"@,
        "expected_average_only_in"@ != "layer_norm"@,
        "constant_norm_rescale"@ != "layer_norm"@,
        "float16"@ != "bfloat16"@,
        "float16"@ != "bf16"@,
        "float16"@ != "int8"@,
        "float16"@ != "i8"@,
        "f16"@ != "bfloat16"@,
        "f16"@ != "bf16"@,
        "f16"@ != "int8"@,
        "f16"@ != "i8"@,
        "bfloat16"@ != "int8"@,
        "bfloat16"@ != "i8"@,
        "bf16"@ != "int8"@,
        "bf16"@ != "i8"@,
{
    reveal_strlit("topk");
    reveal_strlit("topk_relu");
    reveal_strlit("jumprelu");
    reveal_strlit("batch_topk");
    reveal_strlit("batchtopk");
    reveal_strlit("gated");
    reveal_strlit("standard");
    reveal_strlit("expected_average_only_in");
    reveal_strlit("constant_norm_rescale");
    reveal_strlit("layer_norm");
    reveal_strlit("float16");
    reveal_strlit("f16");
    reveal_strlit("bfloat16");
    reveal_strlit("bf16");
    reveal_strlit("int8");
    reveal_strlit("i8");
    assert("topk"@[0] == 't' && "topk_relu"@[0] == 't' && "jumprelu"@[0] == 'j');
    assert("batch_topk"@[0] == 'b' && "batchtopk"@[0] == 'b' && "gated"@[0] == 'g');
    assert("standard"@[0] == 's' && "expected_average_only_in"@[0] == 'e');
    assert("constant_norm_rescale"@[0] == 'c' && "layer_norm"@[0] == 'l');
    assert("float16"@[0] == 'f' && "f16"@[0] == 'f' && "bfloat16"@[0] == 'b' && "bf16"@[0] == 'b');
    assert("int8"@[0] == 'i' && "i8"@[0] == 'i');
}

/// The number that the four bytes of element `i` encode, the lowest first.
pub open spec fn element(bytes: Seq<u8>, i: int) -> int {
    bytes[4 * i] + 256 * bytes[4 * i + 1] + 65536 * bytes[4 * i + 2] + 16777216 * bytes[4 * i + 3]
}

/// `v` is the stored vector.
pub open spec fn is_stored_vector(stored: StoredView, v: Seq<u32>) -> bool {
    &&& stored.0 == "F32"@
    &&& stored.1 == seq![v.len() as usize]
    &&& forall|i: int| 0 <= i < v.len() ==> #[trigger] v[i] == element(stored.2, i)
}

/// `w` is the stored matrix, as `[d_sae, d_in]`: it is stored as that, or, if the two
/// sizes differ, as its transpose.
pub open spec fn is_stored_matrix(stored: StoredView, d_sae: int, d_in: int, w: Seq<u32>) -> bool {
    &&& stored.0 == "F32"@
    &&& stored.1.len() == 2
    &&& if stored.1[0] == d_sae && stored.1[1] == d_in {
        forall|f: int, i: int|
            0 <= f < d_sae && 0 <= i < d_in ==> #[trigger] at(w, d_in, f, i) == element(
                stored.2,
                f * d_in + i,
            )
    } else {
        &&& stored.1[0] == d_in && stored.1[1] == d_sae
        &&& forall|f: int, i: int|
            0 <= f < d_sae && 0 <= i < d_in ==> #[trigger] at(w, d_in, f, i) == element(
                stored.2,
                i * d_sae + f,
            )
    }
}

/// The tensor of a name is there and can be read.
pub open spec fn reads(file: Map<Seq<char>, StoredView>, name: Seq<char>) -> bool {
    file.contains_key(name) && file[name].0 == "F32"@ && file[name].2.len() % 4 == 0
}

/// Every vector, and every matrix of `d_sae` by `d_in`, has four bytes for each of its
/// elements. (It does in a file that was parsed.)
pub open spec fn is_whole(file: Map<Seq<char>, StoredView>, d_sae: int, d_in: int) -> bool {
    forall|name: Seq<char>| #[trigger]
        file.contains_key(name) && file[name].0 == "F32"@ ==> {
            &&& file[name].1.len() == 1 ==> file[name].2.len() == 4 * file[name].1[0]
            &&& file[name].1.len() == 2 && ((file[name].1[0] == d_sae && file[name].1[1] == d_in)
                || (file[name].1[0] == d_in && file[name].1[1] == d_sae)) ==> file[name].2.len()
                == 4 * (d_sae * d_in)
        }
}

/// A vector that was read is the stored one.
proof fn lemma_vector(file: Map<Seq<char>, StoredView>, name: Seq<char>, t: (Seq<u32>, Seq<usize>), n: int)
    requires
        f32_tensor(file, name) == Ok::<_, ErrorView>(t),
        t.1.len() == 1,
        t.1[0] == n,
        t.0.len() == n,
    ensures
        reads(file, name),
        is_stored_vector(file[name], t.0),
{
    assert(file[name].1 =~= seq![t.0.len() as usize]);
    assert forall|i: int| 0 <= i < t.0.len() implies #[trigger] t.0[i] == element(
        file[name].2,
        i,
    ) by {
        assert(t.0[i] == words(file[name].2)[i]);
    }
}

/// A matrix that was read and oriented is the stored one.
proof fn lemma_matrix(
    file: Map<Seq<char>, StoredView>,
    name: Seq<char>,
    shown: Seq<char>,
    t: (Seq<u32>, Seq<usize>),
    d_sae: int,
    d_in: int,
    w: Seq<u32>,
)
    requires
        0 <= d_sae,
        0 <= d_in,
        f32_tensor(file, name) == Ok::<_, ErrorView>(t),
        oriented(t.0, t.1, d_sae, d_in, shown) == Ok::<_, ErrorView>(w),
        is_whole(file, d_sae, d_in),
        w.len() == d_sae * d_in,
    ensures
        reads(file, name),
        is_stored_matrix(file[name], d_sae, d_in, w),
{
    let bytes = file[name].2;
    vstd::arithmetic::mul::lemma_mul_is_commutative(d_sae, d_in);
    vstd::arithmetic::mul::lemma_mul_nonnegative(d_sae, d_in);
    assert(file.contains_key(name));
    assert(words(bytes).len() == d_sae * d_in);
    if t.1[0] == d_sae && t.1[1] == d_in {
        assert forall|f: int, i: int| 0 <= f < d_sae && 0 <= i < d_in implies #[trigger] at(
            w,
            d_in,
            f,
            i,
        ) == element(bytes, f * d_in + i) by {
            lemma_cell(d_sae, d_in, f, i);
            assert(words(bytes)[f * d_in + i] == element(bytes, f * d_in + i));
        }
    } else {
        assert forall|f: int, i: int| 0 <= f < d_sae && 0 <= i < d_in implies #[trigger] at(
            w,
            d_in,
            f,
            i,
        ) == element(bytes, i * d_sae + f) by {
            lemma_cell(d_in, d_sae, i, f);
            crate::io::safetensors::transpose_swaps_indices(words(bytes), d_in, d_sae, i, f);
            assert(words(bytes)[i * d_sae + f] == element(bytes, i * d_sae + f));
        }
    }
}

/// `after` is the decoder matrix `before` with the scaling factors of a file folded in.
/// There are some if the tensor `scaling_factor` can be read and has one element per
/// feature; they count unless each of them is within `1e-7` of one, and then row `f`
/// is multiplied by factor `f`. `diffs` are their distances from one.
pub open spec fn folds_in<F: Fn(FloatOp) -> u32>(
    unit: F,
    file: Map<Seq<char>, StoredView>,
    d_sae: int,
    d_in: int,
    before: Seq<u32>,
    after: Seq<u32>,
    diffs: Seq<u32>,
) -> bool {
    let stored = file["scaling_factor"@];
    if reads(file, "scaling_factor"@) && stored.1.len() == 1 && stored.1[0] == d_sae {
        &&& forall|f: int|
            0 <= f < d_sae ==> yields(
                unit,
                FloatOp::Sub(element(stored.2, f) as u32, 0x3f80_0000),
                #[trigger] diffs[f],
            )
        &&& if forall|f: int|
            0 <= f < d_sae ==> greater(0x33d6_bf95, absolute(#[trigger] diffs[f])) {
            after == before
        } else {
            forall|f: int, j: int|
                0 <= f < d_sae && 0 <= j < d_in ==> yields(
                    unit,
                    FloatOp::Mul(at(before, d_in, f, j), element(stored.2, f) as u32),
                    #[trigger] at(after, d_in, f, j),
                )
        }
    } else {
        after == before
    }
}

/// Factors fold in as the file has them.
proof fn lemma_folds_in<F: Fn(FloatOp) -> u32>(
    unit: F,
    file: Map<Seq<char>, StoredView>,
    d_sae: int,
    d_in: int,
    before: Seq<u32>,
    after: Seq<u32>,
) -> (diffs: Seq<u32>)
    requires
        is_whole(file, d_sae, d_in),
        saelens::scaling_folded(
            unit,
            f32_tensor(file, "scaling_factor"@),
            d_sae,
            d_in,
            before,
            after,
        ),
    ensures
        folds_in(unit, file, d_sae, d_in, before, after, diffs),
{
    let name = "scaling_factor"@;
    let stored = file[name];
    if reads(file, name) && stored.1.len() == 1 && stored.1[0] == d_sae {
        assert(file.contains_key(name));
        let v = words(stored.2);
        assert(f32_tensor(file, name) == Ok::<_, ErrorView>((v, stored.1)));
        let ones = choose|ones: bool| #[trigger]
            saelens::near_ones(unit, v, ones) && if ones {
                after == before
            } else {
                saelens::rows_scaled(unit, v, d_sae, d_in, before, after)
            };
        let diffs = choose|diffs: Seq<u32>| #[trigger]
            saelens::distances_of(unit, v, diffs) && ones == (forall|i: int|
                0 <= i < v.len() ==> greater(
                    saelens::ONES_TOLERANCE,
                    absolute(#[trigger] diffs[i]),
                ));
        assert forall|f: int| 0 <= f < d_sae implies yields(
            unit,
            FloatOp::Sub(element(stored.2, f) as u32, 0x3f80_0000),
            #[trigger] diffs[f],
        ) by {
            assert(v[f] == element(stored.2, f));
        }
        if !ones {
            assert forall|f: int, j: int| 0 <= f < d_sae && 0 <= j < d_in implies yields(
                unit,
                FloatOp::Mul(at(before, d_in, f, j), element(stored.2, f) as u32),
                #[trigger] at(after, d_in, f, j),
            ) by {
                assert(v[f] == element(stored.2, f));
            }
        }
        diffs
    } else {
        Seq::empty()
    }
}

/// `norm` is the L2 norm of row `f` of a `[d_sae, d_in]` matrix: the root of the sum,
/// from zero, of the squares of its cells.
pub open spec fn row_norm<F: Fn(FloatOp) -> u32>(
    unit: F,
    w: Seq<u32>,
    d_in: int,
    f: int,
    squares: Seq<u32>,
    sums: Seq<u32>,
    norm: u32,
) -> bool {
    &&& squares.len() == d_in
    &&& forall|j: int|
        0 <= j < d_in ==> yields(
            unit,
            FloatOp::Mul(w[f * d_in + j], w[f * d_in + j]),
            #[trigger] squares[j],
        )
    &&& adds_up(unit, 0, squares, 0, d_in, sums)
    &&& yields(unit, FloatOp::Sqrt(sums.last()), norm)
}

/// The norm of a row, laid out. Where nothing is rounded, its square is the sum of the
/// squares of the row.
pub proof fn decoder_norms_are_row_norms<F: Fn(FloatOp) -> u32>(
    unit: F,
    w: Seq<u32>,
    d_sae: int,
    d_in: int,
    norms: Seq<u32>,
    f: int,
)
    requires
        0 <= d_in,
        w.len() == d_sae * d_in,
        saelens::decoder_norms(unit, w, d_sae, d_in, norms),
        0 <= f < d_sae,
    ensures
        norms.len() == d_sae,
        exists|squares: Seq<u32>, sums: Seq<u32>| #[trigger]
            row_norm(unit, w, d_in, f, squares, sums, norms[f]),
        exact(unit) ==> number(norms[f]) >= 0real && number(norms[f]) * number(norms[f])
            == energy_at(w, f * d_in, d_in),
{
    lemma_row(d_sae, d_in, f);
    let xs = row(w, d_in, f);
    assert(norm_of(unit, xs, norms[f]));
    let (squares, s) = choose|squares: Seq<u32>, s: u32| #[trigger]
        squares_of(unit, xs, squares) && sum(unit, ZERO, squares, s) && #[trigger] yields(
            unit,
            FloatOp::Sqrt(s),
            norms[f],
        );
    let sums = lemma_sum_in_steps(unit, ZERO, squares, s);
    assert forall|j: int| 0 <= j < d_in implies yields(
        unit,
        FloatOp::Mul(w[f * d_in + j], w[f * d_in + j]),
        #[trigger] squares[j],
    ) by {
        assert(squared(unit, xs[j], squares[j]));
    }
    assert(row_norm(unit, w, d_in, f, squares, sums, norms[f]));
    if exact(unit) {
        encodings_order_as_numbers(ZERO, ZERO);
        lemma_added_up(unit, 0, squares, 0, d_in, sums, d_in);
        let sq = |j: int| number(squares[0 + j]);
        let en = |j: int| number(w[f * d_in + j]) * number(w[f * d_in + j]);
        assert forall|j: int| 0 <= j < d_in implies #[trigger] sq(j) == en(j) by {
            assert(yields(unit, FloatOp::Mul(w[f * d_in + j], w[f * d_in + j]), squares[j]));
        }
        lemma_series_congruent(sq, en, d_in);
    }
}

/// The thresholds of a file: the tensor `threshold`, or, if that cannot be read, the
/// tensor `log_threshold`.
pub open spec fn thresholds_from(file: Map<Seq<char>, StoredView>, v: Seq<u32>) -> bool {
    if reads(file, "threshold"@) {
        is_stored_vector(file["threshold"@], v)
    } else {
        reads(file, "log_threshold"@) && is_stored_vector(file["log_threshold"@], v)
    }
}

/// A SAELens model takes its configuration from the `cfg.json`, and its weights from
/// the tensors of their names: the matrices as `[d_sae, d_in]`, whichever way they are
/// stored, with the scaling factors folded into the decoder. Its sparsifier is the
/// ReLU for the standard architecture; TopK with the `k` of the config, with a ReLU if
/// the activation function is `topk_relu`, and with the norms of the decoder rows if
/// the config asks for them; and JumpReLU with the saved thresholds otherwise.
pub proof fn saelens_model_takes_its_parts<F: Fn(FloatOp) -> u32>(
    unit: F,
    file: saelens::RawCfg,
    cfg_path: Seq<char>,
    weights: Seq<u8>,
    sae: Sae,
)
    requires
        saelens::load_error(file, cfg_path, weights) is None,
        saelens::loads(unit, file, cfg_path, weights, sae),
        is_whole(archive(weights)->0, sae.cfg.d_sae as int, sae.cfg.d_in as int),
    ensures
        sae.wf(),
        saelens::config_of(file, cfg_path) == Ok::<_, ErrorView>(sae.cfg),
        archive(weights) is Some,
        sae.enc.layout is RowMajor,
        ({
            let tensors = archive(weights)->0;
            let d_sae = sae.cfg.d_sae as int;
            let d_in = sae.cfg.d_in as int;
            &&& is_stored_matrix(tensors["W_enc"@], d_sae, d_in, sae.enc.w_enc@)
            &&& is_stored_vector(tensors["b_enc"@], sae.enc.b_enc@)
            &&& is_stored_vector(tensors["b_dec"@], sae.dec.b_dec@)
            &&& exists|before: Seq<u32>, diffs: Seq<u32>|
                is_stored_matrix(tensors["W_dec"@], d_sae, d_in, before) && #[trigger] folds_in(
                    unit,
                    tensors,
                    d_sae,
                    d_in,
                    before,
                    sae.dec.w_dec@,
                    diffs,
                )
            &&& match sae.cfg.architecture {
                Architecture::Standard => sae.sparsifier is Relu,
                Architecture::Topk => {
                    &&& sae.sparsifier matches Sparsifier::TopK { k, post_relu, rescale }
                    &&& file.k is Some
                    &&& k == file.k->0 as u32
                    &&& post_relu <==> says(file.activation_fn_str, "topk_relu"@)
                    &&& rescale is Some <==> file.rescale_acts_by_decoder_norm
                    &&& rescale matches Some(norms) ==> saelens::decoder_norms(
                        unit,
                        sae.dec.w_dec@,
                        d_sae,
                        d_in,
                        norms@,
                    )
                },
                Architecture::Jumprelu | Architecture::BatchTopk => {
                    &&& sae.sparsifier matches Sparsifier::JumpReLU { thresholds }
                    &&& thresholds@.len() == d_sae
                    &&& thresholds_from(tensors, thresholds@)
                },
                Architecture::Gated => false,
            }
        }),
{
    let tensors = archive(weights)->0;
    let cfg = saelens::config_of(file, cfg_path)->Ok_0;
    let d_sae = cfg.d_sae as int;
    let d_in = cfg.d_in as int;
    let t = saelens::tensors_of(tensors);
    let w = weights_of(t, false, "W_enc"@, "b_enc"@, cfg)->Ok_0;
    lemma_matrix(tensors, "W_enc"@, "W_enc"@, t.w_enc->Ok_0, d_sae, d_in, w.w_enc);
    lemma_vector(tensors, "b_enc"@, t.b_enc->Ok_0, d_sae);
    lemma_vector(tensors, "b_dec"@, t.b_dec->Ok_0, d_in);
    let diffs = lemma_folds_in(unit, tensors, d_sae, d_in, w.w_dec, sae.dec.w_dec@);
    lemma_oriented_size(tensors, "W_dec"@, t.w_dec->Ok_0, d_sae, d_in, w.w_dec);
    lemma_matrix(tensors, "W_dec"@, "W_dec"@, t.w_dec->Ok_0, d_sae, d_in, w.w_dec);
    assert(folds_in(unit, tensors, d_sae, d_in, w.w_dec, sae.dec.w_dec@, diffs));
    assert(lower("topk_relu"@) =~= "topk_relu"@) by {
        reveal_strlit("topk_relu");
    }
    if cfg.architecture is Jumprelu || cfg.architecture is BatchTopk {
        let v = sae.sparsifier->thresholds@;
        let th = saelens::threshold_of(tensors);
        let name = if reads(tensors, "threshold"@) { "threshold"@ } else { "log_threshold"@ };
        assert(f32_tensor(tensors, name) == th);
        assert(tensors.contains_key(name));
        lemma_vector(tensors, name, th->Ok_0, d_sae);
    }
}

/// An oriented matrix has its size.
proof fn lemma_oriented_size(
    file: Map<Seq<char>, StoredView>,
    name: Seq<char>,
    t: (Seq<u32>, Seq<usize>),
    d_sae: int,
    d_in: int,
    w: Seq<u32>,
)
    requires
        0 <= d_sae,
        0 <= d_in,
        f32_tensor(file, name) == Ok::<_, ErrorView>(t),
        oriented(t.0, t.1, d_sae, d_in, name) == Ok::<_, ErrorView>(w),
        is_whole(file, d_sae, d_in),
    ensures
        w.len() == d_sae * d_in,
{
    vstd::arithmetic::mul::lemma_mul_is_commutative(d_sae, d_in);
    vstd::arithmetic::mul::lemma_mul_nonnegative(d_sae, d_in);
    assert(file.contains_key(name));
}

/// `w` is the encoder's matrix or bias of a file under either of two names: the first,
/// or, if that cannot be read, the second.
pub open spec fn either_name(
    file: Map<Seq<char>, StoredView>,
    first: Seq<char>,
    second: Seq<char>,
) -> Seq<char> {
    if reads(file, first) {
        first
    } else {
        second
    }
}

/// A sparsify model has `d_in * expansion_factor` features, subtracts the decoder bias
/// from its input, normalizes nothing, and keeps the `k` largest pre-activations, with
/// a ReLU unless features are signed. Its weights are the tensors of their names, of
/// which the encoder's may have the SAELens ones.
pub proof fn sparsify_model_takes_its_parts(file: sparsify::RawCfg, weights: Seq<u8>, sae: Sae)
    requires
        sparsify::load_error(file, weights) is None,
        sparsify::assembles(file, sparsify::tensors_of(archive(weights)->0), sae),
        file.d_in * file.expansion_factor <= usize::MAX,
        is_whole(archive(weights)->0, sae.cfg.d_sae as int, sae.cfg.d_in as int),
    ensures
        sae.wf(),
        archive(weights) is Some,
        sae.cfg.architecture is Topk,
        sae.cfg.d_in == file.d_in,
        sae.cfg.d_sae == file.d_in * file.expansion_factor,
        sae.cfg.weight_dtype is F32,
        sae.cfg.apply_b_dec_to_input,
        sae.cfg.normalize_activations is Off,
        sae.cfg.k == Some(file.k),
        !sae.cfg.rescale_by_decoder_norm,
        sae.enc.layout is RowMajor,
        sae.sparsifier matches Sparsifier::TopK { k, post_relu, rescale } && k == file.k as u32
            && post_relu == !file.signed && rescale is None,
        ({
            let tensors = archive(weights)->0;
            let d_sae = sae.cfg.d_sae as int;
            let d_in = sae.cfg.d_in as int;
            let w_name = either_name(tensors, "encoder.weight"@, "W_enc"@);
            let b_name = either_name(tensors, "encoder.bias"@, "b_enc"@);
            &&& is_stored_matrix(tensors[w_name], d_sae, d_in, sae.enc.w_enc@)
            &&& is_stored_vector(tensors[b_name], sae.enc.b_enc@)
            &&& is_stored_matrix(tensors["W_dec"@], d_sae, d_in, sae.dec.w_dec@)
            &&& is_stored_vector(tensors["b_dec"@], sae.dec.b_dec@)
        }),
{
    let tensors = archive(weights)->0;
    let cfg = sparsify::config_of(file);
    let d_sae = cfg.d_sae as int;
    let d_in = cfg.d_in as int;
    let t = sparsify::tensors_of(tensors);
    let w = weights_of(t, true, "encoder.weight"@, "encoder.bias"@, cfg)->Ok_0;
    let w_name = either_name(tensors, "encoder.weight"@, "W_enc"@);
    let b_name = either_name(tensors, "encoder.bias"@, "b_enc"@);
    assert(f32_tensor(tensors, w_name) == t.w_enc);
    assert(f32_tensor(tensors, b_name) == t.b_enc);
    lemma_matrix(tensors, w_name, "encoder.weight"@, t.w_enc->Ok_0, d_sae, d_in, w.w_enc);
    lemma_vector(tensors, b_name, t.b_enc->Ok_0, d_sae);
    lemma_matrix(tensors, "W_dec"@, "W_dec"@, t.w_dec->Ok_0, d_sae, d_in, w.w_dec);
    lemma_vector(tensors, "b_dec"@, t.b_dec->Ok_0, d_in);
}

/// A bare file takes the configuration that it is given. Its weights are the tensors of
/// their names, of which the encoder's may have the sparsify ones. Its sparsifier is the
/// ReLU, TopK with the given `k`, or JumpReLU with the tensor `threshold`.
pub proof fn bare_model_takes_its_parts(path: Seq<char>, cfg: SaeConfig, weights: Seq<u8>, sae: Sae)
    requires
        raw::loads(path, cfg, weights, Ok(sae)),
        is_whole(archive(weights)->0, cfg.d_sae as int, cfg.d_in as int),
    ensures
        sae.wf(),
        archive(weights) is Some,
        sae.cfg == cfg,
        sae.enc.layout is RowMajor,
        ({
            let tensors = archive(weights)->0;
            let d_sae = cfg.d_sae as int;
            let d_in = cfg.d_in as int;
            let w_name = either_name(tensors, "W_enc"@, "encoder.weight"@);
            let b_name = either_name(tensors, "b_enc"@, "encoder.bias"@);
            &&& is_stored_matrix(tensors[w_name], d_sae, d_in, sae.enc.w_enc@)
            &&& is_stored_vector(tensors[b_name], sae.enc.b_enc@)
            &&& is_stored_matrix(tensors["W_dec"@], d_sae, d_in, sae.dec.w_dec@)
            &&& is_stored_vector(tensors["b_dec"@], sae.dec.b_dec@)
            &&& match cfg.architecture {
                Architecture::Standard => sae.sparsifier is Relu,
                Architecture::Topk => cfg.k is Some && (sae.sparsifier matches Sparsifier::TopK {
                    k,
                    post_relu,
                    rescale,
                } && k == cfg.k->0 as u32 && !post_relu && rescale is None),
                Architecture::Jumprelu | Architecture::BatchTopk => (sae.sparsifier matches
                    Sparsifier::JumpReLU { thresholds } && thresholds@.len() == d_sae
                    && is_stored_vector(tensors["threshold"@], thresholds@)),
                Architecture::Gated => false,
            }
        }),
{
    let tensors = archive(weights)->0;
    let d_sae = cfg.d_sae as int;
    let d_in = cfg.d_in as int;
    let t = raw::tensors_of(tensors);
    let w = weights_of(t, true, "W_enc"@, "b_enc"@, cfg)->Ok_0;
    let w_name = either_name(tensors, "W_enc"@, "encoder.weight"@);
    let b_name = either_name(tensors, "b_enc"@, "encoder.bias"@);
    assert(f32_tensor(tensors, w_name) == t.w_enc);
    assert(f32_tensor(tensors, b_name) == t.b_enc);
    lemma_matrix(tensors, w_name, "W_enc"@, t.w_enc->Ok_0, d_sae, d_in, w.w_enc);
    lemma_vector(tensors, b_name, t.b_enc->Ok_0, d_sae);
    lemma_matrix(tensors, "W_dec"@, "W_dec"@, t.w_dec->Ok_0, d_sae, d_in, w.w_dec);
    lemma_vector(tensors, "b_dec"@, t.b_dec->Ok_0, d_in);
    if cfg.architecture is Jumprelu || cfg.architecture is BatchTopk {
        let th = f32_tensor(tensors, "threshold"@);
        assert(tensors.contains_key("threshold"@));
        lemma_vector(tensors, "threshold"@, th->Ok_0, d_sae);
    }
}

/// A matrix shape is `[d_sae, d_in]` or `[d_in, d_sae]`.
pub open spec fn is_matrix_shape(shape: Seq<usize>, d_sae: int, d_in: int) -> bool {
    &&& shape.len() == 2
    &&& (shape[0] == d_sae && shape[1] == d_in) || (shape[0] == d_in && shape[1] == d_sae)
}

/// The four weight tensors of these names can be read and have the shapes of the model.
pub open spec fn weights_fit(
    file: Map<Seq<char>, StoredView>,
    w_enc: Seq<char>,
    b_enc: Seq<char>,
    d_sae: int,
    d_in: int,
) -> bool {
    &&& reads(file, w_enc) && is_matrix_shape(file[w_enc].1, d_sae, d_in)
    &&& reads(file, b_enc) && file[b_enc].1.len() == 1 && file[b_enc].1[0] == d_sae
    &&& reads(file, "W_dec"@) && is_matrix_shape(file["W_dec"@].1, d_sae, d_in)
    &&& reads(file, "b_dec"@) && file["b_dec"@].1.len() == 1 && file["b_dec"@].1[0] == d_in
}

/// A checkpoint loads if and only if its configuration is accepted, its file parses, its
/// four weight tensors can be read and have the right shapes, and it has what its
/// architecture asks for: a `k` for TopK, one threshold per feature for JumpReLU and
/// BatchTopK. Gated checkpoints are refused.
pub proof fn saelens_loads_what_fits(file: saelens::RawCfg, cfg_path: Seq<char>, weights: Seq<u8>)
    ensures
        saelens::load_error(file, cfg_path, weights) is None <==> {
            &&& saelens::config_of(file, cfg_path) matches Ok(cfg)
            &&& archive(weights) matches Some(tensors)
            &&& weights_fit(tensors, "W_enc"@, "b_enc"@, cfg.d_sae as int, cfg.d_in as int)
            &&& match cfg.architecture {
                Architecture::Standard => true,
                Architecture::Topk => cfg.k is Some,
                Architecture::Jumprelu | Architecture::BatchTopk => {
                    let name = either_name(tensors, "threshold"@, "log_threshold"@);
                    reads(tensors, name) && tensors[name].1.len() == 1 && tensors[name].1[0]
                        == cfg.d_sae
                },
                Architecture::Gated => false,
            }
        },
{
}

/// A sparsify checkpoint loads if and only if its file parses and its four weight tensors
/// can be read and have the right shapes.
pub proof fn sparsify_loads_what_fits(file: sparsify::RawCfg, weights: Seq<u8>)
    requires
        file.d_in * file.expansion_factor <= usize::MAX,
    ensures
        sparsify::load_error(file, weights) is None <==> {
            &&& archive(weights) matches Some(tensors)
            &&& weights_fit(
                tensors,
                either_name(tensors, "encoder.weight"@, "W_enc"@),
                either_name(tensors, "encoder.bias"@, "b_enc"@),
                file.d_in * file.expansion_factor,
                file.d_in as int,
            )
        },
{
}

/// A bare file that loads, or not: it is refused if it does not parse, if a weight tensor
/// cannot be read or has another shape, and if the configuration asks for what it does not
/// have.
pub proof fn bare_files_load_what_fits(
    path: Seq<char>,
    cfg: SaeConfig,
    weights: Seq<u8>,
    res: Result<Sae, ErrorView>,
)
    requires
        raw::loads(path, cfg, weights, res),
    ensures
        res is Ok <==> {
            &&& archive(weights) matches Some(tensors)
            &&& weights_fit(
                tensors,
                either_name(tensors, "W_enc"@, "encoder.weight"@),
                either_name(tensors, "b_enc"@, "encoder.bias"@),
                cfg.d_sae as int,
                cfg.d_in as int,
            )
            &&& match cfg.architecture {
                Architecture::Standard => true,
                Architecture::Topk => cfg.k is Some,
                Architecture::Jumprelu | Architecture::BatchTopk => reads(tensors, "threshold"@)
                    && tensors["threshold"@].1.len() == 1 && tensors["threshold"@].1[0]
                    == cfg.d_sae,
                Architecture::Gated => false,
            }
        },
        archive(weights) is None ==> res == Err::<Sae, _>(ErrorView::Safetensors),
{
}

/// What a SAELens checkpoint is refused for, in order: a tensor that is missing, or not in
/// single precision (the encoder's matrix, the decoder's, then the two biases), and then a
/// bias or a matrix of another shape, each with its name.
pub proof fn saelens_is_refused_for(file: saelens::RawCfg, cfg_path: Seq<char>, weights: Seq<u8>)
    requires
        saelens::config_of(file, cfg_path) is Ok,
    ensures
        archive(weights) is None ==> saelens::load_error(file, cfg_path, weights) == Some(
            ErrorView::Safetensors,
        ),
        archive(weights) matches Some(tensors) ==> {
            let cfg = saelens::config_of(file, cfg_path)->Ok_0;
            let e = saelens::load_error(file, cfg_path, weights);
            let shape = |name: Seq<char>, expected: Seq<usize>|
                Some(ErrorView::ShapeMismatch { name, expected, got: tensors[name].1 });
            &&& !tensors.contains_key("W_enc"@) ==> e == Some(ErrorView::MissingTensor("W_enc"@))
            &&& tensors.contains_key("W_enc"@) && tensors["W_enc"@].0 != "F32"@ ==> e == Some(
                ErrorView::UnsupportedDtype(
                    "W_enc"@ + ": expected f32, got "@ + tensors["W_enc"@].0,
                ),
            )
            &&& reads(tensors, "W_enc"@) && !tensors.contains_key("W_dec"@) ==> e == Some(
                ErrorView::MissingTensor("W_dec"@),
            )
            &&& reads(tensors, "W_enc"@) && reads(tensors, "W_dec"@) && !tensors.contains_key(
                "b_enc"@,
            ) ==> e == Some(ErrorView::MissingTensor("b_enc"@))
            &&& reads(tensors, "W_enc"@) && reads(tensors, "W_dec"@) && reads(tensors, "b_enc"@)
                && !tensors.contains_key("b_dec"@) ==> e == Some(ErrorView::MissingTensor("b_dec"@))
            &&& reads(tensors, "W_enc"@) && reads(tensors, "W_dec"@) && reads(tensors, "b_enc"@)
                && reads(tensors, "b_dec"@) ==> {
                let b_enc = tensors["b_enc"@].1.len() == 1 && tensors["b_enc"@].1[0] == cfg.d_sae;
                let b_dec = tensors["b_dec"@].1.len() == 1 && tensors["b_dec"@].1[0] == cfg.d_in;
                let w_enc = is_matrix_shape(
                    tensors["W_enc"@].1,
                    cfg.d_sae as int,
                    cfg.d_in as int,
                );
                let w_dec = is_matrix_shape(
                    tensors["W_dec"@].1,
                    cfg.d_sae as int,
                    cfg.d_in as int,
                );
                &&& !b_enc ==> e == shape("b_enc"@, seq![cfg.d_sae])
                &&& b_enc && !b_dec ==> e == shape("b_dec"@, seq![cfg.d_in])
                &&& b_enc && b_dec && !w_enc ==> e == shape("W_enc"@, seq![cfg.d_sae, cfg.d_in])
                &&& b_enc && b_dec && w_enc && !w_dec ==> e == shape(
                    "W_dec"@,
                    seq![cfg.d_sae, cfg.d_in],
                )
            }
        },
{
}

/// The extensions of files that are recognized are `sit` and `json`, up to ASCII case.
pub proof fn extensions_are_recognized(probe: Probe)
    ensures
        has_extension(probe, "sit"@) <==> (probe.extension matches Some(e) && lower(e@) == "sit"@),
        has_extension(probe, "json"@) <==> (probe.extension matches Some(e) && lower(e@)
            == "json"@),
        "sit"@ == seq!['s', 'i', 't'],
        "json"@ == seq!['j', 's', 'o', 'n'],
{
    reveal_strlit("sit");
    reveal_strlit("json");
    assert(lower("sit"@) =~= "sit"@);
    assert(lower("json"@) =~= "json"@);
    assert("sit"@ =~= seq!['s', 'i', 't']);
    assert("json"@ =~= seq!['j', 's', 'o', 'n']);
}

/// What is wrong with a tensor that cannot be read.
pub open spec fn fault(file: Map<Seq<char>, StoredView>, name: Seq<char>, e: ErrorView) -> bool {
    &&& !file.contains_key(name) ==> e == ErrorView::MissingTensor(name)
    &&& file.contains_key(name) && file[name].0 != "F32"@ ==> e == ErrorView::UnsupportedDtype(
        name + ": expected f32, got "@ + file[name].0,
    )
}

/// The first of four tensors that cannot be read is what a checkpoint is refused for.
pub open spec fn first_fault(
    file: Map<Seq<char>, StoredView>,
    a: Seq<char>,
    b: Seq<char>,
    c: Seq<char>,
    d: Seq<char>,
    e: ErrorView,
) -> bool {
    &&& !reads(file, a) ==> fault(file, a, e)
    &&& reads(file, a) && !reads(file, b) ==> fault(file, b, e)
    &&& reads(file, a) && reads(file, b) && !reads(file, c) ==> fault(file, c, e)
    &&& reads(file, a) && reads(file, b) && reads(file, c) && !reads(file, d) ==> fault(file, d, e)
}

/// The tensors of a checkpoint are read in order, and the first that cannot be read is
/// reported: a SAELens checkpoint reads the two matrices and then the two biases, the
/// others the encoder's matrix and bias and then the decoder's. Under two names, the second
/// is reported.
pub proof fn the_first_unreadable_tensor_is_reported(
    lens: saelens::RawCfg,
    eleuther: sparsify::RawCfg,
    cfg: SaeConfig,
    path: Seq<char>,
    weights: Seq<u8>,
    res: Result<Sae, ErrorView>,
)
    requires
        archive(weights) is Some,
        raw::loads(path, cfg, weights, res),
    ensures
        ({
            let file = archive(weights)->0;
            &&& saelens::config_of(lens, path) is Ok ==> (saelens::load_error(
                lens,
                path,
                weights,
            ) matches Some(e) ==> first_fault(
                file,
                "W_enc"@,
                "W_dec"@,
                "b_enc"@,
                "b_dec"@,
                e,
            ))
            &&& sparsify::load_error(eleuther, weights) matches Some(e) ==> first_fault(
                file,
                either_name(file, "encoder.weight"@, "W_enc"@),
                either_name(file, "encoder.bias"@, "b_enc"@),
                "W_dec"@,
                "b_dec"@,
                e,
            )
            &&& res matches Err(e) ==> first_fault(
                file,
                either_name(file, "W_enc"@, "encoder.weight"@),
                either_name(file, "b_enc"@, "encoder.bias"@),
                "W_dec"@,
                "b_dec"@,
                e,
            )
        }),
{
}

/// What a checkpoint whose weights fit is refused for: a TopK configuration without a `k`,
/// a gated one, and thresholds that cannot be read or are not one per feature.
pub proof fn sparsifiers_are_refused_for(
    lens: saelens::RawCfg,
    cfg_path: Seq<char>,
    cfg: SaeConfig,
    path: Seq<char>,
    weights: Seq<u8>,
    res: Result<Sae, ErrorView>,
)
    requires
        archive(weights) is Some,
        raw::loads(path, cfg, weights, res),
    ensures
        ({
            let file = archive(weights)->0;
            let threshold = |name: Seq<char>, d_sae: usize, e: ErrorView|
                {
                    &&& !reads(file, name) ==> fault(file, name, e)
                    &&& reads(file, name) ==> e == (ErrorView::ShapeMismatch {
                        name: "threshold"@,
                        expected: seq![d_sae],
                        got: file[name].1,
                    })
                };
            &&& saelens::config_of(lens, cfg_path) matches Ok(c) ==> weights_fit(
                file,
                "W_enc"@,
                "b_enc"@,
                c.d_sae as int,
                c.d_in as int,
            ) ==> (saelens::load_error(lens, cfg_path, weights) matches Some(e) ==> match c.architecture {
                Architecture::Standard => false,
                Architecture::Topk => e == (ErrorView::InvalidCheckpoint {
                    path: cfg_path,
                    reason: "topk arch missing k"@,
                }),
                Architecture::Jumprelu | Architecture::BatchTopk => threshold(
                    either_name(file, "threshold"@, "log_threshold"@),
                    c.d_sae,
                    e,
                ),
                Architecture::Gated => e == ErrorView::UnknownArchitecture(
                    "gated SAEs are not implemented in v0"@,
                ),
            })
            &&& weights_fit(
                file,
                either_name(file, "W_enc"@, "encoder.weight"@),
                either_name(file, "b_enc"@, "encoder.bias"@),
                cfg.d_sae as int,
                cfg.d_in as int,
            ) ==> (res matches Err(e) ==> match cfg.architecture {
                Architecture::Standard => false,
                Architecture::Topk => e == (ErrorView::InvalidCheckpoint {
                    path,
                    reason: "topk arch requires `k` in SaeConfig"@,
                }),
                Architecture::Jumprelu | Architecture::BatchTopk => threshold(
                    "threshold"@,
                    cfg.d_sae,
                    e,
                ),
                Architecture::Gated => e == ErrorView::UnknownArchitecture(
                    "gated SAEs not supported in v0"@,
                ),
            })
        }),
{
}

} // verus!
