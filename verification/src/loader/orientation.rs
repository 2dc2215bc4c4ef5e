//! The orientation in which a checkpoint stores its weight matrices does not
//! matter.

use vstd::prelude::*;

use crate::bits::{absolute, deterministic, greater, yields, FloatOp, ONE};
use crate::config::SaeConfig;
use crate::index::{at, lemma_position, row};
use crate::io::bytes::words;
use crate::io::safetensors::{archive, f32_tensor, transposed, StoredView, TensorView};
use crate::loader::{
    orientation_does_not_matter, oriented, raw, saelens, sparsify, weights_of, TensorsView,
};
use crate::normalize::{lemma_norm_unique, norm_of};
use crate::sae::Sae;
use crate::sparsify::{same_sparsifier, Sparsifier};

verus! {

/// `b` is the `[d_sae, d_in]` matrix `a`, stored as `[d_in, d_sae]`.
pub open spec fn turned(a: StoredView, b: StoredView, d_sae: usize, d_in: usize) -> bool {
    &&& a.0 == "F32"@
    &&& b.0 == "F32"@
    &&& a.1 == seq![d_sae, d_in]
    &&& b.1 == seq![d_in, d_sae]
    &&& a.2.len() == 4 * (d_sae * d_in)
    &&& b.2.len() == a.2.len()
    &&& words(b.2) == transposed(words(a.2), d_sae as int, d_in as int)
}

/// A weight matrix has this name.
pub open spec fn is_matrix(name: Seq<char>) -> bool {
    name == "W_enc"@ || name == "encoder.weight"@ || name == "W_dec"@
}

/// Two files hold the same tensors, but that each may store some of the weight
/// matrices turned.
pub open spec fn same_but_turned(
    a: Map<Seq<char>, StoredView>,
    b: Map<Seq<char>, StoredView>,
    d_sae: usize,
    d_in: usize,
) -> bool {
    &&& a.dom() == b.dom()
    &&& forall|name: Seq<char>| #[trigger]
        a.contains_key(name) ==> a[name] == b[name] || (is_matrix(name) && (turned(
            a[name],
            b[name],
            d_sae,
            d_in,
        ) || turned(b[name], a[name], d_sae, d_in)))
}

/// Two reads of a weight matrix come to the same.
spec fn alike(a: TensorView, b: TensorView, d_sae: usize, d_in: usize) -> bool {
    a == b || (a is Ok && b is Ok && forall|name: Seq<char>| #[trigger]
        oriented(a->Ok_0.0, a->Ok_0.1, d_sae as int, d_in as int, name) == oriented(
            b->Ok_0.0,
            b->Ok_0.1,
            d_sae as int,
            d_in as int,
            name,
        ))
}

/// The other tensors that loaders read have names of their own.
proof fn lemma_vector_names()
    ensures
        !is_matrix("b_enc"@),
        !is_matrix("b_dec"@),
        !is_matrix("encoder.bias"@),
        !is_matrix("scaling_factor"@),
        !is_matrix("threshold"@),
        !is_matrix("log_threshold"@),
{
    reveal_strlit("W_enc");
    reveal_strlit("W_dec");
    reveal_strlit("encoder.weight");
    reveal_strlit("b_enc");
    reveal_strlit("b_dec");
    reveal_strlit("encoder.bias");
    reveal_strlit("scaling_factor");
    reveal_strlit("threshold");
    reveal_strlit("log_threshold");
    assert("W_enc"@[0] == 'W' && "W_dec"@[0] == 'W' && "encoder.weight"@[0] == 'e');
    assert("b_enc"@[0] == 'b' && "b_dec"@[0] == 'b' && "scaling_factor"@[0] == 's');
    assert("encoder.weight"@.len() == 14 && "W_enc"@.len() == 5 && "W_dec"@.len() == 5);
    assert("encoder.bias"@.len() == 12 && "threshold"@.len() == 9 && "log_threshold"@.len() == 13);
}

/// A turned matrix reads as the matrix does.
proof fn lemma_turned(a: StoredView, b: StoredView, d_sae: usize, d_in: usize, name: Seq<char>)
    requires
        turned(a, b, d_sae, d_in),
        d_sae != d_in,
    ensures
        oriented(words(a.2), a.1, d_sae as int, d_in as int, name) == oriented(
            words(b.2),
            b.1,
            d_sae as int,
            d_in as int,
            name,
        ),
{
    orientation_does_not_matter(words(a.2), d_sae, d_in, name);
}

/// A tensor reads alike from two files that are the same but for turned matrices.
proof fn lemma_reads_alike(
    a: Map<Seq<char>, StoredView>,
    b: Map<Seq<char>, StoredView>,
    d_sae: usize,
    d_in: usize,
    name: Seq<char>,
)
    requires
        same_but_turned(a, b, d_sae, d_in),
        d_sae != d_in,
    ensures
        alike(f32_tensor(a, name), f32_tensor(b, name), d_sae, d_in),
        !is_matrix(name) ==> f32_tensor(a, name) == f32_tensor(b, name),
{
    assert(a.contains_key(name) == b.contains_key(name));
    if a.contains_key(name) && a[name] != b[name] {
        let ta = f32_tensor(a, name);
        let tb = f32_tensor(b, name);
        assert forall|n: Seq<char>| #[trigger]
            oriented(ta->Ok_0.0, ta->Ok_0.1, d_sae as int, d_in as int, n) == oriented(
                tb->Ok_0.0,
                tb->Ok_0.1,
                d_sae as int,
                d_in as int,
                n,
            ) by {
            if turned(a[name], b[name], d_sae, d_in) {
                lemma_turned(a[name], b[name], d_sae, d_in, n);
            } else {
                lemma_turned(b[name], a[name], d_sae, d_in, n);
            }
        }
    }
}

/// Tensors that come to the same make the same weights.
proof fn lemma_weights_alike(
    a: TensorsView,
    b: TensorsView,
    bias_first: bool,
    w_name: Seq<char>,
    b_name: Seq<char>,
    cfg: SaeConfig,
)
    requires
        alike(a.w_enc, b.w_enc, cfg.d_sae, cfg.d_in),
        alike(a.w_dec, b.w_dec, cfg.d_sae, cfg.d_in),
        a.b_enc == b.b_enc,
        a.b_dec == b.b_dec,
    ensures
        weights_of(a, bias_first, w_name, b_name, cfg) == weights_of(
            b,
            bias_first,
            w_name,
            b_name,
            cfg,
        ),
{
}

/// SAELens checkpoints that differ in the orientation of their matrices alone
/// load alike: both or neither, and to the same model.
pub proof fn saelens_orientation_does_not_matter<F: Fn(FloatOp) -> u32>(
    unit: F,
    raw: saelens::RawCfg,
    cfg_path: Seq<char>,
    a: Seq<u8>,
    b: Seq<u8>,
    sae: Sae,
    other: Sae,
)
    requires
        archive(a) is Some,
        archive(b) is Some,
        saelens::config_of(raw, cfg_path) matches Ok(cfg) ==> cfg.d_sae != cfg.d_in
            && same_but_turned(archive(a)->0, archive(b)->0, cfg.d_sae, cfg.d_in),
    ensures
        saelens::load_error(raw, cfg_path, a) == saelens::load_error(raw, cfg_path, b),
        saelens::load_error(raw, cfg_path, a) is None ==> (saelens::loads(
            unit,
            raw,
            cfg_path,
            a,
            sae,
        ) <==> saelens::loads(unit, raw, cfg_path, b, sae)),
        saelens::load_error(raw, cfg_path, a) is None && saelens::loads(unit, raw, cfg_path, a, sae)
            && saelens::loads(unit, raw, cfg_path, b, other) ==> {
            &&& sae.enc.w_enc@ == other.enc.w_enc@
            &&& sae.enc.b_enc@ == other.enc.b_enc@
            &&& sae.dec.b_dec@ == other.dec.b_dec@
            &&& deterministic(unit) ==> sae.dec.w_dec@ == other.dec.w_dec@ && same_sparsifier(
                sae.sparsifier,
                other.sparsifier,
            )
        },
{
    if let Ok(cfg) = saelens::config_of(raw, cfg_path) {
        let fa = archive(a)->0;
        let fb = archive(b)->0;
        lemma_vector_names();
        lemma_reads_alike(fa, fb, cfg.d_sae, cfg.d_in, "W_enc"@);
        lemma_reads_alike(fa, fb, cfg.d_sae, cfg.d_in, "W_dec"@);
        lemma_reads_alike(fa, fb, cfg.d_sae, cfg.d_in, "b_enc"@);
        lemma_reads_alike(fa, fb, cfg.d_sae, cfg.d_in, "b_dec"@);
        lemma_reads_alike(fa, fb, cfg.d_sae, cfg.d_in, "scaling_factor"@);
        lemma_reads_alike(fa, fb, cfg.d_sae, cfg.d_in, "threshold"@);
        lemma_reads_alike(fa, fb, cfg.d_sae, cfg.d_in, "log_threshold"@);
        lemma_weights_alike(
            saelens::tensors_of(fa),
            saelens::tensors_of(fb),
            false,
            "W_enc"@,
            "b_enc"@,
            cfg,
        );
        if saelens::load_error(raw, cfg_path, a) is None && saelens::loads(
            unit,
            raw,
            cfg_path,
            a,
            sae,
        ) && saelens::loads(unit, raw, cfg_path, b, other) && deterministic(unit) {
            loading_is_unique(unit, raw, cfg_path, a, sae, other);
        }
    }
}

/// Sparsify checkpoints that differ in the orientation of their matrices alone
/// load alike.
pub proof fn sparsify_orientation_does_not_matter(
    raw: sparsify::RawCfg,
    a: Seq<u8>,
    b: Seq<u8>,
    sae: Sae,
)
    requires
        archive(a) is Some,
        archive(b) is Some,
        sparsify::config_of(raw).d_sae != raw.d_in,
        same_but_turned(archive(a)->0, archive(b)->0, sparsify::config_of(raw).d_sae, raw.d_in),
    ensures
        sparsify::load_error(raw, a) == sparsify::load_error(raw, b),
        sparsify::assembles(raw, sparsify::tensors_of(archive(a)->0), sae)
            <==> sparsify::assembles(raw, sparsify::tensors_of(archive(b)->0), sae),
{
    let cfg = sparsify::config_of(raw);
    let fa = archive(a)->0;
    let fb = archive(b)->0;
    lemma_vector_names();
    lemma_reads_alike(fa, fb, cfg.d_sae, cfg.d_in, "W_enc"@);
    lemma_reads_alike(fa, fb, cfg.d_sae, cfg.d_in, "encoder.weight"@);
    lemma_reads_alike(fa, fb, cfg.d_sae, cfg.d_in, "W_dec"@);
    lemma_reads_alike(fa, fb, cfg.d_sae, cfg.d_in, "b_enc"@);
    lemma_reads_alike(fa, fb, cfg.d_sae, cfg.d_in, "encoder.bias"@);
    lemma_reads_alike(fa, fb, cfg.d_sae, cfg.d_in, "b_dec"@);
    lemma_weights_alike(
        sparsify::tensors_of(fa),
        sparsify::tensors_of(fb),
        true,
        "encoder.weight"@,
        "encoder.bias"@,
        cfg,
    );
}

/// Bare files that differ in the orientation of their matrices alone load alike.
pub proof fn raw_orientation_does_not_matter(
    path: Seq<char>,
    cfg: SaeConfig,
    a: Seq<u8>,
    b: Seq<u8>,
    res: Result<Sae, crate::error::ErrorView>,
)
    requires
        archive(a) is Some,
        archive(b) is Some,
        cfg.d_sae != cfg.d_in,
        same_but_turned(archive(a)->0, archive(b)->0, cfg.d_sae, cfg.d_in),
    ensures
        raw::loads(path, cfg, a, res) <==> raw::loads(path, cfg, b, res),
{
    let fa = archive(a)->0;
    let fb = archive(b)->0;
    lemma_vector_names();
    lemma_reads_alike(fa, fb, cfg.d_sae, cfg.d_in, "W_enc"@);
    lemma_reads_alike(fa, fb, cfg.d_sae, cfg.d_in, "encoder.weight"@);
    lemma_reads_alike(fa, fb, cfg.d_sae, cfg.d_in, "W_dec"@);
    lemma_reads_alike(fa, fb, cfg.d_sae, cfg.d_in, "b_enc"@);
    lemma_reads_alike(fa, fb, cfg.d_sae, cfg.d_in, "encoder.bias"@);
    lemma_reads_alike(fa, fb, cfg.d_sae, cfg.d_in, "b_dec"@);
    lemma_reads_alike(fa, fb, cfg.d_sae, cfg.d_in, "threshold"@);
    lemma_weights_alike(
        raw::tensors_of(fa),
        raw::tensors_of(fb),
        true,
        "W_enc"@,
        "b_enc"@,
        cfg,
    );
}

/// Numbers are near one or not, on a deterministic unit.
proof fn lemma_near_ones_unique<F: Fn(FloatOp) -> u32>(unit: F, v: Seq<u32>, p: bool, q: bool)
    requires
        deterministic(unit),
        saelens::near_ones(unit, v, p),
        saelens::near_ones(unit, v, q),
    ensures
        p == q,
{
    let a = choose|diffs: Seq<u32>| #[trigger]
        saelens::distances_of(unit, v, diffs) && p == (forall|i: int|
            0 <= i < v.len() ==> greater(saelens::ONES_TOLERANCE, absolute(#[trigger] diffs[i])));
    let b = choose|diffs: Seq<u32>| #[trigger]
        saelens::distances_of(unit, v, diffs) && q == (forall|i: int|
            0 <= i < v.len() ==> greater(saelens::ONES_TOLERANCE, absolute(#[trigger] diffs[i])));
    assert forall|i: int| 0 <= i < v.len() implies a[i] == b[i] by {
        assert(yields(unit, FloatOp::Sub(v[i], ONE), a[i]));
        assert(yields(unit, FloatOp::Sub(v[i], ONE), b[i]));
    }
    assert(a =~= b);
}

/// Scaling factors fold into a matrix in one way, on a deterministic unit.
proof fn lemma_scaling_unique<F: Fn(FloatOp) -> u32>(
    unit: F,
    scaling: TensorView,
    d_sae: int,
    d_in: int,
    before: Seq<u32>,
    a: Seq<u32>,
    b: Seq<u32>,
)
    requires
        deterministic(unit),
        0 <= d_sae,
        0 <= d_in,
        before.len() == d_sae * d_in,
        saelens::scaling_folded(unit, scaling, d_sae, d_in, before, a),
        saelens::scaling_folded(unit, scaling, d_sae, d_in, before, b),
    ensures
        a == b,
{
    if scaling is Ok && crate::loader::vector_of(scaling->Ok_0.1, d_sae, Seq::empty()) is None {
        let s = scaling->Ok_0.0;
        let p = choose|ones: bool| #[trigger]
            saelens::near_ones(unit, s, ones) && if ones {
                a == before
            } else {
                saelens::rows_scaled(unit, s, d_sae, d_in, before, a)
            };
        let q = choose|ones: bool| #[trigger]
            saelens::near_ones(unit, s, ones) && if ones {
                b == before
            } else {
                saelens::rows_scaled(unit, s, d_sae, d_in, before, b)
            };
        lemma_near_ones_unique(unit, s, p, q);
        if !p {
            assert forall|c: int| 0 <= c < a.len() implies a[c] == b[c] by {
                lemma_position(d_sae, d_in, c);
                let f = c / d_in;
                let j = c % d_in;
                let op = FloatOp::Mul(at(before, d_in, f, j), s[f]);
                assert(yields(unit, op, at(a, d_in, f, j)));
                assert(yields(unit, op, at(b, d_in, f, j)));
            }
            assert(a =~= b);
        }
    }
}

/// A SAELens checkpoint loads to one model, on a deterministic unit.
pub proof fn loading_is_unique<F: Fn(FloatOp) -> u32>(
    unit: F,
    raw: saelens::RawCfg,
    cfg_path: Seq<char>,
    weights: Seq<u8>,
    a: Sae,
    b: Sae,
)
    requires
        deterministic(unit),
        saelens::load_error(raw, cfg_path, weights) is None,
        saelens::loads(unit, raw, cfg_path, weights, a),
        saelens::loads(unit, raw, cfg_path, weights, b),
    ensures
        a.cfg == b.cfg,
        a.enc.layout == b.enc.layout,
        a.enc.w_enc@ == b.enc.w_enc@,
        a.enc.b_enc@ == b.enc.b_enc@,
        a.dec.w_dec@ == b.dec.w_dec@,
        a.dec.b_dec@ == b.dec.b_dec@,
        same_sparsifier(a.sparsifier, b.sparsifier),
{
    let cfg = saelens::config_of(raw, cfg_path)->Ok_0;
    let file = archive(weights)->0;
    let w = weights_of(saelens::tensors_of(file), false, "W_enc"@, "b_enc"@, cfg)->Ok_0;
    let d_sae = cfg.d_sae as int;
    let d_in = cfg.d_in as int;
    let scaling = f32_tensor(file, "scaling_factor"@);
    assert(a.dec.w_dec@.len() == w.w_dec.len());
    lemma_scaling_unique(unit, scaling, d_sae, d_in, w.w_dec, a.dec.w_dec@, b.dec.w_dec@);
    if let (
        Sparsifier::TopK { rescale: Some(p), .. },
        Sparsifier::TopK { rescale: Some(q), .. },
    ) = (a.sparsifier, b.sparsifier) {
        assert forall|f: int| 0 <= f < d_sae implies p@[f] == q@[f] by {
            let cells = row(a.dec.w_dec@, d_in, f);
            assert(norm_of(unit, cells, p@[f]));
            assert(norm_of(unit, cells, q@[f]));
            lemma_norm_unique(unit, cells, p@[f], q@[f]);
        }
        assert(p@ =~= q@);
    }
}

} // verus!
