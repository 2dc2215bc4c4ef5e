//! Models that compute alike.
//!
//! The statements hold on any arithmetic unit: what one model may compute, the
//! other may, by the same operations. On a unit that gives one answer to each
//! operation the outputs are then equal.

use vstd::prelude::*;

use crate::bits::{deterministic, FloatOp};
use crate::config::{NormalizeMode, SaeConfig};
use crate::independence::{features_are_unique, same_output};
use crate::index::{at, row};
use crate::kernels::decoder::{decoded, decodes, gathered};
use crate::kernels::encoder::{encoded, encodes};
use crate::kernels::topk::{implementations_select_alike, ranking, TopkFn};
use crate::kernels::topk_heap::selects;
use crate::kernels::Backend;
use crate::normalize::{normalizes, rows_normalize_alone};
use crate::sae::{shifted, DecoderWeights, EncoderWeights, Sae, SparseOut};
use crate::sparsify::{kept, lists, row_result, same_sparsifier, scaled, tile_result, Sparsifier};

verus! {

/// Two encoders have the same shape, biases and encoder directions.
pub open spec fn same_encoder(a: EncoderWeights, b: EncoderWeights) -> bool {
    &&& a.d_in == b.d_in
    &&& a.d_sae == b.d_sae
    &&& a.b_enc@ == b.b_enc@
    &&& forall|f: int| 0 <= f < a.d_sae ==> #[trigger] a.direction(f) == b.direction(f)
}

/// Two models have the same encoder, decoder and sparsifier, and run on the same
/// kernels: on those of one backend, and, where it is not scalar, over one layout.
pub open spec fn same_parts(a: Sae, b: Sae) -> bool {
    &&& same_encoder(a.enc, b.enc)
    &&& a.enc.layout == b.enc.layout || a.backend is Scalar
    &&& a.dec.d_in == b.dec.d_in
    &&& a.dec.w_dec@ == b.dec.w_dec@
    &&& a.dec.b_dec@ == b.dec.b_dec@
    &&& same_sparsifier(a.sparsifier, b.sparsifier)
    &&& a.backend == b.backend
    &&& a.topk == b.topk
}

/// What one encoder computes, an encoder like it computes.
proof fn lemma_same_encoding<F: Fn(FloatOp) -> u32>(
    unit: F,
    backend: Backend,
    a: EncoderWeights,
    b: EncoderWeights,
    x: Seq<u32>,
    batch: int,
    pre: Seq<u32>,
)
    requires
        same_encoder(a, b),
        a.layout == b.layout || backend is Scalar,
        encodes(unit, backend, a, x, batch, pre),
    ensures
        encodes(unit, backend, b, x, batch, pre),
{
    assert forall|i: int, f: int| 0 <= i < batch && 0 <= f < b.d_sae implies encoded(
        unit,
        backend,
        b,
        x,
        batch,
        i,
        f,
        #[trigger] at(pre, b.d_sae as int, i, f),
    ) by {
        assert(encoded(unit, backend, a, x, batch, i, f, at(pre, a.d_sae as int, i, f)));
        assert(a.direction(f) == b.direction(f));
    }
}

/// What one sparsifier makes of a row, a sparsifier like it makes of it.
proof fn lemma_same_row_result<F: Fn(FloatOp) -> u32>(
    unit: F,
    a: Sparsifier,
    b: Sparsifier,
    choice: TopkFn,
    xs: Seq<u32>,
    ys: Seq<u32>,
    pairs: Seq<(u32, u32)>,
)
    requires
        same_sparsifier(a, b),
        row_result(unit, a, choice, xs, ys, pairs),
    ensures
        row_result(unit, b, choice, xs, ys, pairs),
{
    match (a, b) {
        (
            Sparsifier::TopK { k, post_relu, rescale: ra },
            Sparsifier::TopK { k: _, post_relu: _, rescale: rb },
        ) => {
            assert(scaled(unit, ra, xs, ys));
            assert(scaled(unit, rb, xs, ys));
            let sel = choose|sel: Seq<(u32, u32)>| #[trigger]
                selects(ranking(choice), ys, k as int, sel) && pairs == kept(sel, post_relu);
            assert(selects(ranking(choice), ys, k as int, sel));
        },
        _ => {},
    }
}

/// What one model makes of a prepared batch, a model like it makes of it.
proof fn lemma_same_features<F: Fn(FloatOp) -> u32>(
    a: Sae,
    b: Sae,
    unit: F,
    batch: int,
    prep: Seq<u32>,
    pre: Seq<u32>,
    post: Seq<u32>,
    rows: Seq<Seq<(u32, u32)>>,
)
    requires
        same_parts(a, b),
        a.cfg.d_sae == b.cfg.d_sae,
        encodes(unit, a.backend, a.enc, prep, batch, pre),
        tile_result(unit, a.sparsifier, a.topk, a.cfg.d_sae as int, batch, pre, post, rows),
    ensures
        encodes(unit, b.backend, b.enc, prep, batch, pre),
        tile_result(unit, b.sparsifier, b.topk, b.cfg.d_sae as int, batch, pre, post, rows),
{
    let d_sae = a.cfg.d_sae as int;
    lemma_same_encoding(unit, a.backend, a.enc, b.enc, prep, batch, pre);
    assert forall|r: int| 0 <= r < batch implies row_result(
        unit,
        b.sparsifier,
        b.topk,
        row(pre, d_sae, r),
        row(post, d_sae, r),
        #[trigger] rows[r],
    ) by {
        lemma_same_row_result(
            unit,
            a.sparsifier,
            b.sparsifier,
            a.topk,
            row(pre, d_sae, r),
            row(post, d_sae, r),
            rows[r],
        );
    }
}

/// What one model encodes a batch to, a model like it encodes it to.
proof fn lemma_encodes_alike<F: Fn(FloatOp) -> u32>(
    a: Sae,
    b: Sae,
    unit: F,
    x: Seq<u32>,
    batch: int,
    z: SparseOut,
)
    requires
        same_parts(a, b),
        a.cfg == b.cfg,
        a.features_of(unit, x, batch, z),
    ensures
        b.features_of(unit, x, batch, z),
{
    let (prep, pre, post, rows) = choose|
        prep: Seq<u32>,
        pre: Seq<u32>,
        post: Seq<u32>,
        rows: Seq<Seq<(u32, u32)>>,
    | #[trigger]
        a.activates(unit, x, batch, prep, pre, post, rows) && lists(rows, z);
    let mid = choose|mid: Seq<u32>| #[trigger]
        normalizes(unit, a.cfg.normalize_activations, x, batch, a.cfg.d_in as int, mid)
            && if a.cfg.apply_b_dec_to_input {
            shifted(unit, a.dec.b_dec@, batch, mid, prep)
        } else {
            prep == mid
        };
    assert(normalizes(unit, b.cfg.normalize_activations, x, batch, b.cfg.d_in as int, mid));
    assert(b.prepares(unit, x, batch, prep));
    lemma_same_features(a, b, unit, batch, prep, pre, post, rows);
    assert(b.activates(unit, x, batch, prep, pre, post, rows));
}

/// Models with the same configuration and the same parts encode alike: what one
/// leaves in an output, the other may, and on a deterministic unit the outputs
/// are equal.
pub proof fn same_models_encode_alike<F: Fn(FloatOp) -> u32>(
    a: Sae,
    b: Sae,
    unit: F,
    x: Seq<u32>,
    batch: int,
    za: SparseOut,
    zb: SparseOut,
)
    requires
        a.wf(),
        same_parts(a, b),
        a.cfg == b.cfg,
        a.cfg.d_sae <= u32::MAX,
        0 <= batch,
        x.len() == batch * a.cfg.d_in,
    ensures
        a.features_of(unit, x, batch, za) <==> b.features_of(unit, x, batch, za),
        deterministic(unit) && a.features_of(unit, x, batch, za) && b.features_of(
            unit,
            x,
            batch,
            zb,
        ) ==> same_output(za, zb),
{
    assert(same_parts(b, a));
    if a.features_of(unit, x, batch, za) {
        lemma_encodes_alike(a, b, unit, x, batch, za);
    }
    if b.features_of(unit, x, batch, za) {
        lemma_encodes_alike(b, a, unit, x, batch, za);
    }
    if deterministic(unit) && a.features_of(unit, x, batch, za) && b.features_of(
        unit,
        x,
        batch,
        zb,
    ) {
        lemma_encodes_alike(b, a, unit, x, batch, zb);
        features_are_unique(a, unit, x, batch, za, zb);
    }
}

/// What one decoder computes, a decoder with the same weights computes.
pub proof fn same_decoders_decode_alike<F: Fn(FloatOp) -> u32>(
    a: DecoderWeights,
    b: DecoderWeights,
    unit: F,
    z: SparseOut,
    out: Seq<u32>,
)
    requires
        a.d_in == b.d_in,
        a.w_dec@ == b.w_dec@,
        a.b_dec@ == b.b_dec@,
    ensures
        decodes(unit, a, z, out) <==> decodes(unit, b, z, out),
{
    assert forall|f: Seq<u32>, v: Seq<u32>, j: int, r: u32| #[trigger]
        decoded(unit, a, f, v, j, r) == decoded(unit, b, f, v, j, r) by {
        assert(gathered(a, f, j) =~= gathered(b, f, j));
    }
    if decodes(unit, a, z, out) {
        assert forall|i: int, j: int| 0 <= i < z.rows() && 0 <= j < b.d_in implies decoded(
            unit,
            b,
            z.features(i),
            z.activations(i),
            j,
            #[trigger] at(out, b.d_in as int, i, j),
        ) by {
            assert(decoded(
                unit,
                a,
                z.features(i),
                z.activations(i),
                j,
                at(out, a.d_in as int, i, j),
            ));
        }
    }
    if decodes(unit, b, z, out) {
        assert forall|i: int, j: int| 0 <= i < z.rows() && 0 <= j < a.d_in implies decoded(
            unit,
            a,
            z.features(i),
            z.activations(i),
            j,
            #[trigger] at(out, a.d_in as int, i, j),
        ) by {
            assert(decoded(
                unit,
                a,
                z.features(i),
                z.activations(i),
                j,
                at(out, a.d_in as int, i, j),
            ) == decoded(
                unit,
                b,
                z.features(i),
                z.activations(i),
                j,
                at(out, b.d_in as int, i, j),
            ));
        }
    }
}

/// `b` is the model `a` without normalization and without the shift of the input
/// by the decoder bias.
pub open spec fn is_bare(a: Sae, b: Sae) -> bool {
    &&& b.cfg == (SaeConfig {
        apply_b_dec_to_input: false,
        normalize_activations: NormalizeMode::Off,
        ..a.cfg
    })
    &&& same_parts(a, b)
}

/// A bare model takes its input as it is.
proof fn lemma_bare_input<F: Fn(FloatOp) -> u32>(
    b: Sae,
    unit: F,
    y: Seq<u32>,
    batch: int,
    prep: Seq<u32>,
)
    requires
        !b.cfg.apply_b_dec_to_input,
        b.cfg.normalize_activations is Off,
        0 <= batch,
        y.len() == batch * b.cfg.d_in,
    ensures
        b.prepares(unit, y, batch, prep) <==> prep == y,
{
    let d_in = b.cfg.d_in as int;
    let mode = b.cfg.normalize_activations;
    rows_normalize_alone(unit, mode, d_in, y, batch, y);
    assert(normalizes(unit, mode, y, batch, d_in, y));
    if b.prepares(unit, y, batch, prep) {
        let mid = choose|mid: Seq<u32>| #[trigger]
            normalizes(unit, mode, y, batch, d_in, mid) && prep == mid;
        rows_normalize_alone(unit, mode, d_in, y, batch, mid);
    }
}

/// The input is normalized, then shifted by the decoder bias, then encoded:
/// encoding a batch is preparing it, and encoding what was prepared on the bare
/// model. On a deterministic unit the two outputs are equal.
pub proof fn preparation_comes_first<F: Fn(FloatOp) -> u32>(
    a: Sae,
    b: Sae,
    unit: F,
    x: Seq<u32>,
    batch: int,
    y: Seq<u32>,
    za: SparseOut,
    zb: SparseOut,
)
    requires
        a.wf(),
        is_bare(a, b),
        a.cfg.d_sae <= u32::MAX,
        0 <= batch,
        x.len() == batch * a.cfg.d_in,
    ensures
        a.features_of(unit, x, batch, za) <==> exists|prep: Seq<u32>| #[trigger]
            a.prepares(unit, x, batch, prep) && b.features_of(unit, prep, batch, za),
        deterministic(unit) && a.prepares(unit, x, batch, y) && a.features_of(unit, x, batch, za)
            && b.features_of(unit, y, batch, zb) ==> same_output(za, zb),
{
    assert(same_parts(b, a));
    if a.features_of(unit, x, batch, za) {
        let (prep, pre, post, rows) = choose|
            prep: Seq<u32>,
            pre: Seq<u32>,
            post: Seq<u32>,
            rows: Seq<Seq<(u32, u32)>>,
        | #[trigger]
            a.activates(unit, x, batch, prep, pre, post, rows) && lists(rows, za);
        lemma_bare_input(b, unit, prep, batch, prep);
        lemma_same_features(a, b, unit, batch, prep, pre, post, rows);
        assert(b.activates(unit, prep, batch, prep, pre, post, rows));
        assert(b.features_of(unit, prep, batch, za));
    }
    if exists|prep: Seq<u32>| #[trigger]
        a.prepares(unit, x, batch, prep) && b.features_of(unit, prep, batch, za) {
        let prep = choose|prep: Seq<u32>| #[trigger]
            a.prepares(unit, x, batch, prep) && b.features_of(unit, prep, batch, za);
        lemma_bare_carries(a, b, unit, x, batch, prep, za);
    }
    if deterministic(unit) && a.prepares(unit, x, batch, y) && a.features_of(unit, x, batch, za)
        && b.features_of(unit, y, batch, zb) {
        lemma_bare_carries(a, b, unit, x, batch, y, zb);
        features_are_unique(a, unit, x, batch, za, zb);
    }
}

/// What the bare model makes of a prepared batch, the model makes of the batch.
proof fn lemma_bare_carries<F: Fn(FloatOp) -> u32>(
    a: Sae,
    b: Sae,
    unit: F,
    x: Seq<u32>,
    batch: int,
    y: Seq<u32>,
    z: SparseOut,
)
    requires
        is_bare(a, b),
        0 <= batch,
        x.len() == batch * a.cfg.d_in,
        a.prepares(unit, x, batch, y),
        b.features_of(unit, y, batch, z),
    ensures
        a.features_of(unit, x, batch, z),
{
    assert(same_parts(b, a));
    let (prep, pre, post, rows) = choose|
        prep: Seq<u32>,
        pre: Seq<u32>,
        post: Seq<u32>,
        rows: Seq<Seq<(u32, u32)>>,
    | #[trigger]
        b.activates(unit, y, batch, prep, pre, post, rows) && lists(rows, z);
    lemma_bare_input(b, unit, y, batch, prep);
    lemma_same_features(b, a, unit, batch, prep, pre, post, rows);
    assert(a.activates(unit, x, batch, y, pre, post, rows));
}

/// What a model encodes a batch to with one TopK implementation, it encodes it to
/// with every other.
pub proof fn topk_choice_does_not_matter<F: Fn(FloatOp) -> u32>(
    a: Sae,
    topk: TopkFn,
    unit: F,
    x: Seq<u32>,
    batch: int,
    z: SparseOut,
)
    requires
        a.features_of(unit, x, batch, z),
    ensures
        (Sae { topk, ..a }).features_of(unit, x, batch, z),
{
    let b = Sae { topk, ..a };
    let d_sae = a.cfg.d_sae as int;
    let (prep, pre, post, rows) = choose|
        prep: Seq<u32>,
        pre: Seq<u32>,
        post: Seq<u32>,
        rows: Seq<Seq<(u32, u32)>>,
    | #[trigger]
        a.activates(unit, x, batch, prep, pre, post, rows) && lists(rows, z);
    assert forall|r: int| 0 <= r < batch implies row_result(
        unit,
        a.sparsifier,
        topk,
        row(pre, d_sae, r),
        row(post, d_sae, r),
        #[trigger] rows[r],
    ) by {
        let ys = row(post, d_sae, r);
        assert(row_result(unit, a.sparsifier, a.topk, row(pre, d_sae, r), ys, rows[r]));
        if let Sparsifier::TopK { k, post_relu, .. } = a.sparsifier {
            let sel = choose|sel: Seq<(u32, u32)>| #[trigger]
                selects(ranking(a.topk), ys, k as int, sel) && rows[r] == kept(sel, post_relu);
            implementations_select_alike(a.topk, topk, ys, k as int, sel);
        }
    }
    assert(b.prepares(unit, x, batch, prep));
    assert(b.activates(unit, x, batch, prep, pre, post, rows));
}

} // verus!
