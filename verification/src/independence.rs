//! Rows of a batch do not influence each other, and the pipeline has one
//! result.
//!
//! The statements are about bits, so they need an arithmetic unit that gives
//! one answer to each operation. Over packed weights a vector backend fuses the
//! steps of full register tiles only, so the bits of a row can depend on its
//! place in the batch; every other combination of layout and backend is
//! covered.

use vstd::prelude::*;

use crate::bits::{deterministic, yields, FloatOp, ZERO};
use crate::index::{at, lemma_position, lemma_row, lemma_same_rows, row};
use crate::kernels::decoder::{decoded, decodes, gathered};
use crate::kernels::encoder::{
    blocks_encode_the_batch, encoded, encodes, is_packed, packed_matches_row_major,
};
use crate::kernels::gemm::tiled::{features_done, in_tile};
use crate::kernels::reduce::{lemma_dot_unique, lemma_sum_unique, strided};
use crate::kernels::row_major::{folded, lane_dot, lane_parts, tree_sum};
use crate::kernels::topk::{ranking, selection_is_unique, TopkFn};
use crate::kernels::topk_heap::selects;
use crate::kernels::Backend;
use crate::normalize::normalizes;
use crate::sae::{shifted, EncoderWeights, Sae, SparseOut, WeightLayout};
use crate::sparsify::{ids, kept, lists, row_result, rows_read_back, tile_result, Sparsifier};

verus! {

/// Adding up pairs has one result on a deterministic unit.
proof fn lemma_tree_sum_unique<F: Fn(FloatOp) -> u32>(
    unit: F,
    neighbours: bool,
    acc: Seq<u32>,
    a: u32,
    b: u32,
)
    requires
        deterministic(unit),
        tree_sum(unit, neighbours, acc, a),
        tree_sum(unit, neighbours, acc, b),
    ensures
        a == b,
    decreases acc.len(),
{
    if acc.len() > 1 {
        let p = choose|next: Seq<u32>|
            next.len() < acc.len() && #[trigger] folded(unit, neighbours, acc, next) && tree_sum(
                unit,
                neighbours,
                next,
                a,
            );
        let q = choose|next: Seq<u32>|
            next.len() < acc.len() && #[trigger] folded(unit, neighbours, acc, next) && tree_sum(
                unit,
                neighbours,
                next,
                b,
            );
        assert forall|i: int| 0 <= i < p.len() implies p[i] == q[i] by {
            let op = if neighbours {
                FloatOp::Add(acc[2 * i], acc[2 * i + 1])
            } else {
                FloatOp::Add(acc[i], acc[i + p.len()])
            };
            assert(yields(unit, op, p[i]));
            assert(yields(unit, op, q[i]));
        }
        assert(p =~= q);
        lemma_tree_sum_unique(unit, neighbours, p, a, b);
    }
}

/// A dot product over vector lanes has one result on a deterministic unit.
proof fn lemma_lane_dot_unique<F: Fn(FloatOp) -> u32>(
    unit: F,
    backend: Backend,
    bias: u32,
    xs: Seq<u32>,
    ws: Seq<u32>,
    a: u32,
    b: u32,
)
    requires
        deterministic(unit),
        lane_dot(unit, backend, bias, xs, ws, a),
        lane_dot(unit, backend, bias, xs, ws, b),
    ensures
        a == b,
{
    let lanes = backend.spec_lanes();
    let (acc, s, t) = choose|acc: Seq<u32>, s: u32, t: u32| #[trigger]
        lane_parts(unit, backend, xs, ws, acc, s, t) && yields(unit, FloatOp::Add(t, bias), a);
    let (bcc, p, q) = choose|acc: Seq<u32>, s: u32, t: u32| #[trigger]
        lane_parts(unit, backend, xs, ws, acc, s, t) && yields(unit, FloatOp::Add(t, bias), b);
    let whole = xs.len() as int / lanes;
    assert forall|l: int| 0 <= l < lanes implies acc[l] == bcc[l] by {
        lemma_dot_unique(
            unit,
            true,
            ZERO,
            strided(xs, l, lanes, whole),
            strided(ws, l, lanes, whole),
            acc[l],
            bcc[l],
        );
    }
    assert(acc =~= bcc);
    match backend {
        Backend::Avx512 => lemma_tree_sum_unique(unit, false, acc, s, p),
        Backend::Neon => lemma_tree_sum_unique(unit, true, acc, s, p),
        _ => lemma_sum_unique(unit, acc[0], acc.skip(1), s, p),
    }
    lemma_dot_unique(unit, false, s, xs.skip(whole * lanes), ws.skip(whole * lanes), t, q);
}

/// The preparation of a row does not depend on the batch around it.
proof fn lemma_prepared_row<F: Fn(FloatOp) -> u32>(
    sae: Sae,
    unit: F,
    x: Seq<u32>,
    batch_x: int,
    y: Seq<u32>,
    i: int,
    u: Seq<u32>,
    batch_u: int,
    v: Seq<u32>,
    j: int,
)
    requires
        deterministic(unit),
        sae.wf(),
        x.len() == batch_x * sae.cfg.d_in,
        u.len() == batch_u * sae.cfg.d_in,
        sae.prepares(unit, x, batch_x, y),
        sae.prepares(unit, u, batch_u, v),
        0 <= i < batch_x,
        0 <= j < batch_u,
        row(x, sae.cfg.d_in as int, i) == row(u, sae.cfg.d_in as int, j),
    ensures
        row(y, sae.cfg.d_in as int, i) == row(v, sae.cfg.d_in as int, j),
        y.len() == x.len(),
        v.len() == u.len(),
{
    let d_in = sae.cfg.d_in as int;
    let mode = sae.cfg.normalize_activations;
    let m = choose|mid: Seq<u32>| #[trigger]
        normalizes(unit, mode, x, batch_x, d_in, mid) && if sae.cfg.apply_b_dec_to_input {
            shifted(unit, sae.dec.b_dec@, batch_x, mid, y)
        } else {
            y == mid
        };
    let n = choose|mid: Seq<u32>| #[trigger]
        normalizes(unit, mode, u, batch_u, d_in, mid) && if sae.cfg.apply_b_dec_to_input {
            shifted(unit, sae.dec.b_dec@, batch_u, mid, v)
        } else {
            v == mid
        };
    crate::normalize::batched_rows_are_independent(
        unit,
        mode,
        d_in,
        x,
        batch_x,
        m,
        i,
        u,
        batch_u,
        n,
        j,
    );
    lemma_row(batch_x, d_in, i);
    lemma_row(batch_u, d_in, j);
    if sae.cfg.apply_b_dec_to_input {
        assert forall|k: int| 0 <= k < d_in implies row(y, d_in, i)[k] == row(v, d_in, j)[k] by {
            let b = sae.dec.b_dec@[k];
            assert(at(m, d_in, i, k) == row(m, d_in, i)[k]);
            assert(at(n, d_in, j, k) == row(n, d_in, j)[k]);
            assert(yields(unit, FloatOp::Sub(at(m, d_in, i, k), b), at(y, d_in, i, k)));
            assert(yields(unit, FloatOp::Sub(at(n, d_in, j, k), b), at(v, d_in, j, k)));
        }
        assert(row(y, d_in, i) =~= row(v, d_in, j));
    }
}

/// The pre-activations of a row do not depend on the batch around it.
pub proof fn encoded_rows_are_independent<F: Fn(FloatOp) -> u32>(
    unit: F,
    backend: Backend,
    enc: EncoderWeights,
    x: Seq<u32>,
    batch_x: int,
    pre_x: Seq<u32>,
    i: int,
    u: Seq<u32>,
    batch_u: int,
    pre_u: Seq<u32>,
    j: int,
)
    requires
        deterministic(unit),
        backend is Scalar || enc.layout is RowMajor,
        encodes(unit, backend, enc, x, batch_x, pre_x),
        encodes(unit, backend, enc, u, batch_u, pre_u),
        0 <= i < batch_x,
        0 <= j < batch_u,
        row(x, enc.d_in as int, i) == row(u, enc.d_in as int, j),
    ensures
        row(pre_x, enc.d_sae as int, i) == row(pre_u, enc.d_sae as int, j),
{
    let d_sae = enc.d_sae as int;
    lemma_row(batch_x, d_sae, i);
    lemma_row(batch_u, d_sae, j);
    assert forall|f: int| 0 <= f < d_sae implies row(pre_x, d_sae, i)[f] == row(pre_u, d_sae, j)[f] by {
        let a = at(pre_x, d_sae, i, f);
        let b = at(pre_u, d_sae, j, f);
        assert(encoded(unit, backend, enc, x, batch_x, i, f, a));
        assert(encoded(unit, backend, enc, u, batch_u, j, f, b));
        let xs = row(x, enc.d_in as int, i);
        if backend is Scalar {
            lemma_dot_unique(unit, false, enc.b_enc@[f], xs, enc.direction(f), a, b);
        } else {
            lemma_lane_dot_unique(
                unit,
                backend,
                enc.b_enc@[f],
                xs,
                enc.direction(f),
                a,
                b,
            );
        }
    }
    assert(row(pre_x, d_sae, i) =~= row(pre_u, d_sae, j));
}

/// A batch has one encoding on a deterministic unit: the result does not depend
/// on how the features are grouped into blocks, nor on the order in which the
/// blocks are computed.
pub proof fn encoding_is_unique<F: Fn(FloatOp) -> u32>(
    unit: F,
    backend: Backend,
    enc: EncoderWeights,
    x: Seq<u32>,
    batch: int,
    a: Seq<u32>,
    b: Seq<u32>,
)
    requires
        deterministic(unit),
        0 <= batch,
        encodes(unit, backend, enc, x, batch, a),
        encodes(unit, backend, enc, x, batch, b),
    ensures
        a == b,
{
    let d_sae = enc.d_sae as int;
    assert forall|p: int| 0 <= p < a.len() implies a[p] == b[p] by {
        lemma_position(batch, d_sae, p);
        let i = p / d_sae;
        let f = p % d_sae;
        let ra = at(a, d_sae, i, f);
        let rb = at(b, d_sae, i, f);
        assert(encoded(unit, backend, enc, x, batch, i, f, ra));
        assert(encoded(unit, backend, enc, x, batch, i, f, rb));
        let xs = row(x, enc.d_in as int, i);
        match enc.layout {
            WeightLayout::RowMajor => {
                if backend is Scalar {
                    lemma_dot_unique(unit, false, enc.b_enc@[f], xs, enc.direction(f), ra, rb);
                } else {
                    lemma_lane_dot_unique(
                        unit,
                        backend,
                        enc.b_enc@[f],
                        xs,
                        enc.direction(f),
                        ra,
                        rb,
                    );
                }
            },
            WeightLayout::PackedPanels { m_r } => {
                let fused = backend !is Scalar && in_tile(
                    d_sae,
                    batch,
                    m_r as int,
                    backend.spec_tile_rows(),
                    i,
                    f,
                );
                lemma_dot_unique(unit, fused, enc.b_enc@[f], xs, enc.direction(f), ra, rb);
            },
        }
    }
    assert(a =~= b);
}

/// The threads do not show: whatever the M-blocks, and whatever the order in which
/// they were put together, the output has the same bits, which are those of the
/// encoder.
pub proof fn threads_do_not_show<F: Fn(FloatOp) -> u32>(
    unit: F,
    backend: Backend,
    enc: EncoderWeights,
    x: Seq<u32>,
    batch: int,
    m_r: usize,
    threaded: Seq<u32>,
    pre: Seq<u32>,
)
    requires
        deterministic(unit),
        0 <= batch,
        backend !is Scalar,
        enc.layout == (WeightLayout::PackedPanels { m_r }),
        threaded.len() == batch * enc.d_sae,
        features_done(
            unit,
            enc,
            x,
            batch,
            m_r as int,
            backend.spec_tile_rows(),
            enc.d_sae as int,
            threaded,
        ),
        encodes(unit, backend, enc, x, batch, pre),
    ensures
        threaded == pre,
{
    blocks_encode_the_batch(unit, backend, enc, x, batch, m_r, threaded);
    encoding_is_unique(unit, backend, enc, x, batch, threaded, pre);
}

/// A row has one sparse form on a deterministic unit.
pub proof fn sparse_form_is_unique<F: Fn(FloatOp) -> u32>(
    unit: F,
    sparsifier: Sparsifier,
    choice: TopkFn,
    xs: Seq<u32>,
    ya: Seq<u32>,
    a: Seq<(u32, u32)>,
    yb: Seq<u32>,
    b: Seq<(u32, u32)>,
)
    requires
        deterministic(unit),
        xs.len() <= 0x1_0000_0000,
        row_result(unit, sparsifier, choice, xs, ya, a),
        row_result(unit, sparsifier, choice, xs, yb, b),
    ensures
        ya == yb,
        a == b,
{
    match sparsifier {
        Sparsifier::TopK { k, post_relu, rescale } => {
            if rescale is Some {
                let scales = rescale->0;
                assert forall|f: int| 0 <= f < xs.len() implies ya[f] == yb[f] by {
                    if f < scales@.len() {
                        assert(yields(unit, FloatOp::Mul(xs[f], scales@[f]), ya[f]));
                        assert(yields(unit, FloatOp::Mul(xs[f], scales@[f]), yb[f]));
                    } else {
                        assert(ya[f] == xs[f]);
                        assert(yb[f] == xs[f]);
                    }
                }
                assert(ya =~= yb);
            }
            let sa = choose|sel: Seq<(u32, u32)>| #[trigger]
                selects(ranking(choice), ya, k as int, sel) && a == kept(sel, post_relu);
            let sb = choose|sel: Seq<(u32, u32)>| #[trigger]
                selects(ranking(choice), yb, k as int, sel) && b == kept(sel, post_relu);
            selection_is_unique(ranking(choice), ya, k as int, sa, sb);
        },
        Sparsifier::JumpReLU { .. } => {},
        Sparsifier::Relu => {},
    }
}

/// Two outputs hold the same.
pub open spec fn same_output(a: SparseOut, b: SparseOut) -> bool {
    &&& a.d_sae == b.d_sae
    &&& a.row_offsets@ == b.row_offsets@
    &&& a.indices@ == b.indices@
    &&& a.values@ == b.values@
}

/// A batch is prepared in one way on a deterministic unit.
proof fn lemma_preparation_is_unique<F: Fn(FloatOp) -> u32>(
    sae: Sae,
    unit: F,
    x: Seq<u32>,
    batch: int,
    a: Seq<u32>,
    b: Seq<u32>,
)
    requires
        deterministic(unit),
        sae.wf(),
        0 <= batch,
        x.len() == batch * sae.cfg.d_in,
        sae.prepares(unit, x, batch, a),
        sae.prepares(unit, x, batch, b),
    ensures
        a == b,
{
    let d_in = sae.cfg.d_in as int;
    assert forall|c: int| 0 <= c < batch implies #[trigger] row(a, d_in, c) == row(b, d_in, c) by {
        lemma_prepared_row(sae, unit, x, batch, a, c, x, batch, b, c);
    }
    lemma_same_rows(a, b, batch, d_in);
}

/// A batch of pre-activations has one list of active features on a deterministic
/// unit.
proof fn lemma_active_features_are_unique<F: Fn(FloatOp) -> u32>(
    unit: F,
    sparsifier: Sparsifier,
    choice: TopkFn,
    d_sae: int,
    n: int,
    pre: Seq<u32>,
    post_a: Seq<u32>,
    rows_a: Seq<Seq<(u32, u32)>>,
    post_b: Seq<u32>,
    rows_b: Seq<Seq<(u32, u32)>>,
)
    requires
        deterministic(unit),
        0 <= d_sae <= u32::MAX,
        pre.len() == n * d_sae,
        tile_result(unit, sparsifier, choice, d_sae, n, pre, post_a, rows_a),
        tile_result(unit, sparsifier, choice, d_sae, n, pre, post_b, rows_b),
    ensures
        rows_a == rows_b,
{
    assert forall|r: int| 0 <= r < n implies rows_a[r] == rows_b[r] by {
        lemma_row(n, d_sae, r);
        sparse_form_is_unique(
            unit,
            sparsifier,
            choice,
            row(pre, d_sae, r),
            row(post_a, d_sae, r),
            rows_a[r],
            row(post_b, d_sae, r),
            rows_b[r],
        );
    }
    assert(rows_a =~= rows_b);
}

/// A batch has one set of features on a deterministic unit: encoding it leaves
/// equal outputs, whatever the outputs held before.
pub proof fn features_are_unique<F: Fn(FloatOp) -> u32>(
    sae: Sae,
    unit: F,
    x: Seq<u32>,
    batch: int,
    za: SparseOut,
    zb: SparseOut,
)
    requires
        deterministic(unit),
        sae.wf(),
        sae.cfg.d_sae <= u32::MAX,
        0 <= batch,
        x.len() == batch * sae.cfg.d_in,
        sae.features_of(unit, x, batch, za),
        sae.features_of(unit, x, batch, zb),
    ensures
        same_output(za, zb),
{
    let (prep_a, pre_a, post_a, rows_a) = choose|
        prep: Seq<u32>,
        pre: Seq<u32>,
        post: Seq<u32>,
        rows: Seq<Seq<(u32, u32)>>,
    | #[trigger]
        sae.activates(unit, x, batch, prep, pre, post, rows) && lists(rows, za);
    let (prep_b, pre_b, post_b, rows_b) = choose|
        prep: Seq<u32>,
        pre: Seq<u32>,
        post: Seq<u32>,
        rows: Seq<Seq<(u32, u32)>>,
    | #[trigger]
        sae.activates(unit, x, batch, prep, pre, post, rows) && lists(rows, zb);
    lemma_preparation_is_unique(sae, unit, x, batch, prep_a, prep_b);
    encoding_is_unique(unit, sae.backend, sae.enc, prep_a, batch, pre_a, pre_b);
    lemma_active_features_are_unique(
        unit,
        sae.sparsifier,
        sae.topk,
        sae.cfg.d_sae as int,
        batch,
        pre_a,
        post_a,
        rows_a,
        post_b,
        rows_b,
    );
}

/// Batched rows encode independently: a row has the same active features with
/// the same values whatever batch it stands in, and wherever in the batch.
pub proof fn batched_encode_per_row_independence<F: Fn(FloatOp) -> u32>(
    sae: Sae,
    unit: F,
    x: Seq<u32>,
    batch_x: int,
    zx: SparseOut,
    i: int,
    u: Seq<u32>,
    batch_u: int,
    zu: SparseOut,
    j: int,
)
    requires
        deterministic(unit),
        sae.wf(),
        sae.cfg.d_sae <= u32::MAX,
        sae.backend is Scalar || sae.enc.layout is RowMajor,
        x.len() == batch_x * sae.cfg.d_in,
        u.len() == batch_u * sae.cfg.d_in,
        sae.features_of(unit, x, batch_x, zx),
        sae.features_of(unit, u, batch_u, zu),
        zx.indices@.len() <= u32::MAX,
        zu.indices@.len() <= u32::MAX,
        0 <= i < batch_x,
        0 <= j < batch_u,
        row(x, sae.cfg.d_in as int, i) == row(u, sae.cfg.d_in as int, j),
    ensures
        zx.features(i) == zu.features(j),
        zx.activations(i) == zu.activations(j),
{
    let d_sae = sae.cfg.d_sae as int;
    let (prep_x, pre_x, post_x, rows_x) = choose|
        prep: Seq<u32>,
        pre: Seq<u32>,
        post: Seq<u32>,
        rows: Seq<Seq<(u32, u32)>>,
    | #[trigger]
        sae.activates(unit, x, batch_x, prep, pre, post, rows) && lists(rows, zx);
    let (prep_u, pre_u, post_u, rows_u) = choose|
        prep: Seq<u32>,
        pre: Seq<u32>,
        post: Seq<u32>,
        rows: Seq<Seq<(u32, u32)>>,
    | #[trigger]
        sae.activates(unit, u, batch_u, prep, pre, post, rows) && lists(rows, zu);
    lemma_prepared_row(sae, unit, x, batch_x, prep_x, i, u, batch_u, prep_u, j);
    encoded_rows_are_independent(
        unit,
        sae.backend,
        sae.enc,
        prep_x,
        batch_x,
        pre_x,
        i,
        prep_u,
        batch_u,
        pre_u,
        j,
    );
    let xs = row(pre_x, d_sae, i);
    lemma_row(batch_x, d_sae, i);
    let a = rows_x[i];
    let b = rows_u[j];
    assert(row_result(unit, sae.sparsifier, sae.topk, xs, row(post_x, d_sae, i), a));
    assert(row_result(unit, sae.sparsifier, sae.topk, xs, row(post_u, d_sae, j), b));
    sparse_form_is_unique(
        unit,
        sae.sparsifier,
        sae.topk,
        xs,
        row(post_x, d_sae, i),
        a,
        row(post_u, d_sae, j),
        b,
    );
    rows_read_back(rows_x, zx);
    rows_read_back(rows_u, zu);
    assert(zx.features(i) == ids(a));
    assert(zu.features(j) == ids(b));
}

/// Packing keeps the features: with scalar arithmetic, an SAE and its packed form
/// have the same active features with the same values on every row.
pub proof fn packing_keeps_features<F: Fn(FloatOp) -> u32>(
    a: Sae,
    b: Sae,
    m_r: usize,
    unit: F,
    x: Seq<u32>,
    batch: int,
    za: SparseOut,
    zb: SparseOut,
    i: int,
)
    requires
        deterministic(unit),
        a.wf(),
        a.enc.layout is RowMajor,
        is_packed(a.enc, b.enc, m_r),
        b.cfg == a.cfg,
        b.dec == a.dec,
        b.sparsifier == a.sparsifier,
        b.topk == a.topk,
        a.backend is Scalar,
        b.backend is Scalar,
        a.cfg.d_sae <= u32::MAX,
        x.len() == batch * a.cfg.d_in,
        a.features_of(unit, x, batch, za),
        b.features_of(unit, x, batch, zb),
        za.indices@.len() <= u32::MAX,
        zb.indices@.len() <= u32::MAX,
        0 <= i < batch,
    ensures
        za.features(i) == zb.features(i),
        za.activations(i) == zb.activations(i),
{
    let d_sae = a.cfg.d_sae as int;
    let d_in = a.cfg.d_in as int;
    let (prep_a, pre_a, post_a, rows_a) = choose|
        prep: Seq<u32>,
        pre: Seq<u32>,
        post: Seq<u32>,
        rows: Seq<Seq<(u32, u32)>>,
    | #[trigger]
        a.activates(unit, x, batch, prep, pre, post, rows) && lists(rows, za);
    let (prep_b, pre_b, post_b, rows_b) = choose|
        prep: Seq<u32>,
        pre: Seq<u32>,
        post: Seq<u32>,
        rows: Seq<Seq<(u32, u32)>>,
    | #[trigger]
        b.activates(unit, x, batch, prep, pre, post, rows) && lists(rows, zb);
    assert(a.prepares(unit, x, batch, prep_b));
    assert forall|c: int| 0 <= c < batch implies #[trigger] row(prep_a, d_in, c) == row(
        prep_b,
        d_in,
        c,
    ) by {
        lemma_prepared_row(a, unit, x, batch, prep_a, c, x, batch, prep_b, c);
    }
    lemma_prepared_row(a, unit, x, batch, prep_a, i, x, batch, prep_b, i);
    lemma_same_rows(prep_a, prep_b, batch, d_in);
    packed_matches_row_major(unit, a.enc, b.enc, m_r, prep_a, batch, pre_a, pre_b);
    let xs = row(pre_a, d_sae, i);
    lemma_row(batch, d_sae, i);
    let pa = rows_a[i];
    let pb = rows_b[i];
    assert(row_result(unit, a.sparsifier, a.topk, xs, row(post_a, d_sae, i), pa));
    assert(row_result(unit, b.sparsifier, b.topk, xs, row(post_b, d_sae, i), pb));
    sparse_form_is_unique(
        unit,
        a.sparsifier,
        a.topk,
        xs,
        row(post_a, d_sae, i),
        pa,
        row(post_b, d_sae, i),
        pb,
    );
    rows_read_back(rows_a, za);
    rows_read_back(rows_b, zb);
    assert(za.features(i) == ids(pa));
    assert(zb.features(i) == ids(pb));
}

/// Rows decode independently: rows with the same features and values decode to
/// the same bits, whatever outputs they stand in.
pub proof fn decoded_rows_are_independent<F: Fn(FloatOp) -> u32>(
    sae: Sae,
    unit: F,
    za: SparseOut,
    out_a: Seq<u32>,
    i: int,
    zb: SparseOut,
    out_b: Seq<u32>,
    j: int,
)
    requires
        deterministic(unit),
        decodes(unit, sae.dec, za, out_a),
        decodes(unit, sae.dec, zb, out_b),
        0 <= i < za.rows(),
        0 <= j < zb.rows(),
        za.features(i) == zb.features(j),
        za.activations(i) == zb.activations(j),
    ensures
        row(out_a, sae.dec.d_in as int, i) == row(out_b, sae.dec.d_in as int, j),
{
    let d_in = sae.dec.d_in as int;
    lemma_row(za.rows(), d_in, i);
    lemma_row(zb.rows(), d_in, j);
    assert forall|k: int| 0 <= k < d_in implies row(out_a, d_in, i)[k] == row(out_b, d_in, j)[k] by {
        let a = at(out_a, d_in, i, k);
        let b = at(out_b, d_in, j, k);
        assert(decoded(unit, sae.dec, za.features(i), za.activations(i), k, a));
        assert(decoded(unit, sae.dec, zb.features(j), zb.activations(j), k, b));
        lemma_dot_unique(
            unit,
            false,
            sae.dec.b_dec@[k],
            za.activations(i),
            gathered(sae.dec, za.features(i), k),
            a,
            b,
        );
    }
    assert(row(out_a, d_in, i) =~= row(out_b, d_in, j));
}

} // verus!
