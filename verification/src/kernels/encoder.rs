//! Encoder matmul entry point. Dispatches on the weight layout and on a
//! [`Backend`].

use vstd::prelude::*;

use crate::bits::{deterministic, total, FloatOp};
use crate::index::{at, lemma_position, row};
use crate::kernels::gemm::pack::{packed, packing_keeps_directions};
use crate::kernels::gemm::tiled::{self, features_done, in_tile};
use crate::kernels::gemm::tiled_scalar::{self, pre_activation};
use crate::kernels::reduce::lemma_dot_unique;
use crate::kernels::row_major::{self, lane_dot};
use crate::kernels::Backend;
use crate::sae::{EncoderWeights, WeightLayout};

verus! {

/// `r` is the pre-activation of feature `f` on batch row `b` as the backend
/// computes it.
///
/// Over row-major weights the scalar backend accumulates from left to right and
/// a vector backend splits the dot product over its lanes. Over packed weights
/// every output is accumulated from left to right: in fused steps inside the
/// full register tiles of a vector backend, else in unfused ones.
pub open spec fn encoded<F: Fn(FloatOp) -> u32>(
    unit: F,
    backend: Backend,
    enc: EncoderWeights,
    x: Seq<u32>,
    batch: int,
    b: int,
    f: int,
    r: u32,
) -> bool {
    match enc.layout {
        WeightLayout::RowMajor => if backend is Scalar {
            pre_activation(unit, false, enc, x, b, f, r)
        } else {
            lane_dot(
                unit,
                backend,
                enc.b_enc@[f],
                row(x, enc.d_in as int, b),
                enc.direction(f),
                r,
            )
        },
        WeightLayout::PackedPanels { m_r } => pre_activation(
            unit,
            backend !is Scalar && in_tile(
                enc.d_sae as int,
                batch,
                m_r as int,
                backend.spec_tile_rows(),
                b,
                f,
            ),
            enc,
            x,
            b,
            f,
            r,
        ),
    }
}

/// `pre` holds the pre-activations of a whole batch.
pub open spec fn encodes<F: Fn(FloatOp) -> u32>(
    unit: F,
    backend: Backend,
    enc: EncoderWeights,
    x: Seq<u32>,
    batch: int,
    pre: Seq<u32>,
) -> bool {
    &&& pre.len() == batch * enc.d_sae
    &&& forall|b: int, f: int|
        0 <= b < batch && 0 <= f < enc.d_sae ==> encoded(
            unit,
            backend,
            enc,
            x,
            batch,
            b,
            f,
            #[trigger] at(pre, enc.d_sae as int, b, f),
        )
}

/// Compute the pre-activations of a batch.
///
/// `m_c` is the number of features that a tiled kernel handles in one block;
/// the result does not depend on it.
pub fn encode_f32<F: Fn(FloatOp) -> u32>(
    backend: Backend,
    x: &[u32],
    enc: &EncoderWeights,
    pre_acts: &mut [u32],
    batch: usize,
    m_c: usize,
    unit: &F,
)
    requires
        total(*unit),
        enc.wf(),
        x@.len() == batch * enc.d_in,
        old(pre_acts)@.len() == batch * enc.d_sae,
    ensures
        encodes(*unit, backend, *enc, x@, batch as int, final(pre_acts)@),
{
    match enc.layout {
        WeightLayout::RowMajor => match backend {
            Backend::Scalar => row_major::encode_f32(x, enc, pre_acts, batch, unit),
            _ => row_major::encode_lanes(x, enc, pre_acts, batch, backend, unit),
        },
        WeightLayout::PackedPanels { .. } => match backend {
            Backend::Scalar => tiled_scalar::encode_f32(x, enc, pre_acts, batch, unit),
            _ => tiled::encode_f32(x, enc, pre_acts, batch, backend.tile_rows(), m_c, unit),
        },
    }
}

/// An output completed from M-blocks (see [`tiled::encode_from_blocks`]) is the
/// encoding of the batch.
pub proof fn blocks_encode_the_batch<F: Fn(FloatOp) -> u32>(
    unit: F,
    backend: Backend,
    enc: EncoderWeights,
    x: Seq<u32>,
    batch: int,
    m_r: usize,
    pre: Seq<u32>,
)
    requires
        backend !is Scalar,
        enc.layout == (WeightLayout::PackedPanels { m_r }),
        pre.len() == batch * enc.d_sae,
        features_done(
            unit,
            enc,
            x,
            batch,
            m_r as int,
            backend.spec_tile_rows(),
            enc.d_sae as int,
            pre,
        ),
    ensures
        encodes(unit, backend, enc, x, batch, pre),
{
}

/// `b` is the row-major encoder `a` packed into panels of `m_r` features.
pub open spec fn is_packed(a: EncoderWeights, b: EncoderWeights, m_r: usize) -> bool {
    &&& m_r > 0
    &&& b.layout == (WeightLayout::PackedPanels { m_r })
    &&& b.d_in == a.d_in
    &&& b.d_sae == a.d_sae
    &&& b.b_enc@ == a.b_enc@
    &&& b.w_enc@ == packed(a.w_enc@, a.d_sae as int, a.d_in as int, m_r as int)
}

/// Scalar arithmetic gives the same bits over packed weights as over the
/// row-major weights that were packed.
pub proof fn packed_matches_row_major<F: Fn(FloatOp) -> u32>(
    unit: F,
    a: EncoderWeights,
    b: EncoderWeights,
    m_r: usize,
    x: Seq<u32>,
    batch: int,
    pre_a: Seq<u32>,
    pre_b: Seq<u32>,
)
    requires
        deterministic(unit),
        a.wf(),
        a.layout is RowMajor,
        is_packed(a, b, m_r),
        encodes(unit, Backend::Scalar, a, x, batch, pre_a),
        encodes(unit, Backend::Scalar, b, x, batch, pre_b),
    ensures
        pre_a == pre_b,
{
    let d_sae = a.d_sae as int;
    assert forall|p: int| 0 <= p < pre_a.len() implies pre_a[p] == pre_b[p] by {
        lemma_position(batch, d_sae, p);
        let i = p / d_sae;
        let f = p % d_sae;
        packing_keeps_directions(a, b, m_r, f);
        assert(encoded(unit, Backend::Scalar, a, x, batch, i, f, at(pre_a, d_sae, i, f)));
        assert(encoded(unit, Backend::Scalar, b, x, batch, i, f, at(pre_b, d_sae, i, f)));
        lemma_dot_unique(
            unit,
            false,
            a.b_enc@[f],
            row(x, a.d_in as int, i),
            a.direction(f),
            at(pre_a, d_sae, i, f),
            at(pre_b, d_sae, i, f),
        );
    }
    assert(pre_a =~= pre_b);
}

/// Scalar arithmetic does the same operations over two encoders with the same
/// biases and the same encoder directions, whatever their layouts: what one may
/// compute, the other may, on any unit.
pub proof fn layout_does_not_matter<F: Fn(FloatOp) -> u32>(
    unit: F,
    a: EncoderWeights,
    b: EncoderWeights,
    x: Seq<u32>,
    batch: int,
    pre: Seq<u32>,
)
    requires
        b.d_in == a.d_in,
        b.d_sae == a.d_sae,
        b.b_enc@ == a.b_enc@,
        forall|f: int| 0 <= f < a.d_sae ==> #[trigger] b.direction(f) == a.direction(f),
    ensures
        encodes(unit, Backend::Scalar, a, x, batch, pre) <==> encodes(
            unit,
            Backend::Scalar,
            b,
            x,
            batch,
            pre,
        ),
{
    assert forall|i: int, f: int, r: u32| 0 <= f < a.d_sae implies encoded(
        unit,
        Backend::Scalar,
        a,
        x,
        batch,
        i,
        f,
        r,
    ) == #[trigger] encoded(unit, Backend::Scalar, b, x, batch, i, f, r) by {
        assert(b.direction(f) == a.direction(f));
    }
    if encodes(unit, Backend::Scalar, a, x, batch, pre) {
        assert forall|i: int, f: int| 0 <= i < batch && 0 <= f < b.d_sae implies encoded(
            unit,
            Backend::Scalar,
            b,
            x,
            batch,
            i,
            f,
            #[trigger] at(pre, b.d_sae as int, i, f),
        ) by {
            assert(encoded(unit, Backend::Scalar, a, x, batch, i, f, at(pre, a.d_sae as int, i, f)));
        }
    }
    if encodes(unit, Backend::Scalar, b, x, batch, pre) {
        assert forall|i: int, f: int| 0 <= i < batch && 0 <= f < a.d_sae implies encoded(
            unit,
            Backend::Scalar,
            a,
            x,
            batch,
            i,
            f,
            #[trigger] at(pre, a.d_sae as int, i, f),
        ) by {
            assert(encoded(unit, Backend::Scalar, b, x, batch, i, f, at(pre, b.d_sae as int, i, f)));
        }
    }
}

/// The width of the panels does not matter to scalar arithmetic: weights packed
/// at one width and at another are encoded by the same operations, and so to the
/// same bits.
pub proof fn panel_width_does_not_matter<F: Fn(FloatOp) -> u32>(
    unit: F,
    w: EncoderWeights,
    a: EncoderWeights,
    m_a: usize,
    b: EncoderWeights,
    m_b: usize,
    x: Seq<u32>,
    batch: int,
    pre_a: Seq<u32>,
    pre_b: Seq<u32>,
)
    requires
        w.wf(),
        w.layout is RowMajor,
        is_packed(w, a, m_a),
        is_packed(w, b, m_b),
    ensures
        encodes(unit, Backend::Scalar, a, x, batch, pre_a) <==> encodes(
            unit,
            Backend::Scalar,
            b,
            x,
            batch,
            pre_a,
        ),
        deterministic(unit) && encodes(unit, Backend::Scalar, a, x, batch, pre_a) && encodes(
            unit,
            Backend::Scalar,
            b,
            x,
            batch,
            pre_b,
        ) ==> pre_a == pre_b,
{
    assert forall|f: int| 0 <= f < w.d_sae implies #[trigger] b.direction(f) == a.direction(f) by {
        packing_keeps_directions(w, a, m_a, f);
        packing_keeps_directions(w, b, m_b, f);
    }
    layout_does_not_matter(unit, a, b, x, batch, pre_a);
    if deterministic(unit) && encodes(unit, Backend::Scalar, a, x, batch, pre_a) && encodes(
        unit,
        Backend::Scalar,
        b,
        x,
        batch,
        pre_b,
    ) {
        let d_sae = w.d_sae as int;
        assert forall|p: int| 0 <= p < pre_a.len() implies pre_a[p] == pre_b[p] by {
            lemma_position(batch, d_sae, p);
            let i = p / d_sae;
            let f = p % d_sae;
            assert(encoded(unit, Backend::Scalar, b, x, batch, i, f, at(pre_a, d_sae, i, f)));
            assert(encoded(unit, Backend::Scalar, b, x, batch, i, f, at(pre_b, d_sae, i, f)));
            lemma_dot_unique(
                unit,
                false,
                b.b_enc@[f],
                row(x, b.d_in as int, i),
                b.direction(f),
                at(pre_a, d_sae, i, f),
                at(pre_b, d_sae, i, f),
            );
        }
        assert(pre_a =~= pre_b);
    }
}

} // verus!
