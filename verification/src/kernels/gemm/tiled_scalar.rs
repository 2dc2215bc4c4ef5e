//! Scalar reference for the tiled GEMM encoder.
//!
//! This backend exercises the packed-panel layout with plain scalar
//! arithmetic: each output is a full `d_in`-length reduction from left to
//! right, read through the packed address formula.

use vstd::arithmetic::mul::*;
use vstd::prelude::*;

use crate::bits::{total, FloatOp};
use crate::index::{at, lemma_cell, lemma_row, lemma_store, row};
use crate::kernels::gemm::pack::{
    lemma_packed_bounds, lemma_packed_cell, lemma_panels, panel_count, panels,
};
use crate::kernels::reduce::{dot, dot_strided, strided};
use crate::sae::{EncoderWeights, WeightLayout};

verus! {

/// `r` is the pre-activation of feature `f` on batch row `b`: the bias plus the
/// products of the row with the feature's encoder direction.
pub open spec fn pre_activation<F: Fn(FloatOp) -> u32>(
    unit: F,
    fused: bool,
    enc: EncoderWeights,
    x: Seq<u32>,
    b: int,
    f: int,
    r: u32,
) -> bool {
    dot(unit, fused, enc.b_enc@[f], row(x, enc.d_in as int, b), enc.direction(f), r)
}

/// A panel begins at a feature, and a feature is found again from its panel
/// and lane.
pub proof fn lemma_panel(d_sae: int, m_r: int, panel: int)
    requires
        0 < m_r,
        0 <= d_sae,
        0 <= panel < panels(d_sae, m_r),
    ensures
        0 <= panel * m_r < d_sae,
        forall|lane: int|
            0 <= lane < m_r ==> (#[trigger] (panel * m_r + lane)) / m_r == panel && (panel * m_r
                + lane) % m_r == lane,
{
    lemma_panels(d_sae, m_r);
    let n = panels(d_sae, m_r);
    lemma_cell(n, m_r, panel, 0);
    lemma_mul_is_distributive_add_other_way(m_r, panel, 1);
    assert forall|lane: int| 0 <= lane < m_r implies (#[trigger] (panel * m_r + lane)) / m_r
        == panel && (panel * m_r + lane) % m_r == lane by {
        lemma_cell(n, m_r, panel, lane);
    }
}

/// The encoder direction of a feature, read from its panel.
pub proof fn lemma_direction(enc: EncoderWeights, m_r: int, panel: int, lane: int)
    requires
        enc.wf(),
        enc.layout == (WeightLayout::PackedPanels { m_r: m_r as usize }),
        0 < m_r <= usize::MAX,
        0 <= panel,
        0 <= lane < m_r,
        panel * m_r + lane < enc.d_sae,
        0 <= panel * m_r,
    ensures
        enc.direction(panel * m_r + lane) == strided(
            enc.w_enc@,
            panel * (m_r * enc.d_in) + lane,
            m_r,
            enc.d_in as int,
        ),
        0 <= m_r * enc.d_in,
        0 <= panel * (m_r * enc.d_in),
        panel * (m_r * enc.d_in) + m_r * enc.d_in <= enc.w_enc@.len(),
        enc.d_in == 0 ==> panel * (m_r * enc.d_in) == 0,
        enc.d_in > 0 ==> panel * (m_r * enc.d_in) + lane + (enc.d_in - 1) * m_r < enc.w_enc@.len(),
{
    let d_in = enc.d_in as int;
    let d_sae = enc.d_sae as int;
    let f = panel * m_r + lane;
    lemma_cell(panel + 1, m_r, panel, lane);
    assert(enc.direction(f) =~= strided(enc.w_enc@, panel * (m_r * d_in) + lane, m_r, d_in));
    if d_in == 0 {
        lemma_mul_by_zero_is_zero(m_r);
        lemma_mul_by_zero_is_zero(panel);
    } else {
        lemma_packed_cell(enc.w_enc@, d_sae, d_in, m_r, f, d_in - 1);
        lemma_packed_bounds(d_sae, d_in, m_r, f, d_in - 1);
        lemma_panels(d_sae, m_r);
        lemma_mul_is_associative(panels(d_sae, m_r), m_r, d_in);
        lemma_row(panels(d_sae, m_r), m_r * d_in, panel);
    }
}

/// The pre-activation of one feature on one batch row, read from its panel.
pub fn scalar_cell<F: Fn(FloatOp) -> u32>(
    unit: &F,
    x: &[u32],
    enc: &EncoderWeights,
    batch: usize,
    b: usize,
    panel: usize,
    m_r: usize,
    lane: usize,
) -> (r: u32)
    requires
        total(*unit),
        enc.wf(),
        enc.layout == (WeightLayout::PackedPanels { m_r }),
        x@.len() == batch * enc.d_in,
        b < batch,
        lane < m_r,
        panel * m_r + lane < enc.d_sae,
    ensures
        pre_activation(*unit, false, *enc, x@, b as int, panel * m_r + lane, r),
{
    let d_in: usize = enc.d_in;
    let x_len: usize = x.len();
    let w_len: usize = enc.w_enc.len();
    proof {
        lemma_mul_nonnegative(panel as int, m_r as int);
        lemma_row(batch as int, d_in as int, b as int);
        lemma_direction(*enc, m_r as int, panel as int, lane as int);
    }
    let f: usize = panel * m_r + lane;
    let bias: u32 = enc.b_enc[f];
    let panel_base: usize = panel * (m_r * d_in);
    dot_strided(
        unit,
        false,
        bias,
        x,
        b * d_in,
        enc.w_enc.as_slice(),
        panel_base + lane,
        m_r,
        d_in,
    )
}

/// Encoder over packed panels: outer over panels, then over the lanes within a
/// panel, then over batch rows, then the inner reduction.
pub fn encode_f32<F: Fn(FloatOp) -> u32>(
    x: &[u32],
    enc: &EncoderWeights,
    pre_acts: &mut [u32],
    batch: usize,
    unit: &F,
)
    requires
        total(*unit),
        enc.wf(),
        enc.layout is PackedPanels,
        x@.len() == batch * enc.d_in,
        old(pre_acts)@.len() == batch * enc.d_sae,
    ensures
        final(pre_acts)@.len() == old(pre_acts)@.len(),
        forall|b: int, f: int|
            0 <= b < batch && 0 <= f < enc.d_sae ==> pre_activation(
                *unit,
                false,
                *enc,
                x@,
                b,
                f,
                #[trigger] at(final(pre_acts)@, enc.d_sae as int, b, f),
            ),
{
    let d_sae: usize = enc.d_sae;
    let m_r: usize = match enc.layout {
        WeightLayout::PackedPanels { m_r } => m_r,
        WeightLayout::RowMajor => 1,
    };
    let p_len: usize = pre_acts.len();
    let n_panels: usize = panel_count(d_sae, m_r);
    let mut panel: usize = 0;
    proof {
        lemma_panels(d_sae as int, m_r as int);
    }
    while panel < n_panels
        invariant
            total(*unit),
            enc.wf(),
            enc.layout == (WeightLayout::PackedPanels { m_r }),
            d_sae == enc.d_sae,
            x@.len() == batch * enc.d_in,
            pre_acts@.len() == p_len == batch * d_sae,
            panel <= n_panels,
            n_panels == panels(d_sae as int, m_r as int),
            d_sae <= n_panels * m_r,
            forall|b: int, f: int|
                0 <= b < batch && 0 <= f < d_sae && f < panel * m_r ==> pre_activation(
                    *unit,
                    false,
                    *enc,
                    x@,
                    b,
                    f,
                    #[trigger] at(pre_acts@, d_sae as int, b, f),
                ),
        decreases n_panels - panel,
    {
        proof {
            lemma_panel(d_sae as int, m_r as int, panel as int);
        }
        let f0: usize = panel * m_r;
        let lanes: usize = if m_r < d_sae - f0 {
            m_r
        } else {
            d_sae - f0
        };
        let mut lane: usize = 0;
        while lane < lanes
            invariant
                total(*unit),
                enc.wf(),
                enc.layout == (WeightLayout::PackedPanels { m_r }),
                d_sae == enc.d_sae,
                x@.len() == batch * enc.d_in,
                pre_acts@.len() == p_len == batch * d_sae,
                f0 == panel * m_r,
                f0 < d_sae,
                lane <= lanes <= m_r,
                f0 + lanes <= d_sae,
                forall|b: int, f: int|
                    0 <= b < batch && 0 <= f < f0 + lane ==> pre_activation(
                        *unit,
                        false,
                        *enc,
                        x@,
                        b,
                        f,
                        #[trigger] at(pre_acts@, d_sae as int, b, f),
                    ),
            decreases lanes - lane,
        {
            let f: usize = f0 + lane;
            let mut b: usize = 0;
            while b < batch
                invariant
                    total(*unit),
                    enc.wf(),
                    enc.layout == (WeightLayout::PackedPanels { m_r }),
                    d_sae == enc.d_sae,
                    x@.len() == batch * enc.d_in,
                    pre_acts@.len() == p_len == batch * d_sae,
                    f0 == panel * m_r,
                    f == f0 + lane,
                    f < d_sae,
                    lane < m_r,
                    b <= batch,
                    forall|c: int, g: int|
                        0 <= c < batch && 0 <= g < f ==> pre_activation(
                            *unit,
                            false,
                            *enc,
                            x@,
                            c,
                            g,
                            #[trigger] at(pre_acts@, d_sae as int, c, g),
                        ),
                    forall|c: int|
                        0 <= c < b ==> pre_activation(
                            *unit,
                            false,
                            *enc,
                            x@,
                            c,
                            f as int,
                            #[trigger] at(pre_acts@, d_sae as int, c, f as int),
                        ),
                decreases batch - b,
            {
                let r: u32 = scalar_cell(unit, x, enc, batch, b, panel, m_r, lane);
                proof {
                    lemma_store(pre_acts@, batch as int, d_sae as int, b as int, f as int, r);
                    lemma_cell(batch as int, d_sae as int, b as int, f as int);
                }
                pre_acts[b * d_sae + f] = r;
                b += 1;
            }
            lane += 1;
        }
        proof {
            lemma_mul_is_distributive_add_other_way(m_r as int, panel as int, 1);
        }
        panel += 1;
    }
}

} // verus!
