//! Register-tiled GEMM encoder over packed panels.
//!
//! The AVX2 (16x6), AVX-512 (16x12) and NEON (16x6) backends differ only in the
//! number `n_r` of batch rows that one register tile takes; all of them read
//! the same packed layout. A full panel goes through the microkernel in tiles
//! of `n_r` batch rows with fused multiply-adds. The batch rows that are left
//! over, and the trailing panel that is not full, go through scalar arithmetic.
//!
//! Full panels are grouped into M-blocks, the unit of work that a caller may
//! hand to a thread: [`encode_m_block`] computes one block on its own, and
//! [`encode_from_blocks`] puts the blocks into the output, in whatever order they
//! come.

use vstd::arithmetic::div_mod::*;
use vstd::arithmetic::mul::*;
use vstd::prelude::*;

use crate::bits::{total, FloatOp};
use crate::index::{at, lemma_cell, lemma_row, lemma_store, row};
use crate::kernels::gemm::pack::{lemma_panels, panel_count, panels};
use crate::kernels::gemm::tiled_scalar::{lemma_direction, lemma_panel, pre_activation, scalar_cell};
use crate::kernels::reduce::{accumulate, dot, lemma_dot_push, strided};
use crate::sae::{EncoderWeights, WeightLayout};

verus! {

/// The number of leading batch rows that fill whole register tiles.
pub open spec fn tiled_rows(batch: int, n_r: int) -> int {
    (batch / n_r) * n_r
}

/// The number of leading features that fill whole panels.
pub open spec fn tiled_features(d_sae: int, m_r: int) -> int {
    (d_sae / m_r) * m_r
}

/// Whether the pre-activation of feature `f` on batch row `b` comes from the
/// microkernel.
pub open spec fn in_tile(d_sae: int, batch: int, m_r: int, n_r: int, b: int, f: int) -> bool {
    b < tiled_rows(batch, n_r) && f < tiled_features(d_sae, m_r)
}

/// Entry `(i, j)` of a register tile after `k` steps: the bias of lane `j` plus
/// the first `k` products of batch row `i` with lane `j` of the panel.
spec fn tile_entry<F: Fn(FloatOp) -> u32>(
    unit: F,
    w: Seq<u32>,
    x: Seq<u32>,
    bias: Seq<u32>,
    d_in: int,
    m_r: int,
    k: int,
    i: int,
    j: int,
    r: u32,
) -> bool {
    dot(
        unit,
        true,
        bias[j],
        x.subrange(i * d_in, i * d_in + k),
        strided(w, j, m_r, k),
        r,
    )
}

/// Compute one full `m_r x n_r` tile of pre-activations.
///
/// `w` is one packed panel, `x` the `n_r` batch rows of the tile, `bias` the
/// biases of the panel's features. The accumulators start at the biases; each
/// step `k` multiplies the panel's `m_r` weights for input `k` into all of them.
/// The tile comes back row-major, one batch row after the other.
pub fn microkernel<F: Fn(FloatOp) -> u32>(
    w: &[u32],
    x: &[u32],
    d_in: usize,
    bias: &[u32],
    m_r: usize,
    n_r: usize,
    unit: &F,
) -> (tile: Vec<u32>)
    requires
        total(*unit),
        w@.len() == m_r * d_in,
        x@.len() == n_r * d_in,
        bias@.len() == m_r,
        n_r * m_r <= usize::MAX,
    ensures
        tile@.len() == n_r * m_r,
        forall|i: int, j: int|
            0 <= i < n_r && 0 <= j < m_r ==> dot(
                *unit,
                true,
                bias@[j],
                row(x@, d_in as int, i),
                strided(w@, j, m_r as int, d_in as int),
                #[trigger] at(tile@, m_r as int, i, j),
            ),
{
    let w_len: usize = w.len();
    let x_len: usize = x.len();
    let mut acc: Vec<u32> = Vec::new();
    let mut i: usize = 0;
    while i < n_r
        invariant
            i <= n_r,
            n_r * m_r <= usize::MAX,
            bias@.len() == m_r,
            acc@.len() == i * m_r,
            forall|c: int, g: int|
                0 <= c < i && 0 <= g < m_r ==> #[trigger] at(acc@, m_r as int, c, g) == bias@[g],
        decreases n_r - i,
    {
        let ghost before = acc@;
        let mut j: usize = 0;
        while j < m_r
            invariant
                i < n_r,
                j <= m_r,
                bias@.len() == m_r,
                before.len() == i * m_r,
                acc@ == before + bias@.take(j as int),
            decreases m_r - j,
        {
            acc.push(bias[j]);
            assert(acc@ =~= before + bias@.take(j + 1));
            j += 1;
        }
        proof {
            lemma_mul_is_distributive_add_other_way(m_r as int, i as int, 1);
            assert forall|c: int, g: int| 0 <= c < i + 1 && 0 <= g < m_r implies #[trigger] at(
                acc@,
                m_r as int,
                c,
                g,
            ) == bias@[g] by {
                if c < i {
                    lemma_cell(i as int, m_r as int, c, g);
                    assert(at(before, m_r as int, c, g) == bias@[g]);
                }
            }
        }
        i += 1;
    }
    let mut k: usize = 0;
    assert forall|i: int, j: int| 0 <= i < n_r && 0 <= j < m_r implies tile_entry(
        *unit,
        w@,
        x@,
        bias@,
        d_in as int,
        m_r as int,
        0,
        i,
        j,
        #[trigger] at(acc@, m_r as int, i, j),
    ) by {
        lemma_row(n_r as int, d_in as int, i);
        assert(x@.subrange(i * d_in, i * d_in + 0) =~= Seq::<u32>::empty());
    }
    while k < d_in
        invariant
            total(*unit),
            k <= d_in,
            w@.len() == w_len == m_r * d_in,
            x@.len() == x_len == n_r * d_in,
            bias@.len() == m_r,
            n_r * m_r <= usize::MAX,
            acc@.len() == n_r * m_r,
            forall|i: int, j: int|
                0 <= i < n_r && 0 <= j < m_r ==> tile_entry(
                    *unit,
                    w@,
                    x@,
                    bias@,
                    d_in as int,
                    m_r as int,
                    k as int,
                    i,
                    j,
                    #[trigger] at(acc@, m_r as int, i, j),
                ),
        decreases d_in - k,
    {
        let mut i: usize = 0;
        while i < n_r
            invariant
                total(*unit),
                k < d_in,
                i <= n_r,
                w@.len() == w_len == m_r * d_in,
                x@.len() == x_len == n_r * d_in,
                bias@.len() == m_r,
                n_r * m_r <= usize::MAX,
                acc@.len() == n_r * m_r,
                forall|c: int, g: int|
                    0 <= c < n_r && 0 <= g < m_r ==> tile_entry(
                        *unit,
                        w@,
                        x@,
                        bias@,
                        d_in as int,
                        m_r as int,
                        if c < i {
                            k + 1
                        } else {
                            k as int
                        },
                        c,
                        g,
                        #[trigger] at(acc@, m_r as int, c, g),
                    ),
            decreases n_r - i,
        {
            proof {
                lemma_cell(n_r as int, d_in as int, i as int, k as int);
            }
            let xv: u32 = x[i * d_in + k];
            let mut j: usize = 0;
            while j < m_r
                invariant
                    total(*unit),
                    k < d_in,
                    i < n_r,
                    j <= m_r,
                    w@.len() == w_len == m_r * d_in,
                    x@.len() == x_len == n_r * d_in,
                    bias@.len() == m_r,
                    n_r * m_r <= usize::MAX,
                    acc@.len() == n_r * m_r,
                    i * d_in + k < x@.len(),
                    xv == x@[i * d_in + k],
                    forall|c: int, g: int|
                        0 <= c < n_r && 0 <= g < m_r ==> tile_entry(
                            *unit,
                            w@,
                            x@,
                            bias@,
                            d_in as int,
                            m_r as int,
                            if c < i || (c == i && g < j) {
                                k + 1
                            } else {
                                k as int
                            },
                            c,
                            g,
                            #[trigger] at(acc@, m_r as int, c, g),
                        ),
                decreases m_r - j,
            {
                proof {
                    lemma_mul_is_commutative(m_r as int, d_in as int);
                    lemma_cell(d_in as int, m_r as int, k as int, j as int);
                    lemma_cell(n_r as int, m_r as int, i as int, j as int);
                }
                let wv: u32 = w[k * m_r + j];
                let prev: u32 = acc[i * m_r + j];
                let next: u32 = accumulate(unit, true, prev, xv, wv);
                proof {
                    let xs = x@.subrange(i * d_in, i * d_in + k);
                    let ws = strided(w@, j as int, m_r as int, k as int);
                    assert(prev == at(acc@, m_r as int, i as int, j as int));
                    lemma_row(n_r as int, d_in as int, i as int);
                    lemma_dot_push(*unit, true, bias@[j as int], xs, ws, prev, xv, wv, next);
                    assert(x@.subrange(i * d_in, i * d_in + (k + 1)) =~= xs.push(xv));
                    assert(strided(w@, j as int, m_r as int, k + 1) =~= ws.push(wv));
                    lemma_store(acc@, n_r as int, m_r as int, i as int, j as int, next);
                }
                acc.set(i * m_r + j, next);
                j += 1;
            }
            i += 1;
        }
        k += 1;
    }
    assert forall|i: int, j: int| 0 <= i < n_r && 0 <= j < m_r implies dot(
        *unit,
        true,
        bias@[j],
        row(x@, d_in as int, i),
        strided(w@, j, m_r as int, d_in as int),
        #[trigger] at(acc@, m_r as int, i, j),
    ) by {
        lemma_row(n_r as int, d_in as int, i);
    }
    acc
}

/// `out` holds the pre-activations of all batch rows for one full panel,
/// row-major with `m_r` columns.
pub open spec fn panel_done<F: Fn(FloatOp) -> u32>(
    unit: F,
    enc: EncoderWeights,
    x: Seq<u32>,
    batch: int,
    m_r: int,
    n_r: int,
    panel: int,
    out: Seq<u32>,
) -> bool {
    &&& out.len() == batch * m_r
    &&& forall|b: int, lane: int|
        0 <= b < batch && 0 <= lane < m_r ==> pre_activation(
            unit,
            b < tiled_rows(batch, n_r),
            enc,
            x,
            b,
            panel * m_r + lane,
            #[trigger] at(out, m_r, b, lane),
        )
}

/// A full panel ends at or before the last feature.
proof fn lemma_full_panel(d_sae: int, m_r: int, panel: int)
    requires
        0 < m_r,
        0 <= d_sae,
        0 <= panel < d_sae / m_r,
    ensures
        0 <= panel * m_r,
        panel * m_r + m_r <= tiled_features(d_sae, m_r) <= d_sae,
        (panel + 1) * m_r == panel * m_r + m_r,
        m_r <= d_sae,
        panel < panels(d_sae, m_r),
{
    lemma_panels(d_sae, m_r);
    lemma_row(d_sae / m_r, m_r, panel);
}

/// Run the microkernel for every full tile of `n_r` batch rows on a single full
/// panel, then scalar arithmetic for the batch rows that are left over.
pub fn process_full_panel<F: Fn(FloatOp) -> u32>(
    panel: usize,
    x: &[u32],
    enc: &EncoderWeights,
    batch: usize,
    m_r: usize,
    n_r: usize,
    unit: &F,
) -> (out: Vec<u32>)
    requires
        total(*unit),
        enc.wf(),
        enc.layout == (WeightLayout::PackedPanels { m_r }),
        x@.len() == batch * enc.d_in,
        batch * enc.d_sae <= usize::MAX,
        n_r > 0,
        panel < enc.d_sae as int / m_r as int,
    ensures
        panel_done(*unit, *enc, x@, batch as int, m_r as int, n_r as int, panel as int, out@),
{
    let d_in: usize = enc.d_in;
    let d_sae: usize = enc.d_sae;
    let x_len: usize = x.len();
    let w_len: usize = enc.w_enc.len();
    proof {
        lemma_full_panel(d_sae as int, m_r as int, panel as int);
        lemma_mul_inequality(m_r as int, d_sae as int, batch as int);
        lemma_mul_is_commutative(m_r as int, batch as int);
        lemma_mul_is_commutative(d_sae as int, batch as int);
        lemma_fundamental_div_mod(batch as int, n_r as int);
        lemma_mul_is_commutative(n_r as int, batch as int / n_r as int);
        lemma_direction(*enc, m_r as int, panel as int, 0);
    }
    let f0: usize = panel * m_r;
    let n_full_batches: usize = batch / n_r;
    let b_tail_start: usize = n_full_batches * n_r;
    let bias: &[u32] = vstd::slice::slice_subrange(enc.b_enc.as_slice(), f0, f0 + m_r);
    let mut out: Vec<u32> = Vec::new();

    proof {
        assert((0 * n_r) * m_r == 0) by (nonlinear_arith);
    }
    let panel_base: usize = panel * (m_r * d_in);
    let w: &[u32] = vstd::slice::slice_subrange(
        enc.w_enc.as_slice(),
        panel_base,
        panel_base + m_r * d_in,
    );
    let mut block: usize = 0;
    while block < n_full_batches
        invariant
            total(*unit),
            enc.wf(),
            enc.layout == (WeightLayout::PackedPanels { m_r }),
            d_in == enc.d_in,
            d_sae == enc.d_sae,
            x@.len() == x_len == batch * d_in,
            n_r > 0,
            m_r > 0,
            batch * m_r <= usize::MAX,
            n_full_batches == batch / n_r,
            b_tail_start == n_full_batches * n_r <= batch,
            b_tail_start == tiled_rows(batch as int, n_r as int),
            block <= n_full_batches,
            f0 == panel * m_r,
            f0 + m_r <= d_sae,
            panel_base == panel * (m_r * d_in),
            panel_base + m_r * d_in <= enc.w_enc@.len(),
            w@ == enc.w_enc@.subrange(panel_base as int, panel_base + m_r * d_in),
            bias@ == enc.b_enc@.subrange(f0 as int, f0 + m_r),
            out@.len() == (block * n_r) * m_r,
            forall|b: int, lane: int|
                0 <= b < block * n_r && 0 <= lane < m_r ==> pre_activation(
                    *unit,
                    true,
                    *enc,
                    x@,
                    b,
                    panel * m_r + lane,
                    #[trigger] at(out@, m_r as int, b, lane),
                ),
        decreases n_full_batches - block,
    {
        proof {
            lemma_row(n_full_batches as int, n_r as int, block as int);
            lemma_mul_inequality((block + 1) * n_r, batch as int, d_in as int);
            lemma_mul_inequality(block * n_r, batch as int, d_in as int);
            lemma_mul_nonnegative(block * n_r, d_in as int);
            lemma_mul_is_distributive_add_other_way(d_in as int, block * n_r, n_r as int);
            lemma_mul_inequality(n_r as int, batch as int, m_r as int);
            lemma_mul_is_distributive_add_other_way(m_r as int, block * n_r, n_r as int);
        }
        let b0: usize = block * n_r;
        let tile_x: &[u32] = vstd::slice::slice_subrange(x, b0 * d_in, (b0 + n_r) * d_in);
        let mut tile: Vec<u32> = microkernel(w, tile_x, d_in, bias, m_r, n_r, unit);
        let ghost before = out@;
        let ghost done = tile@;
        out.append(&mut tile);
        proof {
            assert forall|b: int, lane: int|
                0 <= b < (block + 1) * n_r && 0 <= lane < m_r implies pre_activation(
                *unit,
                true,
                *enc,
                x@,
                b,
                panel * m_r + lane,
                #[trigger] at(out@, m_r as int, b, lane),
            ) by {
                if b < b0 {
                    lemma_cell(b0 as int, m_r as int, b, lane);
                    assert(at(out@, m_r as int, b, lane) == at(before, m_r as int, b, lane));
                } else {
                    let i = b - b0;
                    lemma_cell(n_r as int, m_r as int, i, lane);
                    lemma_mul_is_distributive_add_other_way(m_r as int, b0 as int, i);
                    assert(at(out@, m_r as int, b, lane) == at(done, m_r as int, i, lane));
                    lemma_row(n_r as int, d_in as int, i);
                    lemma_mul_is_distributive_add_other_way(d_in as int, b0 as int, i);
                    lemma_mul_is_distributive_add_other_way(d_in as int, b, 1);
                    assert(row(x@, d_in as int, b) =~= row(tile_x@, d_in as int, i));
                    lemma_direction(*enc, m_r as int, panel as int, lane);
                    lemma_tile_weights(enc.w_enc@, w@, panel_base as int, m_r as int, d_in as int, lane);
                    assert(bias@[lane] == enc.b_enc@[panel * m_r + lane]);
                }
            }
        }
        block += 1;
    }

    // Batch rows past the last full tile.
    let mut b: usize = b_tail_start;
    while b < batch
        invariant
            total(*unit),
            enc.wf(),
            enc.layout == (WeightLayout::PackedPanels { m_r }),
            d_sae == enc.d_sae,
            x@.len() == batch * enc.d_in,
            m_r > 0,
            b_tail_start == tiled_rows(batch as int, n_r as int),
            b_tail_start <= b <= batch,
            f0 == panel * m_r,
            f0 + m_r <= d_sae,
            out@.len() == b * m_r,
            forall|c: int, lane: int|
                0 <= c < b && 0 <= lane < m_r ==> pre_activation(
                    *unit,
                    c < b_tail_start,
                    *enc,
                    x@,
                    c,
                    panel * m_r + lane,
                    #[trigger] at(out@, m_r as int, c, lane),
                ),
        decreases batch - b,
    {
        let ghost before = out@;
        let mut lane: usize = 0;
        while lane < m_r
            invariant
                total(*unit),
                enc.wf(),
                enc.layout == (WeightLayout::PackedPanels { m_r }),
                d_sae == enc.d_sae,
                x@.len() == batch * enc.d_in,
                b < batch,
                lane <= m_r,
                f0 == panel * m_r,
                f0 + m_r <= d_sae,
                before.len() == b * m_r,
                out@.len() == b * m_r + lane,
                forall|p: int| 0 <= p < before.len() ==> #[trigger] out@[p] == before[p],
                forall|g: int|
                    0 <= g < lane ==> pre_activation(
                        *unit,
                        false,
                        *enc,
                        x@,
                        b as int,
                        panel * m_r + g,
                        #[trigger] at(out@, m_r as int, b as int, g),
                    ),
            decreases m_r - lane,
        {
            let r: u32 = scalar_cell(unit, x, enc, batch, b, panel, m_r, lane);
            let ghost so_far = out@;
            out.push(r);
            assert forall|g: int| 0 <= g < lane + 1 implies pre_activation(
                *unit,
                false,
                *enc,
                x@,
                b as int,
                panel * m_r + g,
                #[trigger] at(out@, m_r as int, b as int, g),
            ) by {
                if g < lane {
                    assert(at(out@, m_r as int, b as int, g) == at(so_far, m_r as int, b as int, g)) by {
                        lemma_mul_nonnegative(b as int, m_r as int);
                    }
                }
            }
            lane += 1;
        }
        proof {
            lemma_mul_is_distributive_add_other_way(m_r as int, b as int, 1);
            assert forall|c: int, lane: int| 0 <= c < b + 1 && 0 <= lane < m_r implies pre_activation(
                *unit,
                c < b_tail_start,
                *enc,
                x@,
                c,
                panel * m_r + lane,
                #[trigger] at(out@, m_r as int, c, lane),
            ) by {
                if c < b {
                    lemma_cell(b as int, m_r as int, c, lane);
                    assert(at(out@, m_r as int, c, lane) == at(before, m_r as int, c, lane));
                }
            }
        }
        b += 1;
    }
    out
}

/// One lane of a panel, read from the panel or from the whole buffer.
proof fn lemma_tile_weights(all: Seq<u32>, w: Seq<u32>, base: int, m_r: int, d_in: int, lane: int)
    requires
        0 <= base,
        base + m_r * d_in <= all.len(),
        w == all.subrange(base, base + m_r * d_in),
        0 <= lane < m_r,
        0 <= d_in,
    ensures
        strided(w, lane, m_r, d_in) == strided(all, base + lane, m_r, d_in),
{
    assert forall|k: int| 0 <= k < d_in implies #[trigger] strided(w, lane, m_r, d_in)[k]
        == strided(all, base + lane, m_r, d_in)[k] by {
        lemma_cell(d_in, m_r, k, lane);
        lemma_mul_is_commutative(m_r, d_in);
    }
    assert(strided(w, lane, m_r, d_in) =~= strided(all, base + lane, m_r, d_in));
}

/// The number of panels in one M-block.
pub open spec fn block_panels(m_c: int, m_r: int) -> int {
    if m_c / m_r < 1 {
        1
    } else {
        m_c / m_r
    }
}

/// The end of an M-block: the start of the next, or the last full panel.
pub open spec fn block_end(m_block: int, per_block: int, n_full: int) -> int {
    if (m_block + 1) * per_block < n_full {
        (m_block + 1) * per_block
    } else {
        n_full
    }
}

/// Panel `p` belongs to M-block `m_block`.
pub open spec fn in_block(m_block: int, per_block: int, n_full: int, p: int) -> bool {
    m_block * per_block <= p < block_end(m_block, per_block, n_full)
}

/// Every full panel belongs to exactly one of the M-blocks.
pub proof fn blocks_partition_panels(per_block: int, n_full: int, p: int)
    requires
        0 < per_block,
        0 <= p < n_full,
    ensures
        exists|m: int| 0 <= m < panels(n_full, per_block) && #[trigger] in_block(m, per_block, n_full, p),
        forall|m: int, n: int| #[trigger]
            in_block(m, per_block, n_full, p) && #[trigger] in_block(n, per_block, n_full, p)
                ==> m == n,
{
    lemma_panels(n_full, per_block);
    let m = p / per_block;
    lemma_fundamental_div_mod(p, per_block);
    lemma_mul_is_commutative(per_block, m);
    lemma_mul_is_distributive_add_other_way(per_block, m, 1);
    assert(in_block(m, per_block, n_full, p));
    assert forall|a: int, b: int| #[trigger]
        in_block(a, per_block, n_full, p) && #[trigger] in_block(b, per_block, n_full, p) implies a
        == b by {
        if a < b {
            lemma_mul_inequality(a + 1, b, per_block);
        }
        if b < a {
            lemma_mul_inequality(b + 1, a, per_block);
        }
    }
}

/// The number of panels in one M-block, for a requested block size of `m_c`
/// features.
pub fn panels_per_m_block(m_c: usize, m_r: usize) -> (res: usize)
    requires
        m_r > 0,
    ensures
        res == block_panels(m_c as int, m_r as int),
        res == (if m_c < m_r {
            1
        } else {
            m_c as int / m_r as int
        }),
        res > 0,
{
    proof {
        lemma_fundamental_div_mod(m_c as int, m_r as int);
        lemma_mod_bound(m_c as int, m_r as int);
        lemma_div_pos_is_pos(m_c as int, m_r as int);
        if m_c as int / m_r as int >= 1 {
            lemma_mul_inequality(1, m_c as int / m_r as int, m_r as int);
            lemma_mul_is_commutative(m_r as int, m_c as int / m_r as int);
        }
    }
    if m_c / m_r < 1 {
        1
    } else {
        m_c / m_r
    }
}

/// The panels `start..end` of an M-block.
pub fn m_block_range(m_block: usize, per_block: usize, n_full: usize) -> (res: (usize, usize))
    requires
        per_block > 0,
        m_block < panels(n_full as int, per_block as int),
    ensures
        res.0 == m_block * per_block,
        res.1 == block_end(m_block as int, per_block as int, n_full as int),
        res.1 == (if res.0 + per_block <= n_full {
            res.0 + per_block
        } else {
            n_full as int
        }),
        res.0 < res.1 <= n_full,
{
    proof {
        lemma_panel(n_full as int, per_block as int, m_block as int);
        lemma_mul_is_distributive_add_other_way(per_block as int, m_block as int, 1);
    }
    let start: usize = m_block * per_block;
    let end: usize = if per_block < n_full - start {
        start + per_block
    } else {
        n_full
    };
    (start, end)
}

/// The tiles of one M-block, one per full panel.
pub open spec fn block_done<F: Fn(FloatOp) -> u32>(
    unit: F,
    enc: EncoderWeights,
    x: Seq<u32>,
    batch: int,
    m_r: int,
    n_r: int,
    start: int,
    end: int,
    tiles: Seq<Vec<u32>>,
) -> bool {
    &&& tiles.len() == end - start
    &&& forall|t: int|
        0 <= t < tiles.len() ==> panel_done(
            unit,
            enc,
            x,
            batch,
            m_r,
            n_r,
            start + t,
            (#[trigger] tiles[t])@,
        )
}

/// Compute one M-block: the tiles of its full panels, in order.
pub fn encode_m_block<F: Fn(FloatOp) -> u32>(
    m_block: usize,
    per_block: usize,
    x: &[u32],
    enc: &EncoderWeights,
    batch: usize,
    m_r: usize,
    n_r: usize,
    unit: &F,
) -> (tiles: Vec<Vec<u32>>)
    requires
        total(*unit),
        enc.wf(),
        enc.layout == (WeightLayout::PackedPanels { m_r }),
        x@.len() == batch * enc.d_in,
        batch * enc.d_sae <= usize::MAX,
        n_r > 0,
        per_block > 0,
        m_block < panels(enc.d_sae as int / m_r as int, per_block as int),
    ensures
        is_block(
            *unit,
            *enc,
            x@,
            batch as int,
            m_r as int,
            n_r as int,
            per_block as int,
            m_block as int,
            tiles@,
        ),
{
    let n_full: usize = enc.d_sae / m_r;
    let (start, end) = m_block_range(m_block, per_block, n_full);
    let mut tiles: Vec<Vec<u32>> = Vec::new();
    let mut panel: usize = start;
    while panel < end
        invariant
            total(*unit),
            enc.wf(),
            enc.layout == (WeightLayout::PackedPanels { m_r }),
            x@.len() == batch * enc.d_in,
            batch * enc.d_sae <= usize::MAX,
            n_r > 0,
            n_full == enc.d_sae as int / m_r as int,
            start <= panel <= end <= n_full,
            block_done(
                *unit,
                *enc,
                x@,
                batch as int,
                m_r as int,
                n_r as int,
                start as int,
                panel as int,
                tiles@,
            ),
        decreases end - panel,
    {
        let tile: Vec<u32> = process_full_panel(panel, x, enc, batch, m_r, n_r, unit);
        tiles.push(tile);
        panel += 1;
    }
    tiles
}

/// Put the tile of one full panel into its columns of the output.
fn store_panel(tile: &Vec<u32>, panel: usize, pre_acts: &mut [u32], batch: usize, d_sae: usize, m_r: usize)
    requires
        tile@.len() == batch * m_r,
        old(pre_acts)@.len() == batch * d_sae,
        m_r > 0,
        panel < d_sae as int / m_r as int,
    ensures
        final(pre_acts)@.len() == old(pre_acts)@.len(),
        forall|b: int, f: int|
            0 <= b < batch && 0 <= f < d_sae ==> #[trigger] at(final(pre_acts)@, d_sae as int, b, f)
                == (if panel * m_r <= f < panel * m_r + m_r {
                at(tile@, m_r as int, b, f - panel * m_r)
            } else {
                at(old(pre_acts)@, d_sae as int, b, f)
            }),
{
    proof {
        lemma_full_panel(d_sae as int, m_r as int, panel as int);
    }
    let f0: usize = panel * m_r;
    let p_len: usize = pre_acts.len();
    let t_len: usize = tile.len();
    let mut b: usize = 0;
    while b < batch
        invariant
            b <= batch,
            f0 == panel * m_r,
            f0 + m_r <= d_sae,
            tile@.len() == t_len == batch * m_r,
            pre_acts@.len() == p_len == batch * d_sae,
            old(pre_acts)@.len() == p_len,
            forall|c: int, f: int|
                0 <= c < batch && 0 <= f < d_sae ==> #[trigger] at(pre_acts@, d_sae as int, c, f)
                    == (if c < b && f0 <= f < f0 + m_r {
                    at(tile@, m_r as int, c, f - f0)
                } else {
                    at(old(pre_acts)@, d_sae as int, c, f)
                }),
        decreases batch - b,
    {
        let mut lane: usize = 0;
        while lane < m_r
            invariant
                b < batch,
                lane <= m_r,
                f0 == panel * m_r,
                f0 + m_r <= d_sae,
                tile@.len() == t_len == batch * m_r,
                pre_acts@.len() == p_len == batch * d_sae,
                old(pre_acts)@.len() == p_len,
                forall|c: int, f: int|
                    0 <= c < batch && 0 <= f < d_sae ==> #[trigger] at(
                        pre_acts@,
                        d_sae as int,
                        c,
                        f,
                    ) == (if (c < b && f0 <= f < f0 + m_r) || (c == b && f0 <= f < f0 + lane) {
                        at(tile@, m_r as int, c, f - f0)
                    } else {
                        at(old(pre_acts)@, d_sae as int, c, f)
                    }),
            decreases m_r - lane,
        {
            proof {
                lemma_cell(batch as int, m_r as int, b as int, lane as int);
                lemma_cell(batch as int, d_sae as int, b as int, f0 + lane);
            }
            let v: u32 = tile[b * m_r + lane];
            proof {
                lemma_store(pre_acts@, batch as int, d_sae as int, b as int, f0 + lane, v);
            }
            pre_acts[b * d_sae + (f0 + lane)] = v;
            lane += 1;
        }
        b += 1;
    }
}

/// The features below `upto` have their pre-activations in `pre`.
pub open spec fn features_done<F: Fn(FloatOp) -> u32>(
    unit: F,
    enc: EncoderWeights,
    x: Seq<u32>,
    batch: int,
    m_r: int,
    n_r: int,
    upto: int,
    pre: Seq<u32>,
) -> bool {
    forall|b: int, f: int|
        0 <= b < batch && 0 <= f < enc.d_sae && f < upto ==> pre_activation(
            unit,
            in_tile(enc.d_sae as int, batch, m_r, n_r, b, f),
            enc,
            x,
            b,
            f,
            #[trigger] at(pre, enc.d_sae as int, b, f),
        )
}

/// `after` is `before` with the tiles of an M-block that starts at panel `start`
/// put into their columns.
pub open spec fn stores(
    tiles: Seq<Vec<u32>>,
    start: int,
    batch: int,
    d_sae: int,
    m_r: int,
    before: Seq<u32>,
    after: Seq<u32>,
) -> bool {
    &&& after.len() == before.len()
    &&& forall|b: int, f: int|
        0 <= b < batch && 0 <= f < d_sae ==> #[trigger] at(after, d_sae, b, f) == (if start <= f
            / m_r && f / m_r < start + tiles.len() {
            at(tiles[f / m_r - start]@, m_r, b, f % m_r)
        } else {
            at(before, d_sae, b, f)
        })
}

/// Put the tiles of an M-block that starts at panel `start` into the output.
/// The columns of other panels stay as they are.
pub fn store_m_block(
    tiles: &Vec<Vec<u32>>,
    start: usize,
    pre_acts: &mut [u32],
    batch: usize,
    d_sae: usize,
    m_r: usize,
)
    requires
        m_r > 0,
        start + tiles@.len() <= d_sae as int / m_r as int,
        forall|t: int| 0 <= t < tiles@.len() ==> (#[trigger] tiles@[t])@.len() == batch * m_r,
        old(pre_acts)@.len() == batch * d_sae,
    ensures
        stores(
            tiles@,
            start as int,
            batch as int,
            d_sae as int,
            m_r as int,
            old(pre_acts)@,
            final(pre_acts)@,
        ),
{
    let mut t: usize = 0;
    let n_full: usize = d_sae / m_r;
    while t < tiles.len()
        invariant
            m_r > 0,
            t <= tiles@.len(),
            n_full == d_sae as int / m_r as int,
            start + tiles@.len() <= n_full,
            forall|t: int| 0 <= t < tiles@.len() ==> (#[trigger] tiles@[t])@.len() == batch * m_r,
            pre_acts@.len() == old(pre_acts)@.len() == batch * d_sae,
            forall|b: int, f: int|
                0 <= b < batch && 0 <= f < d_sae ==> #[trigger] at(pre_acts@, d_sae as int, b, f)
                    == (if start <= f / m_r as int && f / (m_r as int) < start + t {
                    at(tiles@[f / m_r as int - start]@, m_r as int, b, f % m_r as int)
                } else {
                    at(old(pre_acts)@, d_sae as int, b, f)
                }),
        decreases tiles@.len() - t,
    {
        let ghost before = pre_acts@;
        let panel: usize = start + t;
        store_panel(&tiles[t], panel, pre_acts, batch, d_sae, m_r);
        proof {
            assert forall|b: int, f: int|
                0 <= b < batch && 0 <= f < d_sae implies #[trigger] at(pre_acts@, d_sae as int, b, f)
                == (if start <= f / m_r as int && f / (m_r as int) < start + t + 1 {
                at(tiles@[f / m_r as int - start]@, m_r as int, b, f % m_r as int)
            } else {
                at(old(pre_acts)@, d_sae as int, b, f)
            }) by {
                assert(at(before, d_sae as int, b, f) == at(before, d_sae as int, b, f));
                lemma_fundamental_div_mod(f, m_r as int);
                lemma_mul_is_commutative(m_r as int, f / m_r as int);
                if panel * m_r <= f < panel * m_r + m_r {
                    lemma_fundamental_div_mod_converse(f, m_r as int, panel as int, f - panel * m_r);
                } else if f / m_r as int == panel {
                    assert(false);
                }
            }
        }
        t += 1;
    }
}

/// The features of M-block `m_block` have their pre-activations in `pre`.
pub open spec fn block_stored<F: Fn(FloatOp) -> u32>(
    unit: F,
    enc: EncoderWeights,
    x: Seq<u32>,
    batch: int,
    m_r: int,
    n_r: int,
    per_block: int,
    m_block: int,
    pre: Seq<u32>,
) -> bool {
    forall|b: int, f: int|
        0 <= b < batch && 0 <= f < enc.d_sae && in_block(
            m_block,
            per_block,
            enc.d_sae as int / m_r,
            f / m_r,
        ) ==> pre_activation(
            unit,
            in_tile(enc.d_sae as int, batch, m_r, n_r, b, f),
            enc,
            x,
            b,
            f,
            #[trigger] at(pre, enc.d_sae as int, b, f),
        )
}

/// `tiles` are the tiles of M-block `m_block`.
pub open spec fn is_block<F: Fn(FloatOp) -> u32>(
    unit: F,
    enc: EncoderWeights,
    x: Seq<u32>,
    batch: int,
    m_r: int,
    n_r: int,
    per_block: int,
    m_block: int,
    tiles: Seq<Vec<u32>>,
) -> bool {
    block_done(
        unit,
        enc,
        x,
        batch,
        m_r,
        n_r,
        m_block * per_block,
        block_end(m_block, per_block, enc.d_sae as int / m_r),
        tiles,
    )
}

/// Storing the tiles of one M-block completes its features, and takes nothing
/// from a block that was stored before.
pub proof fn storing_completes_a_block<F: Fn(FloatOp) -> u32>(
    unit: F,
    enc: EncoderWeights,
    x: Seq<u32>,
    batch: int,
    m_r: int,
    n_r: int,
    per_block: int,
    m_block: int,
    tiles: Seq<Vec<u32>>,
    before: Seq<u32>,
    after: Seq<u32>,
)
    requires
        0 < m_r,
        0 < per_block,
        0 <= m_block,
        is_block(unit, enc, x, batch, m_r, n_r, per_block, m_block, tiles),
        stores(tiles, m_block * per_block, batch, enc.d_sae as int, m_r, before, after),
    ensures
        block_stored(unit, enc, x, batch, m_r, n_r, per_block, m_block, after),
        forall|other: int| #[trigger]
            block_stored(unit, enc, x, batch, m_r, n_r, per_block, other, before) ==> block_stored(
                unit,
                enc,
                x,
                batch,
                m_r,
                n_r,
                per_block,
                other,
                after,
            ),
{
    let d_sae = enc.d_sae as int;
    let start = m_block * per_block;
    assert forall|b: int, f: int|
        0 <= b < batch && 0 <= f < d_sae && in_block(m_block, per_block, d_sae / m_r, f / m_r)
            implies pre_activation(
        unit,
        in_tile(d_sae, batch, m_r, n_r, b, f),
        enc,
        x,
        b,
        f,
        #[trigger] at(after, d_sae, b, f),
    ) by {
        let p = f / m_r;
        let t = p - start;
        lemma_fundamental_div_mod(f, m_r);
        lemma_mod_bound(f, m_r);
        lemma_mul_is_commutative(m_r, p);
        lemma_mul_inequality(p + 1, d_sae / m_r, m_r);
        lemma_mul_is_distributive_add_other_way(m_r, p, 1);
        assert(panel_done(unit, enc, x, batch, m_r, n_r, start + t, tiles[t]@));
        assert(at(after, d_sae, b, f) == at(tiles[t]@, m_r, b, f % m_r));
    }
    assert forall|other: int| #[trigger]
        block_stored(unit, enc, x, batch, m_r, n_r, per_block, other, before) implies block_stored(
        unit,
        enc,
        x,
        batch,
        m_r,
        n_r,
        per_block,
        other,
        after,
    ) by {
        assert forall|b: int, f: int|
            0 <= b < batch && 0 <= f < d_sae && in_block(other, per_block, d_sae / m_r, f / m_r)
                implies pre_activation(
            unit,
            in_tile(d_sae, batch, m_r, n_r, b, f),
            enc,
            x,
            b,
            f,
            #[trigger] at(after, d_sae, b, f),
        ) by {
            if !in_block(m_block, per_block, d_sae / m_r, f / m_r) {
                assert(at(after, d_sae, b, f) == at(before, d_sae, b, f));
            }
        }
    }
}

/// Once every M-block is stored, every feature of a full panel is done.
proof fn lemma_all_blocks_stored<F: Fn(FloatOp) -> u32>(
    unit: F,
    enc: EncoderWeights,
    x: Seq<u32>,
    batch: int,
    m_r: int,
    n_r: int,
    per_block: int,
    pre: Seq<u32>,
)
    requires
        0 < m_r,
        0 < per_block,
        forall|m: int|
            0 <= m < panels(enc.d_sae as int / m_r, per_block) ==> #[trigger] block_stored(
                unit,
                enc,
                x,
                batch,
                m_r,
                n_r,
                per_block,
                m,
                pre,
            ),
    ensures
        features_done(unit, enc, x, batch, m_r, n_r, tiled_features(enc.d_sae as int, m_r), pre),
{
    let d_sae = enc.d_sae as int;
    let n_full = d_sae / m_r;
    assert forall|b: int, f: int|
        0 <= b < batch && 0 <= f < d_sae && f < tiled_features(d_sae, m_r) implies pre_activation(
        unit,
        in_tile(d_sae, batch, m_r, n_r, b, f),
        enc,
        x,
        b,
        f,
        #[trigger] at(pre, d_sae, b, f),
    ) by {
        let p = f / m_r;
        lemma_fundamental_div_mod(f, m_r);
        lemma_mul_is_commutative(m_r, p);
        lemma_div_pos_is_pos(f, m_r);
        if p >= n_full {
            lemma_mul_inequality(n_full, p, m_r);
        }
        blocks_partition_panels(per_block, n_full, p);
        let m = choose|m: int|
            0 <= m < panels(n_full, per_block) && #[trigger] in_block(m, per_block, n_full, p);
        assert(block_stored(unit, enc, x, batch, m_r, n_r, per_block, m, pre));
    }
}

/// The `i`-th store of a run of stores, which puts the tiles of block `order[i]`
/// into the output.
pub open spec fn stored_in_turn<F: Fn(FloatOp) -> u32>(
    unit: F,
    enc: EncoderWeights,
    x: Seq<u32>,
    batch: int,
    m_r: int,
    n_r: int,
    per_block: int,
    order: Seq<int>,
    tiles: Seq<Seq<Vec<u32>>>,
    pres: Seq<Seq<u32>>,
    i: int,
) -> bool {
    &&& 0 <= order[i]
    &&& is_block(unit, enc, x, batch, m_r, n_r, per_block, order[i], tiles[i])
    &&& stores(
        tiles[i],
        order[i] * per_block,
        batch,
        enc.d_sae as int,
        m_r,
        pres[i],
        pres[i + 1],
    )
}

/// The blocks among the first `n` of a run of stores are stored after `n` stores.
proof fn lemma_stored_in_turn<F: Fn(FloatOp) -> u32>(
    unit: F,
    enc: EncoderWeights,
    x: Seq<u32>,
    batch: int,
    m_r: int,
    n_r: int,
    per_block: int,
    order: Seq<int>,
    tiles: Seq<Seq<Vec<u32>>>,
    pres: Seq<Seq<u32>>,
    n: int,
)
    requires
        0 < m_r,
        0 < per_block,
        0 <= n <= order.len(),
        forall|i: int|
            0 <= i < order.len() ==> #[trigger] stored_in_turn(
                unit,
                enc,
                x,
                batch,
                m_r,
                n_r,
                per_block,
                order,
                tiles,
                pres,
                i,
            ),
    ensures
        forall|i: int|
            0 <= i < n ==> block_stored(
                unit,
                enc,
                x,
                batch,
                m_r,
                n_r,
                per_block,
                #[trigger] order[i],
                pres[n],
            ),
    decreases n,
{
    if n > 0 {
        let k = n - 1;
        lemma_stored_in_turn(unit, enc, x, batch, m_r, n_r, per_block, order, tiles, pres, k);
        assert(stored_in_turn(unit, enc, x, batch, m_r, n_r, per_block, order, tiles, pres, k));
        storing_completes_a_block(
            unit,
            enc,
            x,
            batch,
            m_r,
            n_r,
            per_block,
            order[k],
            tiles[k],
            pres[k],
            pres[n],
        );
        assert forall|i: int| 0 <= i < n implies block_stored(
            unit,
            enc,
            x,
            batch,
            m_r,
            n_r,
            per_block,
            #[trigger] order[i],
            pres[n],
        ) by {
            if i < k {
                assert(block_stored(
                    unit,
                    enc,
                    x,
                    batch,
                    m_r,
                    n_r,
                    per_block,
                    order[i],
                    pres[k],
                ));
            }
        }
    }
}

/// The order of the M-blocks does not matter: blocks computed apart, by however
/// many threads, and stored one after the other in any order complete every
/// feature of a full panel as soon as every block is among them.
pub proof fn block_order_does_not_matter<F: Fn(FloatOp) -> u32>(
    unit: F,
    enc: EncoderWeights,
    x: Seq<u32>,
    batch: int,
    m_r: int,
    n_r: int,
    per_block: int,
    order: Seq<int>,
    tiles: Seq<Seq<Vec<u32>>>,
    pres: Seq<Seq<u32>>,
)
    requires
        0 < m_r,
        0 < per_block,
        forall|i: int|
            0 <= i < order.len() ==> #[trigger] stored_in_turn(
                unit,
                enc,
                x,
                batch,
                m_r,
                n_r,
                per_block,
                order,
                tiles,
                pres,
                i,
            ),
        forall|m: int|
            0 <= m < panels(enc.d_sae as int / m_r, per_block) ==> #[trigger] order.contains(m),
    ensures
        features_done(
            unit,
            enc,
            x,
            batch,
            m_r,
            n_r,
            tiled_features(enc.d_sae as int, m_r),
            pres[order.len() as int],
        ),
{
    let n = order.len() as int;
    lemma_stored_in_turn(unit, enc, x, batch, m_r, n_r, per_block, order, tiles, pres, n);
    assert forall|m: int|
        0 <= m < panels(enc.d_sae as int / m_r, per_block) implies #[trigger] block_stored(
        unit,
        enc,
        x,
        batch,
        m_r,
        n_r,
        per_block,
        m,
        pres[n],
    ) by {
        assert(order.contains(m));
        let i = choose|i: int| 0 <= i < order.len() && order[i] == m;
        assert(block_stored(unit, enc, x, batch, m_r, n_r, per_block, order[i], pres[n]));
    }
    lemma_all_blocks_stored(unit, enc, x, batch, m_r, n_r, per_block, pres[n]);
}

/// Scalar arithmetic for the trailing panel that is not full.
fn scalar_tile_for_panel<F: Fn(FloatOp) -> u32>(
    x: &[u32],
    enc: &EncoderWeights,
    pre_acts: &mut [u32],
    batch: usize,
    m_r: usize,
    n_r: usize,
    unit: &F,
)
    requires
        total(*unit),
        enc.wf(),
        enc.layout == (WeightLayout::PackedPanels { m_r }),
        x@.len() == batch * enc.d_in,
        old(pre_acts)@.len() == batch * enc.d_sae,
        features_done(
            *unit,
            *enc,
            x@,
            batch as int,
            m_r as int,
            n_r as int,
            tiled_features(enc.d_sae as int, m_r as int),
            old(pre_acts)@,
        ),
    ensures
        final(pre_acts)@.len() == old(pre_acts)@.len(),
        features_done(
            *unit,
            *enc,
            x@,
            batch as int,
            m_r as int,
            n_r as int,
            enc.d_sae as int,
            final(pre_acts)@,
        ),
{
    let d_sae: usize = enc.d_sae;
    let p_len: usize = pre_acts.len();
    let panel: usize = d_sae / m_r;
    proof {
        lemma_panels(d_sae as int, m_r as int);
        lemma_fundamental_div_mod(d_sae as int, m_r as int);
        lemma_mul_is_commutative(m_r as int, panel as int);
    }
    let f0: usize = panel * m_r;
    let mut b: usize = 0;
    while b < batch
        invariant
            total(*unit),
            enc.wf(),
            enc.layout == (WeightLayout::PackedPanels { m_r }),
            d_sae == enc.d_sae,
            x@.len() == batch * enc.d_in,
            pre_acts@.len() == p_len == batch * d_sae,
            b <= batch,
            f0 == panel * m_r,
            f0 == tiled_features(d_sae as int, m_r as int),
            f0 <= d_sae < f0 + m_r,
            forall|c: int, f: int|
                0 <= c < batch && 0 <= f < d_sae && (f < f0 || c < b) ==> pre_activation(
                    *unit,
                    in_tile(d_sae as int, batch as int, m_r as int, n_r as int, c, f),
                    *enc,
                    x@,
                    c,
                    f,
                    #[trigger] at(pre_acts@, d_sae as int, c, f),
                ),
        decreases batch - b,
    {
        let mut lane: usize = 0;
        while lane < d_sae - f0
            invariant
                total(*unit),
                enc.wf(),
                enc.layout == (WeightLayout::PackedPanels { m_r }),
                d_sae == enc.d_sae,
                x@.len() == batch * enc.d_in,
                pre_acts@.len() == p_len == batch * d_sae,
                b < batch,
                lane <= d_sae - f0,
                f0 == panel * m_r,
                f0 == tiled_features(d_sae as int, m_r as int),
                f0 <= d_sae < f0 + m_r,
                forall|c: int, f: int|
                    0 <= c < batch && 0 <= f < d_sae && (f < f0 || c < b || (c == b && f < f0
                        + lane)) ==> pre_activation(
                        *unit,
                        in_tile(d_sae as int, batch as int, m_r as int, n_r as int, c, f),
                        *enc,
                        x@,
                        c,
                        f,
                        #[trigger] at(pre_acts@, d_sae as int, c, f),
                    ),
            decreases d_sae - f0 - lane,
        {
            let r: u32 = scalar_cell(unit, x, enc, batch, b, panel, m_r, lane);
            proof {
                lemma_cell(batch as int, d_sae as int, b as int, f0 + lane);
                lemma_store(pre_acts@, batch as int, d_sae as int, b as int, f0 + lane, r);
            }
            pre_acts[b * d_sae + (f0 + lane)] = r;
            lane += 1;
        }
        b += 1;
    }
}

/// Complete the output from the tiles of all full panels: the trailing panel
/// that is not full is computed here. (Where there is none, nothing is left to
/// do.)
pub fn finish_tail<F: Fn(FloatOp) -> u32>(
    x: &[u32],
    enc: &EncoderWeights,
    pre_acts: &mut [u32],
    batch: usize,
    m_r: usize,
    n_r: usize,
    unit: &F,
)
    requires
        total(*unit),
        enc.wf(),
        enc.layout == (WeightLayout::PackedPanels { m_r }),
        x@.len() == batch * enc.d_in,
        old(pre_acts)@.len() == batch * enc.d_sae,
        features_done(
            *unit,
            *enc,
            x@,
            batch as int,
            m_r as int,
            n_r as int,
            tiled_features(enc.d_sae as int, m_r as int),
            old(pre_acts)@,
        ),
    ensures
        final(pre_acts)@.len() == old(pre_acts)@.len(),
        features_done(
            *unit,
            *enc,
            x@,
            batch as int,
            m_r as int,
            n_r as int,
            enc.d_sae as int,
            final(pre_acts)@,
        ),
{
    proof {
        lemma_panels(enc.d_sae as int, m_r as int);
        lemma_fundamental_div_mod(enc.d_sae as int, m_r as int);
        lemma_mul_is_commutative(m_r as int, enc.d_sae as int / m_r as int);
    }
    let has_partial_panel: bool = panel_count(enc.d_sae, m_r) > enc.d_sae / m_r;
    if has_partial_panel {
        scalar_tile_for_panel(x, enc, pre_acts, batch, m_r, n_r, unit);
    }
}

/// Block `m_block` is among `blocks`.
pub open spec fn has_block(blocks: Seq<(usize, Vec<Vec<u32>>)>, m_block: int) -> bool {
    exists|i: int| 0 <= i < blocks.len() && (#[trigger] blocks[i]).0 == m_block
}

/// Complete the output from M-blocks that were computed apart, each with its
/// number, in any order. Every block must be among them.
pub fn encode_from_blocks<F: Fn(FloatOp) -> u32>(
    blocks: &Vec<(usize, Vec<Vec<u32>>)>,
    per_block: usize,
    x: &[u32],
    enc: &EncoderWeights,
    pre_acts: &mut [u32],
    batch: usize,
    m_r: usize,
    n_r: usize,
    unit: &F,
)
    requires
        total(*unit),
        enc.wf(),
        enc.layout == (WeightLayout::PackedPanels { m_r }),
        x@.len() == batch * enc.d_in,
        old(pre_acts)@.len() == batch * enc.d_sae,
        n_r > 0,
        per_block > 0,
        forall|i: int|
            0 <= i < blocks@.len() ==> (#[trigger] blocks@[i]).0 < panels(
                enc.d_sae as int / m_r as int,
                per_block as int,
            ) && is_block(
                *unit,
                *enc,
                x@,
                batch as int,
                m_r as int,
                n_r as int,
                per_block as int,
                blocks@[i].0 as int,
                blocks@[i].1@,
            ),
        forall|m: int|
            0 <= m < panels(enc.d_sae as int / m_r as int, per_block as int)
                ==> #[trigger] has_block(blocks@, m),
    ensures
        final(pre_acts)@.len() == old(pre_acts)@.len(),
        features_done(
            *unit,
            *enc,
            x@,
            batch as int,
            m_r as int,
            n_r as int,
            enc.d_sae as int,
            final(pre_acts)@,
        ),
{
    let p_len: usize = pre_acts.len();
    let n_full: usize = enc.d_sae / m_r;
    let mut i: usize = 0;
    while i < blocks.len()
        invariant
            enc.wf(),
            enc.layout == (WeightLayout::PackedPanels { m_r }),
            pre_acts@.len() == p_len == batch * enc.d_sae,
            per_block > 0,
            n_full == enc.d_sae as int / m_r as int,
            i <= blocks@.len(),
            forall|j: int|
                0 <= j < blocks@.len() ==> (#[trigger] blocks@[j]).0 < panels(
                    n_full as int,
                    per_block as int,
                ) && is_block(
                    *unit,
                    *enc,
                    x@,
                    batch as int,
                    m_r as int,
                    n_r as int,
                    per_block as int,
                    blocks@[j].0 as int,
                    blocks@[j].1@,
                ),
            forall|j: int|
                0 <= j < i ==> block_stored(
                    *unit,
                    *enc,
                    x@,
                    batch as int,
                    m_r as int,
                    n_r as int,
                    per_block as int,
                    (#[trigger] blocks@[j]).0 as int,
                    pre_acts@,
                ),
        decreases blocks@.len() - i,
    {
        let m_block: usize = blocks[i].0;
        put_block(&blocks[i].1, m_block, per_block, x, enc, pre_acts, batch, m_r, n_r, unit);
        i += 1;
    }
    proof {
        assert forall|m: int| 0 <= m < panels(n_full as int, per_block as int) implies
            #[trigger] block_stored(
            *unit,
            *enc,
            x@,
            batch as int,
            m_r as int,
            n_r as int,
            per_block as int,
            m,
            pre_acts@,
        ) by {
            assert(has_block(blocks@, m));
            let j = choose|j: int| 0 <= j < blocks@.len() && (#[trigger] blocks@[j]).0 == m;
        }
        lemma_all_blocks_stored(
            *unit,
            *enc,
            x@,
            batch as int,
            m_r as int,
            n_r as int,
            per_block as int,
            pre_acts@,
        );
    }
    finish_tail(x, enc, pre_acts, batch, m_r, n_r, unit);
}

/// Put the tiles of M-block `m_block` into the output.
fn put_block<F: Fn(FloatOp) -> u32>(
    tiles: &Vec<Vec<u32>>,
    m_block: usize,
    per_block: usize,
    x: &[u32],
    enc: &EncoderWeights,
    pre_acts: &mut [u32],
    batch: usize,
    m_r: usize,
    n_r: usize,
    unit: &F,
)
    requires
        enc.wf(),
        enc.layout == (WeightLayout::PackedPanels { m_r }),
        old(pre_acts)@.len() == batch * enc.d_sae,
        per_block > 0,
        m_block < panels(enc.d_sae as int / m_r as int, per_block as int),
        is_block(
            *unit,
            *enc,
            x@,
            batch as int,
            m_r as int,
            n_r as int,
            per_block as int,
            m_block as int,
            tiles@,
        ),
    ensures
        final(pre_acts)@.len() == old(pre_acts)@.len(),
        block_stored(
            *unit,
            *enc,
            x@,
            batch as int,
            m_r as int,
            n_r as int,
            per_block as int,
            m_block as int,
            final(pre_acts)@,
        ),
        forall|other: int| #[trigger]
            block_stored(
                *unit,
                *enc,
                x@,
                batch as int,
                m_r as int,
                n_r as int,
                per_block as int,
                other,
                old(pre_acts)@,
            ) ==> block_stored(
                *unit,
                *enc,
                x@,
                batch as int,
                m_r as int,
                n_r as int,
                per_block as int,
                other,
                final(pre_acts)@,
            ),
{
    let ghost before = pre_acts@;
    let (start, end) = m_block_range(m_block, per_block, enc.d_sae / m_r);
    proof {
        assert forall|t: int| 0 <= t < tiles@.len() implies (#[trigger] tiles@[t])@.len() == batch
            * m_r by {
            assert(panel_done(
                *unit,
                *enc,
                x@,
                batch as int,
                m_r as int,
                n_r as int,
                start + t,
                tiles@[t]@,
            ));
        }
    }
    store_m_block(tiles, start, pre_acts, batch, enc.d_sae, m_r);
    proof {
        storing_completes_a_block(
            *unit,
            *enc,
            x@,
            batch as int,
            m_r as int,
            n_r as int,
            per_block as int,
            m_block as int,
            tiles@,
            before,
            pre_acts@,
        );
    }
}

/// Encoder over packed panels in register tiles of `n_r` batch rows, one
/// M-block of `m_c` features after the other.
pub fn encode_f32<F: Fn(FloatOp) -> u32>(
    x: &[u32],
    enc: &EncoderWeights,
    pre_acts: &mut [u32],
    batch: usize,
    n_r: usize,
    m_c: usize,
    unit: &F,
)
    requires
        total(*unit),
        enc.wf(),
        enc.layout is PackedPanels,
        x@.len() == batch * enc.d_in,
        old(pre_acts)@.len() == batch * enc.d_sae,
        n_r > 0,
    ensures
        final(pre_acts)@.len() == old(pre_acts)@.len(),
        forall|b: int, f: int|
            0 <= b < batch && 0 <= f < enc.d_sae ==> pre_activation(
                *unit,
                in_tile(
                    enc.d_sae as int,
                    batch as int,
                    enc.layout->m_r as int,
                    n_r as int,
                    b,
                    f,
                ),
                *enc,
                x@,
                b,
                f,
                #[trigger] at(final(pre_acts)@, enc.d_sae as int, b, f),
            ),
{
    let d_sae: usize = enc.d_sae;
    let m_r: usize = match enc.layout {
        WeightLayout::PackedPanels { m_r } => m_r,
        WeightLayout::RowMajor => 1,
    };
    let p_len: usize = pre_acts.len();
    let n_full: usize = d_sae / m_r;
    let per_block: usize = panels_per_m_block(m_c, m_r);
    let n_blocks: usize = panel_count(n_full, per_block);
    let mut m_block: usize = 0;
    while m_block < n_blocks
        invariant
            total(*unit),
            enc.wf(),
            enc.layout == (WeightLayout::PackedPanels { m_r }),
            d_sae == enc.d_sae,
            x@.len() == batch * enc.d_in,
            pre_acts@.len() == p_len == batch * d_sae,
            n_r > 0,
            per_block > 0,
            n_blocks == panels(d_sae as int / m_r as int, per_block as int),
            m_block <= n_blocks,
            forall|m: int|
                0 <= m < m_block ==> #[trigger] block_stored(
                    *unit,
                    *enc,
                    x@,
                    batch as int,
                    m_r as int,
                    n_r as int,
                    per_block as int,
                    m,
                    pre_acts@,
                ),
        decreases n_blocks - m_block,
    {
        let tiles: Vec<Vec<u32>> = encode_m_block(
            m_block,
            per_block,
            x,
            enc,
            batch,
            m_r,
            n_r,
            unit,
        );
        let ghost before = pre_acts@;
        put_block(&tiles, m_block, per_block, x, enc, pre_acts, batch, m_r, n_r, unit);
        assert forall|m: int| 0 <= m < m_block implies #[trigger] block_stored(
            *unit,
            *enc,
            x@,
            batch as int,
            m_r as int,
            n_r as int,
            per_block as int,
            m,
            pre_acts@,
        ) by {
            assert(block_stored(
                *unit,
                *enc,
                x@,
                batch as int,
                m_r as int,
                n_r as int,
                per_block as int,
                m,
                before,
            ));
        }
        m_block += 1;
    }
    proof {
        lemma_all_blocks_stored(
            *unit,
            *enc,
            x@,
            batch as int,
            m_r as int,
            n_r as int,
            per_block as int,
            pre_acts@,
        );
    }
    finish_tail(x, enc, pre_acts, batch, m_r, n_r, unit);
}

} // verus!
