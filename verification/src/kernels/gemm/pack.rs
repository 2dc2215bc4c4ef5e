//! W_enc packing helpers for the tiled GEMM backends.
//!
//! The microkernel wants `m_r` weights for the same `k` index contiguous.
//! Packing transposes the local `m_r x d_in` slab of each group of `m_r`
//! features into a `d_in x m_r` panel:
//!
//! ```text
//! offset(f, k) = panel * d_in * m_r + k * m_r + lane
//! where panel  = f / m_r
//!       lane   = f % m_r
//! ```
//!
//! Trailing features (`d_sae % m_r != 0`) are zero-padded in the last panel.

use vstd::arithmetic::div_mod::*;
use vstd::arithmetic::mul::*;
use vstd::prelude::*;

use crate::bits::ZERO;
use crate::index::{lemma_cell, lemma_position};
use crate::sae::{EncoderWeights, WeightLayout};

verus! {

/// The number of `m_r`-row panels that cover `d_sae` features.
pub open spec fn panels(d_sae: int, m_r: int) -> int {
    (d_sae + m_r - 1) / m_r
}

/// The number of cells of a packed buffer.
pub open spec fn packed_size(d_sae: int, d_in: int, m_r: int) -> int {
    panels(d_sae, m_r) * m_r * d_in
}

/// The place of weight `(f, k)` in a packed buffer.
pub open spec fn packed_offset(d_in: int, m_r: int, f: int, k: int) -> int {
    (f / m_r) * (m_r * d_in) + (k * m_r + f % m_r)
}

/// What a packed buffer holds at place `p`: the weight whose place it is, and
/// zero in the lanes past the last feature.
pub open spec fn packed_cell(w: Seq<u32>, d_sae: int, d_in: int, m_r: int, p: int) -> u32 {
    let within = p % (m_r * d_in);
    let f = (p / (m_r * d_in)) * m_r + within % m_r;
    let k = within / m_r;
    if f < d_sae {
        w[f * d_in + k]
    } else {
        ZERO
    }
}

/// The packed form of row-major `[d_sae, d_in]` weights.
pub open spec fn packed(w: Seq<u32>, d_sae: int, d_in: int, m_r: int) -> Seq<u32> {
    Seq::new(
        packed_size(d_sae, d_in, m_r) as nat,
        |p: int| packed_cell(w, d_sae, d_in, m_r, p),
    )
}

/// The row-major `[d_sae, d_in]` form of packed weights.
pub open spec fn unpacked(p: Seq<u32>, d_sae: int, d_in: int, m_r: int) -> Seq<u32> {
    Seq::new(
        (d_sae * d_in) as nat,
        |i: int| p[packed_offset(d_in, m_r, i / d_in, i % d_in)],
    )
}

/// A feature lies in one of the panels, and the panels cover no more than one
/// panel beyond the features.
pub proof fn lemma_panels(d_sae: int, m_r: int)
    requires
        0 <= d_sae,
        0 < m_r,
    ensures
        0 <= panels(d_sae, m_r) <= d_sae,
        d_sae <= panels(d_sae, m_r) * m_r < d_sae + m_r,
        panels(d_sae, m_r) == d_sae / m_r + (if d_sae % m_r == 0 {
            0int
        } else {
            1
        }),
        0 <= (d_sae / m_r) * m_r <= d_sae,
        forall|f: int| 0 <= f < d_sae ==> 0 <= #[trigger] (f / m_r) < panels(d_sae, m_r),
{
    let q = d_sae / m_r;
    let r = d_sae % m_r;
    lemma_fundamental_div_mod(d_sae, m_r);
    lemma_mul_is_commutative(m_r, q);
    lemma_div_pos_is_pos(d_sae, m_r);
    lemma_mul_is_distributive_add_other_way(m_r, q, 1);
    if r == 0 {
        lemma_fundamental_div_mod_converse(d_sae + m_r - 1, m_r, q, m_r - 1);
    } else {
        lemma_fundamental_div_mod_converse(d_sae + m_r - 1, m_r, q + 1, r - 1);
    }
    let n = panels(d_sae, m_r);
    lemma_mul_nonnegative(q, m_r);
    assert(n <= d_sae) by {
        if n > d_sae {
            lemma_mul_inequality(d_sae + 1, n, m_r);
            lemma_mul_is_distributive_add_other_way(m_r, d_sae, 1);
            lemma_mul_inequality(1, m_r, d_sae);
            lemma_mul_is_commutative(m_r, d_sae);
        }
    }
    assert forall|f: int| 0 <= f < d_sae implies 0 <= #[trigger] (f / m_r) < n by {
        lemma_position(n, m_r, f);
    }
}

/// The place of a weight lies in the buffer, and the buffer holds the weight
/// there.
pub proof fn lemma_packed_cell(w: Seq<u32>, d_sae: int, d_in: int, m_r: int, f: int, k: int)
    requires
        0 < m_r,
        0 <= f < d_sae,
        0 <= k < d_in,
    ensures
        0 <= packed_offset(d_in, m_r, f, k) < packed_size(d_sae, d_in, m_r),
        packed_cell(w, d_sae, d_in, m_r, packed_offset(d_in, m_r, f, k)) == w[f * d_in + k],
{
    lemma_panels(d_sae, m_r);
    let n = panels(d_sae, m_r);
    let panel = f / m_r;
    let lane = f % m_r;
    lemma_position(n, m_r, f);
    lemma_cell(d_in, m_r, k, lane);
    lemma_mul_is_commutative(d_in, m_r);
    lemma_cell(n, m_r * d_in, panel, k * m_r + lane);
    lemma_mul_is_associative(n, m_r, d_in);
}

/// Packed weights are read back by the offset formula: the weight of feature
/// `f` and input `k` stands at `packed_offset(d_in, m_r, f, k)`.
pub proof fn packed_indexing_matches_row_major(w: Seq<u32>, d_sae: int, d_in: int, m_r: int, f: int, k: int)
    requires
        0 < m_r,
        0 <= f < d_sae,
        0 <= k < d_in,
    ensures
        0 <= packed_offset(d_in, m_r, f, k) < packed(w, d_sae, d_in, m_r).len(),
        packed(w, d_sae, d_in, m_r)[packed_offset(d_in, m_r, f, k)] == w[f * d_in + k],
{
    lemma_packed_cell(w, d_sae, d_in, m_r, f, k);
}

/// Packed weights stand panel by panel: the panel of feature `f` is the `f / m_r`-th, of
/// `d_in` rows of `m_r` lanes; input `k` is its row `k`, and the feature its lane
/// `f % m_r`. The panels cover the features, and none is empty.
pub proof fn weights_stand_panel_by_panel(w: Seq<u32>, d_sae: int, d_in: int, m_r: int, f: int, k: int)
    requires
        0 < m_r,
        0 <= f < d_sae,
        0 <= k < d_in,
    ensures
        packed(w, d_sae, d_in, m_r)[(f / m_r) * d_in * m_r + k * m_r + f % m_r] == w[f * d_in + k],
        unpacked(w, d_sae, d_in, m_r)[f * d_in + k] == w[(f / m_r) * d_in * m_r + k * m_r + f % m_r],
        unpacked(w, d_sae, d_in, m_r).len() == d_sae * d_in,
        packed(w, d_sae, d_in, m_r).len() == panels(d_sae, m_r) * m_r * d_in,
        (panels(d_sae, m_r) - 1) * m_r < d_sae <= panels(d_sae, m_r) * m_r,
{
    lemma_packed_cell(w, d_sae, d_in, m_r, f, k);
    lemma_cell(d_sae, d_in, f, k);
    lemma_mul_is_associative(f / m_r, d_in, m_r);
    lemma_mul_is_commutative(d_in, m_r);
    lemma_panels(d_sae, m_r);
    let n = panels(d_sae, m_r);
    lemma_fundamental_div_mod(d_sae + m_r - 1, m_r);
    lemma_mod_bound(d_sae + m_r - 1, m_r);
    lemma_mul_is_commutative(m_r, n);
    lemma_mul_is_distributive_sub_other_way(m_r, n, 1);
    lemma_mul_nonnegative(n, m_r);
    lemma_mul_nonnegative(n * m_r, d_in);
}

/// The lanes past the last feature hold zero.
pub proof fn tail_panel_is_zero_padded(w: Seq<u32>, d_sae: int, d_in: int, m_r: int, f: int, k: int)
    requires
        0 < m_r,
        0 <= d_sae <= f < panels(d_sae, m_r) * m_r,
        0 <= k < d_in,
    ensures
        0 <= packed_offset(d_in, m_r, f, k) < packed(w, d_sae, d_in, m_r).len(),
        packed(w, d_sae, d_in, m_r)[packed_offset(d_in, m_r, f, k)] == ZERO,
{
    let n = panels(d_sae, m_r);
    let panel = f / m_r;
    let lane = f % m_r;
    lemma_position(n, m_r, f);
    lemma_cell(d_in, m_r, k, lane);
    lemma_mul_is_commutative(d_in, m_r);
    lemma_cell(n, m_r * d_in, panel, k * m_r + lane);
    lemma_mul_is_associative(n, m_r, d_in);
}

/// Unpacking undoes packing.
pub proof fn unpack_undoes_pack(w: Seq<u32>, d_sae: int, d_in: int, m_r: int)
    requires
        0 < m_r,
        0 <= d_sae,
        0 <= d_in,
        w.len() == d_sae * d_in,
    ensures
        unpacked(packed(w, d_sae, d_in, m_r), d_sae, d_in, m_r) == w,
{
    lemma_mul_nonnegative(d_sae, d_in);
    assert forall|i: int| 0 <= i < d_sae * d_in implies #[trigger] unpacked(
        packed(w, d_sae, d_in, m_r),
        d_sae,
        d_in,
        m_r,
    )[i] == w[i] by {
        lemma_position(d_sae, d_in, i);
        packed_indexing_matches_row_major(w, d_sae, d_in, m_r, i / d_in, i % d_in);
    }
    assert(unpacked(packed(w, d_sae, d_in, m_r), d_sae, d_in, m_r) =~= w);
}

/// Number of `m_r`-row panels needed to cover `d_sae` features.
///
/// The last panel may be partially filled with zero-padded lanes.
pub fn panel_count(d_sae: usize, m_r: usize) -> (res: usize)
    requires
        m_r > 0,
    ensures
        res == panels(d_sae as int, m_r as int),
{
    proof {
        lemma_panels(d_sae as int, m_r as int);
    }
    if d_sae % m_r == 0 {
        d_sae / m_r
    } else {
        d_sae / m_r + 1
    }
}

/// Total length in cells of the packed buffer for a given shape.
pub fn packed_len(d_sae: usize, d_in: usize, m_r: usize) -> (res: usize)
    requires
        m_r > 0,
        panels(d_sae as int, m_r as int) * m_r <= usize::MAX,
        packed_size(d_sae as int, d_in as int, m_r as int) <= usize::MAX,
    ensures
        res == packed_size(d_sae as int, d_in as int, m_r as int),
{
    proof {
        lemma_panels(d_sae as int, m_r as int);
    }
    panel_count(d_sae, m_r) * m_r * d_in
}

/// Repack `w_row_major` (shape `[d_sae, d_in]`) into `m_r`-row panels.
///
/// Output length is [`packed_len`] cells, slightly larger than the input when
/// `d_sae % m_r != 0` because the tail panel is zero-padded.
pub fn pack_w_enc(w_row_major: &[u32], d_sae: usize, d_in: usize, m_r: usize) -> (out: Vec<u32>)
    requires
        m_r > 0,
        w_row_major@.len() == d_sae * d_in,
        panels(d_sae as int, m_r as int) * m_r <= usize::MAX,
        packed_size(d_sae as int, d_in as int, m_r as int) <= usize::MAX,
    ensures
        out@ == packed(w_row_major@, d_sae as int, d_in as int, m_r as int),
{
    let n_panels: usize = panel_count(d_sae, m_r);
    let w_len: usize = w_row_major.len();
    let ghost want = packed(w_row_major@, d_sae as int, d_in as int, m_r as int);
    let ghost slab = m_r * d_in;
    let mut out: Vec<u32> = Vec::new();
    proof {
        lemma_panels(d_sae as int, m_r as int);
        lemma_mul_is_associative(n_panels as int, m_r as int, d_in as int);
        lemma_mul_nonnegative(n_panels as int, slab);
    }
    let mut panel: usize = 0;
    while panel < n_panels
        invariant
            m_r > 0,
            panel <= n_panels,
            n_panels == panels(d_sae as int, m_r as int),
            n_panels * m_r <= usize::MAX,
            n_panels * slab <= usize::MAX,
            slab == m_r * d_in,
            want == packed(w_row_major@, d_sae as int, d_in as int, m_r as int),
            want.len() == n_panels * slab,
            w_row_major@.len() == w_len == d_sae * d_in,
            out@.len() == panel * slab,
            forall|p: int| 0 <= p < out@.len() ==> #[trigger] out@[p] == want[p],
        decreases n_panels - panel,
    {
        let mut k: usize = 0;
        proof {
            lemma_cell(n_panels as int, m_r as int, panel as int, 0);
        }
        let f0: usize = panel * m_r;
        while k < d_in
            invariant
                m_r > 0,
                k <= d_in,
                panel < n_panels,
                f0 == panel * m_r,
                n_panels == panels(d_sae as int, m_r as int),
                n_panels * m_r <= usize::MAX,
                n_panels * slab <= usize::MAX,
                slab == m_r * d_in,
                want == packed(w_row_major@, d_sae as int, d_in as int, m_r as int),
                want.len() == n_panels * slab,
                w_row_major@.len() == w_len == d_sae * d_in,
                out@.len() == panel * slab + k * m_r,
                forall|p: int| 0 <= p < out@.len() ==> #[trigger] out@[p] == want[p],
            decreases d_in - k,
        {
            let mut lane: usize = 0;
            while lane < m_r
                invariant
                    m_r > 0,
                    k < d_in,
                    lane <= m_r,
                    panel < n_panels,
                    f0 == panel * m_r,
                    n_panels == panels(d_sae as int, m_r as int),
                    n_panels * m_r <= usize::MAX,
                    n_panels * slab <= usize::MAX,
                    slab == m_r * d_in,
                    want == packed(w_row_major@, d_sae as int, d_in as int, m_r as int),
                    want.len() == n_panels * slab,
                    w_row_major@.len() == w_len == d_sae * d_in,
                    out@.len() == panel * slab + (k * m_r + lane),
                    forall|p: int| 0 <= p < out@.len() ==> #[trigger] out@[p] == want[p],
                decreases m_r - lane,
            {
                let ghost p = out@.len() as int;
                proof {
                    lemma_cell(d_in as int, m_r as int, k as int, lane as int);
                    lemma_mul_is_commutative(d_in as int, m_r as int);
                    lemma_cell(n_panels as int, slab, panel as int, k * m_r + lane);
                    lemma_cell(n_panels as int, m_r as int, panel as int, lane as int);
                }
                let f: usize = f0 + lane;
                if f < d_sae {
                    proof {
                        lemma_cell(d_sae as int, d_in as int, f as int, k as int);
                    }
                    out.push(w_row_major[f * d_in + k]);
                } else {
                    out.push(ZERO);
                }
                assert(out@[p] == want[p]);
                lane += 1;
            }
            proof {
                lemma_mul_is_distributive_add_other_way(m_r as int, k as int, 1);
            }
            k += 1;
        }
        proof {
            lemma_mul_is_commutative(d_in as int, m_r as int);
            lemma_mul_is_distributive_add_other_way(slab, panel as int, 1);
        }
        panel += 1;
    }
    assert(out@ =~= want);
    out
}

/// Inverse of [`pack_w_enc`]: convert a packed buffer back to row-major
/// `[d_sae, d_in]`.
pub fn unpack_w_enc(p: &[u32], d_sae: usize, d_in: usize, m_r: usize) -> (out: Vec<u32>)
    requires
        m_r > 0,
        d_sae * d_in <= usize::MAX,
        p@.len() == packed_size(d_sae as int, d_in as int, m_r as int),
    ensures
        out@ == unpacked(p@, d_sae as int, d_in as int, m_r as int),
{
    let p_len: usize = p.len();
    let ghost want = unpacked(p@, d_sae as int, d_in as int, m_r as int);
    let mut out: Vec<u32> = Vec::new();
    let mut f: usize = 0;
    proof {
        lemma_mul_nonnegative(d_sae as int, d_in as int);
        lemma_panels(d_sae as int, m_r as int);
    }
    while f < d_sae
        invariant
            m_r > 0,
            f <= d_sae,
            want == unpacked(p@, d_sae as int, d_in as int, m_r as int),
            want.len() == d_sae * d_in,
            p@.len() == p_len == packed_size(d_sae as int, d_in as int, m_r as int),
            d_sae * d_in <= usize::MAX,
            out@.len() == f * d_in,
            forall|i: int| 0 <= i < out@.len() ==> #[trigger] out@[i] == want[i],
        decreases d_sae - f,
    {
        let panel: usize = f / m_r;
        let lane: usize = f % m_r;
        let mut k: usize = 0;
        while k < d_in
            invariant
                m_r > 0,
                f < d_sae,
                k <= d_in,
                panel == f / m_r,
                lane == f % m_r,
                want == unpacked(p@, d_sae as int, d_in as int, m_r as int),
                want.len() == d_sae * d_in,
                p@.len() == p_len == packed_size(d_sae as int, d_in as int, m_r as int),
                d_sae * d_in <= usize::MAX,
                out@.len() == f * d_in + k,
                forall|i: int| 0 <= i < out@.len() ==> #[trigger] out@[i] == want[i],
            decreases d_in - k,
        {
            let ghost i = out@.len() as int;
            proof {
                lemma_cell(d_sae as int, d_in as int, f as int, k as int);
                lemma_packed_cell(Seq::empty(), d_sae as int, d_in as int, m_r as int, f as int, k as int);
                lemma_packed_bounds(d_sae as int, d_in as int, m_r as int, f as int, k as int);
            }
            out.push(p[panel * (m_r * d_in) + (k * m_r + lane)]);
            assert(out@[i] == want[i]);
            k += 1;
        }
        proof {
            lemma_mul_is_distributive_add_other_way(d_in as int, f as int, 1);
        }
        f += 1;
    }
    assert(out@ =~= want);
    out
}

/// The terms of an offset do not exceed the offset, nor does a panel whose cell
/// it is exceed the buffer.
pub proof fn lemma_packed_bounds(d_sae: int, d_in: int, m_r: int, f: int, k: int)
    requires
        0 < m_r,
        0 <= f < d_sae,
        0 <= k < d_in,
    ensures
        0 <= m_r * d_in <= packed_size(d_sae, d_in, m_r),
        0 <= (f / m_r) * (m_r * d_in) <= packed_offset(d_in, m_r, f, k),
        0 <= k * m_r <= k * m_r + f % m_r <= packed_offset(d_in, m_r, f, k),
{
    lemma_div_pos_is_pos(f, m_r);
    lemma_mod_bound(f, m_r);
    lemma_mul_nonnegative(k, m_r);
    lemma_mul_nonnegative(m_r, d_in);
    lemma_mul_nonnegative(f / m_r, m_r * d_in);
    lemma_panels(d_sae, m_r);
    lemma_mul_is_associative(panels(d_sae, m_r), m_r, d_in);
    lemma_mul_inequality(1, panels(d_sae, m_r), m_r * d_in);
    lemma_mul_basics(m_r * d_in);
}

/// Packing changes where a weight stands, not which weight a feature has on an
/// input: if `b` is the packed form of the row-major `a`, every feature has the
/// same encoder direction in both.
pub proof fn packing_keeps_directions(a: EncoderWeights, b: EncoderWeights, m_r: usize, f: int)
    requires
        a.wf(),
        a.layout is RowMajor,
        b.layout == (WeightLayout::PackedPanels { m_r }),
        m_r > 0,
        b.d_in == a.d_in,
        b.d_sae == a.d_sae,
        b.w_enc@ == packed(a.w_enc@, a.d_sae as int, a.d_in as int, m_r as int),
        0 <= f < a.d_sae,
    ensures
        b.direction(f) == a.direction(f),
{
    assert forall|k: int| 0 <= k < a.d_in implies b.weight(f, k) == a.weight(f, k) by {
        packed_indexing_matches_row_major(
            a.w_enc@,
            a.d_sae as int,
            a.d_in as int,
            m_r as int,
            f,
            k,
        );
    }
    assert(b.direction(f) =~= a.direction(f));
}

/// Replace the row-major weights in `enc` with packed-panel weights and update
/// its layout accordingly. Idempotent if already packed at the same `m_r`.
pub fn repack(enc: &mut EncoderWeights, m_r: usize)
    requires
        old(enc).wf(),
        m_r > 0,
        old(enc).layout matches WeightLayout::PackedPanels { m_r: existing } ==> existing == m_r,
        panels(old(enc).d_sae as int, m_r as int) * m_r <= usize::MAX,
        packed_size(old(enc).d_sae as int, old(enc).d_in as int, m_r as int) <= usize::MAX,
    ensures
        final(enc).wf(),
        final(enc).layout == (WeightLayout::PackedPanels { m_r }),
        final(enc).d_in == old(enc).d_in,
        final(enc).d_sae == old(enc).d_sae,
        final(enc).b_enc@ == old(enc).b_enc@,
        old(enc).layout is PackedPanels ==> *final(enc) == *old(enc),
        old(enc).layout is RowMajor ==> final(enc).w_enc@ == packed(
            old(enc).w_enc@,
            old(enc).d_sae as int,
            old(enc).d_in as int,
            m_r as int,
        ),
        forall|f: int|
            0 <= f < old(enc).d_sae ==> #[trigger] final(enc).direction(f) == old(enc).direction(f),
{
    match enc.layout {
        WeightLayout::PackedPanels { .. } => {},
        WeightLayout::RowMajor => {
            let cells: Vec<u32> = pack_w_enc(enc.w_enc.as_slice(), enc.d_sae, enc.d_in, m_r);
            enc.w_enc = cells;
            enc.layout = WeightLayout::PackedPanels { m_r };
            proof {
                lemma_panels(enc.d_sae as int, m_r as int);
                lemma_mul_nonnegative(panels(enc.d_sae as int, m_r as int), m_r as int);
                lemma_mul_nonnegative(
                    panels(enc.d_sae as int, m_r as int) * m_r,
                    enc.d_in as int,
                );
                assert forall|f: int| 0 <= f < old(enc).d_sae implies #[trigger] enc.direction(f)
                    == old(enc).direction(f) by {
                    packing_keeps_directions(*old(enc), *enc, m_r, f);
                }
            }
        },
    }
}

} // verus!
