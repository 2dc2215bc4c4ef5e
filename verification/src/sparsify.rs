//! Sparsification of pre-activations.

use vstd::prelude::*;

use crate::bits::{gt, greater, positive, total, yields, FloatOp, ZERO};
use crate::index::{lemma_row, row, store_row};
use crate::kernels::decoder::decodable;
use crate::kernels::topk::{self, ranking, TopkFn};
use crate::kernels::topk_heap::selects;
use crate::sae::SparseOut;

verus! {

/// Scratch buffers reused across tiles in the TopK selection path.
#[derive(Debug)]
pub struct TopKScratch {
    /// Selected `(index, value)` pairs; values are encodings.
    pub indexed: Vec<(u32, u32)>,
}

impl TopKScratch {
    pub fn new() -> (res: Self)
        ensures
            res.indexed@ == Seq::<(u32, u32)>::empty(),
    {
        TopKScratch { indexed: Vec::new() }
    }
}

impl Default for TopKScratch {
    fn default() -> (res: Self)
        ensures
            res.indexed@ == Seq::<(u32, u32)>::empty(),
    {
        TopKScratch::new()
    }
}

/// Sparsification strategy applied to pre-activations.
///
/// BatchTopK and Standard (ReLU+L1) are resolved at load time into one of
/// these:
/// - BatchTopK becomes JumpReLU with the saved per-feature thresholds.
/// - Standard becomes Relu.
#[derive(Debug, Clone)]
pub enum Sparsifier {
    TopK {
        k: u32,
        post_relu: bool,
        /// Per-feature decoder-norm rescaling baked in at load time.
        /// Multiplied into pre-acts before TopK selection; `None` if disabled.
        rescale: Option<Vec<u32>>,
    },
    JumpReLU { thresholds: Vec<u32> },
    Relu,
}

/// Two sparsifiers are the same.
pub open spec fn same_sparsifier(a: Sparsifier, b: Sparsifier) -> bool {
    match (a, b) {
        (
            Sparsifier::TopK { k: ka, post_relu: pa, rescale: ra },
            Sparsifier::TopK { k: kb, post_relu: pb, rescale: rb },
        ) => {
            &&& ka == kb
            &&& pa == pb
            &&& match (ra, rb) {
                (Some(x), Some(y)) => x@ == y@,
                (None, None) => true,
                _ => false,
            }
        },
        (Sparsifier::JumpReLU { thresholds: ta }, Sparsifier::JumpReLU { thresholds: tb }) => ta@
            == tb@,
        (Sparsifier::Relu, Sparsifier::Relu) => true,
        _ => false,
    }
}

/// The feature ids of pairs.
pub open spec fn ids(pairs: Seq<(u32, u32)>) -> Seq<u32> {
    Seq::new(pairs.len(), |t: int| pairs[t].0)
}

/// The values of pairs.
pub open spec fn vals(pairs: Seq<(u32, u32)>) -> Seq<u32> {
    Seq::new(pairs.len(), |t: int| pairs[t].1)
}

/// All pairs of some rows, one row after the other.
pub open spec fn flat(rows: Seq<Seq<(u32, u32)>>) -> Seq<(u32, u32)>
    decreases rows.len(),
{
    if rows.len() == 0 {
        Seq::empty()
    } else {
        flat(rows.drop_last()) + rows.last()
    }
}

/// `new` is `old` with `rows` appended to it.
pub open spec fn extends(old_out: SparseOut, rows: Seq<Seq<(u32, u32)>>, new_out: SparseOut) -> bool {
    &&& new_out.d_sae == old_out.d_sae
    &&& new_out.indices@ == old_out.indices@ + ids(flat(rows))
    &&& new_out.values@ == old_out.values@ + vals(flat(rows))
    &&& new_out.row_offsets@ == old_out.row_offsets@ + Seq::new(
        rows.len(),
        |r: int| (old_out.indices@.len() + flat(rows.take(r + 1)).len()) as u32,
    )
}

/// `out` holds exactly `rows`.
pub open spec fn lists(rows: Seq<Seq<(u32, u32)>>, out: SparseOut) -> bool {
    &&& out.indices@ == ids(flat(rows))
    &&& out.values@ == vals(flat(rows))
    &&& out.row_offsets@ == Seq::new(
        rows.len() + 1,
        |r: int| flat(rows.take(r)).len() as u32,
    )
}

/// The pairs of the first `n` features that `keep` lets through, by ascending
/// feature.
pub open spec fn passing(xs: Seq<u32>, keep: spec_fn(int) -> bool, n: int) -> Seq<(u32, u32)>
    decreases n,
{
    if n <= 0 {
        Seq::empty()
    } else if keep(n - 1) {
        passing(xs, keep, n - 1).push(((n - 1) as u32, xs[n - 1]))
    } else {
        passing(xs, keep, n - 1)
    }
}

/// What ReLU lets through: positive values.
pub open spec fn relu_keeps(xs: Seq<u32>) -> spec_fn(int) -> bool {
    |f: int| positive(xs[f])
}

/// What JumpReLU lets through: positive values strictly above the feature's
/// threshold. A feature without a threshold does not pass.
pub open spec fn jumprelu_keeps(xs: Seq<u32>, thresholds: Seq<u32>) -> spec_fn(int) -> bool {
    |f: int| f < thresholds.len() && greater(xs[f], thresholds[f]) && positive(xs[f])
}

/// The selected pairs that are left after the ReLU, where there is one.
pub open spec fn kept(pairs: Seq<(u32, u32)>, post_relu: bool) -> Seq<(u32, u32)>
    decreases pairs.len(),
{
    if pairs.len() == 0 {
        Seq::empty()
    } else if post_relu && !positive(pairs.last().1) {
        kept(pairs.drop_last(), post_relu)
    } else {
        kept(pairs.drop_last(), post_relu).push(pairs.last())
    }
}

/// `ys` is the row `xs` with every feature scaled by its factor. A feature
/// without a factor stays as it is.
pub open spec fn scaled<F: Fn(FloatOp) -> u32>(
    unit: F,
    rescale: Option<Vec<u32>>,
    xs: Seq<u32>,
    ys: Seq<u32>,
) -> bool {
    match rescale {
        Some(scales) => {
            &&& ys.len() == xs.len()
            &&& forall|f: int|
                0 <= f < xs.len() ==> if f < scales@.len() {
                    yields(unit, FloatOp::Mul(xs[f], scales@[f]), #[trigger] ys[f])
                } else {
                    ys[f] == xs[f]
                }
        },
        None => ys == xs,
    }
}

/// One row through a sparsifier: `pairs` are the active features of the row
/// `xs`, which becomes `ys` on the way.
pub open spec fn row_result<F: Fn(FloatOp) -> u32>(
    unit: F,
    sparsifier: Sparsifier,
    choice: TopkFn,
    xs: Seq<u32>,
    ys: Seq<u32>,
    pairs: Seq<(u32, u32)>,
) -> bool {
    match sparsifier {
        Sparsifier::TopK { k, post_relu, rescale } => {
            &&& scaled(unit, rescale, xs, ys)
            &&& exists|sel: Seq<(u32, u32)>| #[trigger]
                selects(ranking(choice), ys, k as int, sel) && pairs == kept(sel, post_relu)
        },
        Sparsifier::JumpReLU { thresholds } => {
            &&& ys == xs
            &&& pairs == passing(xs, jumprelu_keeps(xs, thresholds@), xs.len() as int)
        },
        Sparsifier::Relu => {
            &&& ys == xs
            &&& pairs == passing(xs, relu_keeps(xs), xs.len() as int)
        },
    }
}

/// A tile of `n` rows through a sparsifier: `rows` are the active features of
/// its rows, and the tile `pre` becomes `post` on the way.
pub open spec fn tile_result<F: Fn(FloatOp) -> u32>(
    unit: F,
    sparsifier: Sparsifier,
    choice: TopkFn,
    d_sae: int,
    n: int,
    pre: Seq<u32>,
    post: Seq<u32>,
    rows: Seq<Seq<(u32, u32)>>,
) -> bool {
    &&& post.len() == pre.len()
    &&& rows.len() == n
    &&& forall|r: int|
        0 <= r < n ==> row_result(
            unit,
            sparsifier,
            choice,
            row(pre, d_sae, r),
            row(post, d_sae, r),
            #[trigger] rows[r],
        )
}

/// Appending nothing changes nothing.
proof fn lemma_extends_start(out: SparseOut)
    ensures
        extends(out, Seq::empty(), out),
{
    assert(out.indices@ =~= out.indices@ + ids(Seq::empty()));
    assert(out.values@ =~= out.values@ + vals(Seq::empty()));
    assert(out.row_offsets@ =~= out.row_offsets@ + Seq::<u32>::empty());
    assert(extends(out, Seq::empty(), out));
}

/// Appending one more row.
proof fn lemma_extends_push(
    start: SparseOut,
    rows: Seq<Seq<(u32, u32)>>,
    mid: SparseOut,
    pairs: Seq<(u32, u32)>,
    end: SparseOut,
)
    requires
        extends(start, rows, mid),
        end.d_sae == mid.d_sae,
        end.indices@ == mid.indices@ + ids(pairs),
        end.values@ == mid.values@ + vals(pairs),
        end.row_offsets@ == mid.row_offsets@.push(end.indices@.len() as u32),
    ensures
        extends(start, rows.push(pairs), end),
{
    let more = rows.push(pairs);
    assert(more.drop_last() =~= rows);
    assert(flat(more) == flat(rows) + pairs);
    assert(ids(flat(more)) =~= ids(flat(rows)) + ids(pairs));
    assert(vals(flat(more)) =~= vals(flat(rows)) + vals(pairs));
    assert(end.indices@ =~= start.indices@ + ids(flat(more)));
    assert(end.values@ =~= start.values@ + vals(flat(more)));
    let offsets = Seq::new(
        more.len(),
        |r: int| (start.indices@.len() + flat(more.take(r + 1)).len()) as u32,
    );
    let before = Seq::new(
        rows.len(),
        |r: int| (start.indices@.len() + flat(rows.take(r + 1)).len()) as u32,
    );
    assert forall|r: int| 0 <= r < rows.len() implies #[trigger] offsets[r] == before[r] by {
        assert(more.take(r + 1) =~= rows.take(r + 1));
    }
    assert(more.take(rows.len() as int + 1) =~= more);
    assert(end.row_offsets@ =~= start.row_offsets@ + offsets);
}

/// Append the pairs of a row that pass the ReLU, where there is one, and finish
/// the row.
fn push_selected(selected: &Vec<(u32, u32)>, post_relu: bool, out: &mut SparseOut)
    ensures
        final(out).d_sae == old(out).d_sae,
        final(out).indices@ == old(out).indices@ + ids(kept(selected@, post_relu)),
        final(out).values@ == old(out).values@ + vals(kept(selected@, post_relu)),
        final(out).row_offsets@ == old(out).row_offsets@.push(final(out).indices@.len() as u32),
{
    let ghost before = *out;
    let mut t: usize = 0;
    proof {
        assert(out.indices@ =~= before.indices@ + ids(kept(selected@.take(0), post_relu)));
        assert(out.values@ =~= before.values@ + vals(kept(selected@.take(0), post_relu)));
    }
    while t < selected.len()
        invariant
            t <= selected@.len(),
            out.d_sae == before.d_sae,
            out.row_offsets@ == before.row_offsets@,
            out.indices@ == before.indices@ + ids(kept(selected@.take(t as int), post_relu)),
            out.values@ == before.values@ + vals(kept(selected@.take(t as int), post_relu)),
        decreases selected@.len() - t,
    {
        let pair: (u32, u32) = selected[t];
        let ghost so_far = kept(selected@.take(t as int), post_relu);
        proof {
            let longer = selected@.take(t + 1);
            assert(longer.drop_last() =~= selected@.take(t as int));
            assert(longer.last() == pair);
            assert(ids(so_far.push(pair)) =~= ids(so_far).push(pair.0));
            assert(vals(so_far.push(pair)) =~= vals(so_far).push(pair.1));
        }
        if !post_relu || gt(pair.1, ZERO) {
            out.indices.push(pair.0);
            out.values.push(pair.1);
        }
        t += 1;
    }
    assert(selected@.take(t as int) =~= selected@);
    out.finish_row();
}

/// Scale every feature of a row by its factor.
fn scale_row<F: Fn(FloatOp) -> u32>(xs: &[u32], scales: &Vec<u32>, unit: &F) -> (ys: Vec<u32>)
    requires
        total(*unit),
    ensures
        scaled(*unit, Some(*scales), xs@, ys@),
{
    let mut ys: Vec<u32> = Vec::new();
    let mut f: usize = 0;
    while f < xs.len()
        invariant
            total(*unit),
            f <= xs@.len(),
            ys@.len() == f,
            forall|g: int|
                0 <= g < f ==> if g < scales@.len() {
                    yields(*unit, FloatOp::Mul(xs@[g], scales@[g]), #[trigger] ys@[g])
                } else {
                    ys@[g] == xs@[g]
                },
        decreases xs@.len() - f,
    {
        if f < scales.len() {
            let v: u32 = (*unit)(FloatOp::Mul(xs[f], scales[f]));
            assert(yields(*unit, FloatOp::Mul(xs@[f as int], scales@[f as int]), v));
            ys.push(v);
        } else {
            ys.push(xs[f]);
        }
        f += 1;
    }
    ys
}

impl Sparsifier {
    /// Apply this sparsifier to a tile of pre-activations. `pre_acts` is
    /// `[tile_rows * d_sae]` and may be mutated by TopK's rescale. The active
    /// features are appended to `out`, one row per row of the tile. TopK leaves
    /// the selection of the last row in `scratch`.
    pub fn apply<F: Fn(FloatOp) -> u32>(
        &self,
        pre_acts: &mut [u32],
        tile_rows: usize,
        d_sae: usize,
        out: &mut SparseOut,
        scratch: &mut TopKScratch,
        choice: TopkFn,
        unit: &F,
    )
        requires
            total(*unit),
            old(pre_acts)@.len() == tile_rows * d_sae,
            d_sae <= 0x1_0000_0000,
        ensures
            exists|rows: Seq<Seq<(u32, u32)>>| #[trigger]
                tile_result(
                    *unit,
                    *self,
                    choice,
                    d_sae as int,
                    tile_rows as int,
                    old(pre_acts)@,
                    final(pre_acts)@,
                    rows,
                ) && extends(*old(out), rows, *final(out)),
            if self is TopK && tile_rows > 0 {
                selects(
                    ranking(choice),
                    row(final(pre_acts)@, d_sae as int, tile_rows - 1),
                    self->k as int,
                    final(scratch).indexed@,
                )
            } else {
                *final(scratch) == *old(scratch)
            },
    {
        let p_len: usize = pre_acts.len();
        let ghost pre = pre_acts@;
        let ghost start = *out;
        let ghost unused = *scratch;
        let ghost mut rows: Seq<Seq<(u32, u32)>> = Seq::empty();
        proof {
            lemma_extends_start(start);
        }
        let mut r: usize = 0;
        while r < tile_rows
            invariant
                total(*unit),
                pre_acts@.len() == p_len == tile_rows * d_sae,
                pre.len() == p_len,
                d_sae <= 0x1_0000_0000,
                r <= tile_rows,
                rows.len() == r,
                extends(start, rows, *out),
                if self is TopK && r > 0 {
                    selects(
                        ranking(choice),
                        row(pre_acts@, d_sae as int, r - 1),
                        self->k as int,
                        scratch.indexed@,
                    )
                } else {
                    *scratch == unused
                },
                forall|c: int|
                    0 <= c < r ==> row_result(
                        *unit,
                        *self,
                        choice,
                        row(pre, d_sae as int, c),
                        row(pre_acts@, d_sae as int, c),
                        #[trigger] rows[c],
                    ),
                forall|c: int|
                    r <= c < tile_rows ==> #[trigger] row(pre_acts@, d_sae as int, c) == row(
                        pre,
                        d_sae as int,
                        c,
                    ),
            decreases tile_rows - r,
        {
            let ghost mid = *out;
            let ghost tile = pre_acts@;
            let ghost xs = row(pre, d_sae as int, r as int);
            proof {
                lemma_row(tile_rows as int, d_sae as int, r as int);
                assert(row(pre_acts@, d_sae as int, r as int) == xs);
            }
            let ghost pairs: Seq<(u32, u32)>;
            match self {
                Sparsifier::TopK { k, post_relu, rescale } => {
                    apply_topk_row(
                        pre_acts,
                        tile_rows,
                        d_sae,
                        r,
                        *k as usize,
                        *post_relu,
                        rescale,
                        out,
                        scratch,
                        choice,
                        unit,
                    );
                    proof {
                        pairs = kept(scratch.indexed@, *post_relu);
                    }
                },
                Sparsifier::JumpReLU { thresholds } => {
                    let cells: &[u32] = vstd::slice::slice_subrange(
                        pre_acts,
                        r * d_sae,
                        r * d_sae + d_sae,
                    );
                    apply_jumprelu_row(cells, thresholds, out);
                    proof {
                        pairs = passing(xs, jumprelu_keeps(xs, thresholds@), xs.len() as int);
                    }
                },
                Sparsifier::Relu => {
                    let cells: &[u32] = vstd::slice::slice_subrange(
                        pre_acts,
                        r * d_sae,
                        r * d_sae + d_sae,
                    );
                    apply_relu_row(cells, out);
                    proof {
                        pairs = passing(xs, relu_keeps(xs), xs.len() as int);
                    }
                },
            }
            proof {
                lemma_extends_push(start, rows, mid, pairs, *out);
                assert(row_result(
                    *unit,
                    *self,
                    choice,
                    xs,
                    row(pre_acts@, d_sae as int, r as int),
                    pairs,
                ));
                let so_far = rows;
                rows = rows.push(pairs);
                assert forall|c: int| 0 <= c < r + 1 implies row_result(
                    *unit,
                    *self,
                    choice,
                    row(pre, d_sae as int, c),
                    row(pre_acts@, d_sae as int, c),
                    #[trigger] rows[c],
                ) by {
                    if c < r {
                        assert(rows[c] == so_far[c]);
                        assert(row(pre_acts@, d_sae as int, c) == row(tile, d_sae as int, c));
                    }
                }
            }
            r += 1;
        }
        assert(tile_result(
            *unit,
            *self,
            choice,
            d_sae as int,
            tile_rows as int,
            pre,
            pre_acts@,
            rows,
        ));
    }
}

/// TopK on row `r` of a tile: rescale the row, select, append.
fn apply_topk_row<F: Fn(FloatOp) -> u32>(
    pre_acts: &mut [u32],
    tile_rows: usize,
    d_sae: usize,
    r: usize,
    k: usize,
    post_relu: bool,
    rescale: &Option<Vec<u32>>,
    out: &mut SparseOut,
    scratch: &mut TopKScratch,
    choice: TopkFn,
    unit: &F,
)
    requires
        total(*unit),
        old(pre_acts)@.len() == tile_rows * d_sae,
        d_sae <= 0x1_0000_0000,
        r < tile_rows,
    ensures
        final(pre_acts)@.len() == old(pre_acts)@.len(),
        forall|c: int|
            0 <= c < tile_rows && c != r ==> #[trigger] row(final(pre_acts)@, d_sae as int, c)
                == row(old(pre_acts)@, d_sae as int, c),
        scaled(
            *unit,
            *rescale,
            row(old(pre_acts)@, d_sae as int, r as int),
            row(final(pre_acts)@, d_sae as int, r as int),
        ),
        selects(
            ranking(choice),
            row(final(pre_acts)@, d_sae as int, r as int),
            k as int,
            final(scratch).indexed@,
        ),
        final(out).d_sae == old(out).d_sae,
        final(out).indices@ == old(out).indices@ + ids(kept(final(scratch).indexed@, post_relu)),
        final(out).values@ == old(out).values@ + vals(kept(final(scratch).indexed@, post_relu)),
        final(out).row_offsets@ == old(out).row_offsets@.push(final(out).indices@.len() as u32),
{
    let p_len: usize = pre_acts.len();
    proof {
        lemma_row(tile_rows as int, d_sae as int, r as int);
    }
    let base: usize = r * d_sae;
    match rescale {
        Some(scales) => {
            let cells: &[u32] = vstd::slice::slice_subrange(pre_acts, base, base + d_sae);
            let ys: Vec<u32> = scale_row(cells, scales, unit);
            store_row(pre_acts, tile_rows, d_sae, r, &ys);
        },
        None => {},
    }
    let cells: &[u32] = vstd::slice::slice_subrange(pre_acts, base, base + d_sae);
    topk::select_into(choice, cells, k, scratch);
    push_selected(&scratch.indexed, post_relu, out);
}

/// JumpReLU on one row: append the positive values strictly above their
/// thresholds.
fn apply_jumprelu_row(cells: &[u32], thresholds: &Vec<u32>, out: &mut SparseOut)
    requires
        cells@.len() <= 0x1_0000_0000,
    ensures
        final(out).d_sae == old(out).d_sae,
        ({
            let pairs = passing(
                cells@,
                jumprelu_keeps(cells@, thresholds@),
                cells@.len() as int,
            );
            &&& final(out).indices@ == old(out).indices@ + ids(pairs)
            &&& final(out).values@ == old(out).values@ + vals(pairs)
        }),
        final(out).row_offsets@ == old(out).row_offsets@.push(final(out).indices@.len() as u32),
{
    let ghost before = *out;
    let ghost keep = jumprelu_keeps(cells@, thresholds@);
    let mut f: usize = 0;
    proof {
        assert(out.indices@ =~= before.indices@ + ids(passing(cells@, keep, 0)));
        assert(out.values@ =~= before.values@ + vals(passing(cells@, keep, 0)));
    }
    while f < cells.len()
        invariant
            f <= cells@.len() <= 0x1_0000_0000,
            keep == jumprelu_keeps(cells@, thresholds@),
            out.d_sae == before.d_sae,
            out.row_offsets@ == before.row_offsets@,
            out.indices@ == before.indices@ + ids(passing(cells@, keep, f as int)),
            out.values@ == before.values@ + vals(passing(cells@, keep, f as int)),
        decreases cells@.len() - f,
    {
        let v: u32 = cells[f];
        let ghost so_far = passing(cells@, keep, f as int);
        proof {
            assert(ids(so_far.push((f as u32, v))) =~= ids(so_far).push(f as u32));
            assert(vals(so_far.push((f as u32, v))) =~= vals(so_far).push(v));
        }
        if f < thresholds.len() && gt(v, thresholds[f]) && gt(v, ZERO) {
            out.indices.push(f as u32);
            out.values.push(v);
        }
        f += 1;
    }
    out.finish_row();
}

/// ReLU on one row: append the positive values.
fn apply_relu_row(cells: &[u32], out: &mut SparseOut)
    requires
        cells@.len() <= 0x1_0000_0000,
    ensures
        final(out).d_sae == old(out).d_sae,
        ({
            let pairs = passing(cells@, relu_keeps(cells@), cells@.len() as int);
            &&& final(out).indices@ == old(out).indices@ + ids(pairs)
            &&& final(out).values@ == old(out).values@ + vals(pairs)
        }),
        final(out).row_offsets@ == old(out).row_offsets@.push(final(out).indices@.len() as u32),
{
    let ghost before = *out;
    let ghost keep = relu_keeps(cells@);
    let mut f: usize = 0;
    proof {
        assert(out.indices@ =~= before.indices@ + ids(passing(cells@, keep, 0)));
        assert(out.values@ =~= before.values@ + vals(passing(cells@, keep, 0)));
    }
    while f < cells.len()
        invariant
            f <= cells@.len() <= 0x1_0000_0000,
            keep == relu_keeps(cells@),
            out.d_sae == before.d_sae,
            out.row_offsets@ == before.row_offsets@,
            out.indices@ == before.indices@ + ids(passing(cells@, keep, f as int)),
            out.values@ == before.values@ + vals(passing(cells@, keep, f as int)),
        decreases cells@.len() - f,
    {
        let v: u32 = cells[f];
        let ghost so_far = passing(cells@, keep, f as int);
        proof {
            assert(ids(so_far.push((f as u32, v))) =~= ids(so_far).push(f as u32));
            assert(vals(so_far.push((f as u32, v))) =~= vals(so_far).push(v));
        }
        if gt(v, ZERO) {
            out.indices.push(f as u32);
            out.values.push(v);
        }
        f += 1;
    }
    out.finish_row();
}

/// The feature ids of pairs ascend, without repetition.
pub open spec fn ascending(pairs: Seq<(u32, u32)>) -> bool {
    forall|s: int, t: int| 0 <= s < t < pairs.len() ==> (#[trigger] pairs[s]).0 < (#[trigger] pairs[t]).0
}

/// Every pair is a feature of the row with its value.
pub open spec fn drawn_from(pairs: Seq<(u32, u32)>, ys: Seq<u32>) -> bool {
    forall|t: int|
        0 <= t < pairs.len() ==> (#[trigger] pairs[t]).0 < ys.len() && pairs[t].1
            == ys[pairs[t].0 as int]
}

/// What passes a filter: exactly the features that `keep` lets through, each
/// once, with its value, by ascending feature.
pub proof fn passing_lists_kept_features(xs: Seq<u32>, keep: spec_fn(int) -> bool, n: int)
    requires
        0 <= n <= xs.len(),
        n <= 0x1_0000_0000,
    ensures
        passing(xs, keep, n).len() <= n,
        drawn_from(passing(xs, keep, n), xs),
        ascending(passing(xs, keep, n)),
        forall|t: int|
            0 <= t < passing(xs, keep, n).len() ==> (#[trigger] passing(xs, keep, n)[t]).0 < n
                && keep(passing(xs, keep, n)[t].0 as int),
        forall|f: int|
            0 <= f < n && #[trigger] keep(f) ==> exists|t: int|
                0 <= t < passing(xs, keep, n).len() && (#[trigger] passing(xs, keep, n)[t]).0 == f,
    decreases n,
{
    if n > 0 {
        passing_lists_kept_features(xs, keep, n - 1);
        let rest = passing(xs, keep, n - 1);
        let all = passing(xs, keep, n);
        assert forall|f: int| 0 <= f < n && #[trigger] keep(f) implies exists|t: int|
            0 <= t < all.len() && (#[trigger] all[t]).0 == f by {
            if f == n - 1 {
                assert(all[all.len() - 1].0 == f);
            } else {
                let t = choose|t: int| 0 <= t < rest.len() && (#[trigger] rest[t]).0 == f;
                assert(all[t] == rest[t]);
            }
        }
    }
}

/// What is left of ascending pairs after the ReLU: some of them, in order, and
/// with the ReLU exactly the positive ones.
proof fn lemma_kept(pairs: Seq<(u32, u32)>, post_relu: bool)
    requires
        ascending(pairs),
    ensures
        kept(pairs, post_relu).len() <= pairs.len(),
        ascending(kept(pairs, post_relu)),
        forall|t: int|
            0 <= t < kept(pairs, post_relu).len() ==> pairs.contains(
                #[trigger] kept(pairs, post_relu)[t],
            ),
        post_relu ==> forall|t: int|
            0 <= t < kept(pairs, post_relu).len() ==> positive(
                (#[trigger] kept(pairs, post_relu)[t]).1,
            ),
        !post_relu ==> kept(pairs, post_relu) == pairs,
    decreases pairs.len(),
{
    if pairs.len() > 0 {
        let rest = pairs.drop_last();
        lemma_kept(rest, post_relu);
        let before = kept(rest, post_relu);
        let all = kept(pairs, post_relu);
        assert forall|t: int| 0 <= t < all.len() implies pairs.contains(#[trigger] all[t]) by {
            if t < before.len() {
                assert(rest.contains(before[t]));
                let s = choose|s: int| 0 <= s < rest.len() && rest[s] == before[t];
                assert(pairs[s] == all[t]);
            } else {
                assert(pairs[pairs.len() - 1] == all[t]);
            }
        }
        assert forall|s: int, t: int| 0 <= s < t < all.len() implies (#[trigger] all[s]).0 < (
        #[trigger] all[t]).0 by {
            if t == before.len() {
                assert(rest.contains(before[s]));
                let p = choose|p: int| 0 <= p < rest.len() && rest[p] == before[s];
                assert(pairs[p].0 < pairs[pairs.len() - 1].0);
            }
        }
        if !post_relu {
            assert(all =~= pairs);
        }
    } else {
        assert(kept(pairs, post_relu) =~= pairs);
    }
}

/// Whatever the sparsifier, the active features of a row ascend without
/// repetition, and each carries the row's value for it. TopK has no more than
/// `k` of them, and exactly `k` (or all, if there are fewer) without the ReLU.
/// Their values are positive, but for TopK without the ReLU.
pub proof fn active_features_are_sound<F: Fn(FloatOp) -> u32>(
    unit: F,
    sparsifier: Sparsifier,
    choice: TopkFn,
    xs: Seq<u32>,
    ys: Seq<u32>,
    pairs: Seq<(u32, u32)>,
)
    requires
        xs.len() <= 0x1_0000_0000,
        row_result(unit, sparsifier, choice, xs, ys, pairs),
    ensures
        pairs.len() <= xs.len(),
        ascending(pairs),
        drawn_from(pairs, ys),
        sparsifier matches Sparsifier::TopK { k, post_relu, .. } ==> {
            &&& pairs.len() <= k
            &&& !post_relu ==> pairs.len() == (if k <= xs.len() {
                k as int
            } else {
                xs.len() as int
            })
        },
        !(sparsifier matches Sparsifier::TopK { post_relu, .. } && !post_relu) ==> forall|t: int|
            0 <= t < pairs.len() ==> positive((#[trigger] pairs[t]).1),
{
    match sparsifier {
        Sparsifier::TopK { k, post_relu, rescale } => {
            let sel = choose|sel: Seq<(u32, u32)>| #[trigger]
                selects(ranking(choice), ys, k as int, sel) && pairs == kept(sel, post_relu);
            lemma_kept(sel, post_relu);
            assert forall|t: int| 0 <= t < pairs.len() implies (#[trigger] pairs[t]).0 < ys.len()
                && pairs[t].1 == ys[pairs[t].0 as int] by {
                assert(sel.contains(pairs[t]));
                let s = choose|s: int| 0 <= s < sel.len() && sel[s] == pairs[t];
                assert(sel[s].0 < ys.len());
            }
        },
        Sparsifier::JumpReLU { thresholds } => {
            passing_lists_kept_features(xs, jumprelu_keeps(xs, thresholds@), xs.len() as int);
        },
        Sparsifier::Relu => {
            passing_lists_kept_features(xs, relu_keeps(xs), xs.len() as int);
        },
    }
}

/// Taking fewer rows takes fewer pairs.
pub proof fn lemma_flat_grows(rows: Seq<Seq<(u32, u32)>>, a: int, b: int)
    requires
        0 <= a <= b <= rows.len(),
    ensures
        flat(rows.take(a)).len() <= flat(rows.take(b)).len(),
    decreases b - a,
{
    if a < b {
        lemma_flat_grows(rows, a, b - 1);
        assert(rows.take(b).drop_last() =~= rows.take(b - 1));
    }
}

/// The pairs of row `b` stand behind those of the rows before it.
pub proof fn lemma_flat_row(rows: Seq<Seq<(u32, u32)>>, b: int, n: int)
    requires
        0 <= b < n <= rows.len(),
    ensures
        flat(rows.take(b + 1)).len() == flat(rows.take(b)).len() + rows[b].len(),
        flat(rows.take(b + 1)).len() <= flat(rows.take(n)).len(),
        flat(rows.take(n)).subrange(
            flat(rows.take(b)).len() as int,
            flat(rows.take(b + 1)).len() as int,
        ) == rows[b],
    decreases n - b,
{
    lemma_flat_grows(rows, b + 1, n);
    let lo = flat(rows.take(b)).len() as int;
    let hi = flat(rows.take(b + 1)).len() as int;
    assert(rows.take(b + 1).drop_last() =~= rows.take(b));
    if n == b + 1 {
        assert(flat(rows.take(n)).subrange(lo, hi) =~= rows[b]);
    } else {
        lemma_flat_row(rows, b, n - 1);
        assert(rows.take(n).drop_last() =~= rows.take(n - 1));
        assert(flat(rows.take(n)).subrange(lo, hi) =~= flat(rows.take(n - 1)).subrange(lo, hi));
    }
}

/// Rows that are appended to an empty output are all that it holds.
pub proof fn lemma_extends_empty(empty: SparseOut, rows: Seq<Seq<(u32, u32)>>, out: SparseOut)
    requires
        empty.indices@.len() == 0,
        empty.values@.len() == 0,
        empty.row_offsets@ == seq![0u32],
        extends(empty, rows, out),
    ensures
        lists(rows, out),
{
    assert(out.indices@ =~= ids(flat(rows)));
    assert(out.values@ =~= vals(flat(rows)));
    let offsets = Seq::new(rows.len() + 1, |r: int| flat(rows.take(r)).len() as u32);
    assert(rows.take(0) =~= Seq::<Seq<(u32, u32)>>::empty());
    assert(out.row_offsets@ =~= offsets);
}

/// Rows read back as they were written: if the pairs of `rows` can be counted in
/// a `u32`, an output that holds them satisfies the CSR invariant, has one row
/// per row, and row `b` holds the pairs of `rows[b]`.
pub proof fn rows_read_back(rows: Seq<Seq<(u32, u32)>>, out: SparseOut)
    requires
        lists(rows, out),
        flat(rows).len() <= u32::MAX,
    ensures
        out.wf(),
        out.rows() == rows.len(),
        forall|b: int|
            0 <= b < rows.len() ==> #[trigger] out.features(b) == ids(rows[b]) && out.activations(b)
                == vals(rows[b]),
{
    assert(rows.take(rows.len() as int) =~= rows);
    assert forall|a: int| 0 <= a <= rows.len() implies #[trigger] out.row_offsets@[a] == flat(
        rows.take(a),
    ).len() by {
        lemma_flat_grows(rows, a, rows.len() as int);
    }
    assert(rows.take(0) =~= Seq::<Seq<(u32, u32)>>::empty());
    assert forall|a: int, b: int| 0 <= a <= b < out.row_offsets@.len() implies out.row_offsets@[a]
        <= out.row_offsets@[b] by {
        lemma_flat_grows(rows, a, b);
    }
    assert forall|b: int| 0 <= b < rows.len() implies #[trigger] out.features(b) == ids(rows[b])
        && out.activations(b) == vals(rows[b]) by {
        lemma_flat_row(rows, b, rows.len() as int);
        let lo = flat(rows.take(b)).len() as int;
        let hi = flat(rows.take(b + 1)).len() as int;
        let all = flat(rows);
        assert forall|t: int| 0 <= t < rows[b].len() implies all[lo + t] == #[trigger] rows[b][t] by {
            assert(all.subrange(lo, hi)[t] == rows[b][t]);
        }
        assert(out.features(b) =~= ids(rows[b]));
        assert(out.activations(b) =~= vals(rows[b]));
    }
}

/// The low half of a length is no larger than the length.
proof fn lemma_low_half(n: usize)
    ensures
        n as u32 <= n,
{
    assert(n as u32 <= n) by (bit_vector);
}

/// The output of a sparsifier can be decoded, even where the
/// pairs cannot be counted in a `u32`: a row never spans a pair that is not
/// there, and every feature exists.
pub proof fn sparsified_is_decodable<F: Fn(FloatOp) -> u32>(
    unit: F,
    sparsifier: Sparsifier,
    choice: TopkFn,
    d_sae: int,
    n: int,
    pre: Seq<u32>,
    post: Seq<u32>,
    rows: Seq<Seq<(u32, u32)>>,
    out: SparseOut,
)
    requires
        0 <= d_sae <= 0x1_0000_0000,
        0 <= n,
        pre.len() == n * d_sae,
        tile_result(unit, sparsifier, choice, d_sae, n, pre, post, rows),
        lists(rows, out),
    ensures
        out.rows() == n,
        decodable(out, d_sae),
{
    let all = flat(rows);
    let n_pairs: usize = out.indices.len();
    assert(rows.take(n) =~= rows);
    lemma_all_features_exist(unit, sparsifier, choice, d_sae, n, pre, post, rows, n);
    assert forall|b: int, k: int| 0 <= b < out.rows() && #[trigger] out.spans(b, k) implies k
        < out.indices@.len() && k < out.values@.len() && out.indices@[k] < d_sae by {
        let end = flat(rows.take(b + 1)).len();
        lemma_flat_grows(rows, b + 1, n);
        assert(out.row_offsets@[b + 1] == end as u32);
        lemma_low_half(end as usize);
        assert(k < all.len());
        assert(out.indices@[k] == all[k].0);
    }
}

/// Every feature that the first `m` rows list exists.
proof fn lemma_all_features_exist<F: Fn(FloatOp) -> u32>(
    unit: F,
    sparsifier: Sparsifier,
    choice: TopkFn,
    d_sae: int,
    n: int,
    pre: Seq<u32>,
    post: Seq<u32>,
    rows: Seq<Seq<(u32, u32)>>,
    m: int,
)
    requires
        0 <= d_sae <= 0x1_0000_0000,
        pre.len() == n * d_sae,
        0 <= m <= n,
        tile_result(unit, sparsifier, choice, d_sae, n, pre, post, rows),
    ensures
        forall|t: int| 0 <= t < flat(rows.take(m)).len() ==> (#[trigger] flat(rows.take(m))[t]).0 < d_sae,
    decreases m,
{
    if m > 0 {
        lemma_all_features_exist(unit, sparsifier, choice, d_sae, n, pre, post, rows, m - 1);
        lemma_row(n, d_sae, m - 1);
        let pairs = rows[m - 1];
        let xs = row(pre, d_sae, m - 1);
        let ys = row(post, d_sae, m - 1);
        assert(row_result(unit, sparsifier, choice, xs, ys, pairs));
        active_features_are_sound(unit, sparsifier, choice, xs, ys, pairs);
        assert(rows.take(m).drop_last() =~= rows.take(m - 1));
        let all = flat(rows.take(m));
        let before = flat(rows.take(m - 1));
        assert forall|t: int| 0 <= t < all.len() implies (#[trigger] all[t]).0 < d_sae by {
            if t < before.len() {
                assert(all[t] == before[t]);
            } else {
                assert(all[t] == pairs[t - before.len()]);
            }
        }
    } else {
        assert(rows.take(0) =~= Seq::<Seq<(u32, u32)>>::empty());
    }
}

} // verus!
