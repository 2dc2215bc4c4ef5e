//! Which features are active.
//!
//! The laws here say of every feature of a row whether it is listed, from the row
//! alone, and read the answer off the arrays of the output.

use vstd::prelude::*;
use vstd::set_lib::{lemma_int_range, lemma_len_subset, lemma_subset_equality, set_int_range};

use crate::bits::{greater, is_nan, positive, yields, FloatOp};
use crate::exact::{
    encoding_is_a_matrix_product, encodings_order_as_numbers, exact, lemma_series_congruent, number,
    series, weight_cell,
};
use crate::index::{at, lemma_row, row};
use crate::kernels::encoder::encodes;
use crate::kernels::scalar::sort_rank;
use crate::kernels::topk::{implementations_select_alike, ranking, TopkFn};
use crate::kernels::topk_heap::{entry, picked, selects};
use crate::normalize::{normalizes, rows_normalize_alone};
use crate::sae::{shifted, Sae, SparseOut};
use crate::sparsify::{
    active_features_are_sound, extends, flat, ids, jumprelu_keeps, kept, lemma_flat_grows,
    lemma_flat_row, lists, passing, passing_lists_kept_features, relu_keeps, row_result, scaled, vals,
    Sparsifier,
};

verus! {

/// Feature `g` goes before feature `f`: it has the larger number, or the same number
/// and the lower index.
pub open spec fn beats(ys: Seq<u32>, g: int, f: int) -> bool {
    greater(ys[g], ys[f]) || (!greater(ys[f], ys[g]) && g < f)
}

/// The features that go before feature `f`.
pub open spec fn rivals(ys: Seq<u32>, f: int) -> Set<int> {
    Set::new(|g: int| 0 <= g < ys.len() && beats(ys, g, f))
}

/// The features with a positive number.
pub open spec fn positives(ys: Seq<u32>) -> Set<int> {
    Set::new(|g: int| 0 <= g < ys.len() && 0 < ys[g] <= 0x7f80_0000)
}

/// Feature `f` is listed, with the value `v`.
pub open spec fn listed(pairs: Seq<(u32, u32)>, f: int, v: u32) -> bool {
    exists|t: int| 0 <= t < pairs.len() && (#[trigger] pairs[t]).0 == f && pairs[t].1 == v
}

/// The features of pairs.
spec fn features_in(pairs: Seq<(u32, u32)>) -> Set<int> {
    pairs.map_values(|e: (u32, u32)| e.0 as int).to_set()
}

/// Pairs whose features ascend have as many features as there are pairs.
proof fn lemma_features_in(pairs: Seq<(u32, u32)>)
    requires
        forall|s: int, t: int|
            0 <= s < t < pairs.len() ==> (#[trigger] pairs[s]).0 < (#[trigger] pairs[t]).0,
    ensures
        features_in(pairs).finite(),
        features_in(pairs).len() == pairs.len(),
        forall|f: int| #[trigger] features_in(pairs).contains(f) <==> picked(pairs, f),
{
    let p = pairs.map_values(|e: (u32, u32)| e.0 as int);
    assert(p.no_duplicates());
    p.unique_seq_to_set();
    assert forall|f: int| #[trigger] features_in(pairs).contains(f) <==> picked(pairs, f) by {
        if features_in(pairs).contains(f) {
            let t = choose|t: int| 0 <= t < p.len() && p[t] == f;
            assert(pairs[t].0 == f);
        }
        if picked(pairs, f) {
            let t = choose|t: int| 0 <= t < pairs.len() && (#[trigger] pairs[t]).0 == f;
            assert(p[t] == f);
        }
    }
}

/// The features of a row are finitely many.
proof fn lemma_finite(ys: Seq<u32>, f: int)
    ensures
        rivals(ys, f).finite(),
        rivals(ys, f).len() <= ys.len(),
        positives(ys).finite(),
        positives(ys).len() <= ys.len(),
{
    lemma_int_range(0, ys.len() as int);
    lemma_len_subset(rivals(ys, f), set_int_range(0, ys.len() as int));
    lemma_len_subset(positives(ys), set_int_range(0, ys.len() as int));
}

/// The sign and magnitude of an encoding, as one number. A NaN counts as beyond every
/// number of its sign.
pub open spec fn signed(v: u32) -> int {
    if v < 0x8000_0000 {
        v as int
    } else {
        0x8000_0000 - v
    }
}

/// The positions that go before position `f` by sign and magnitude: the larger ones, and
/// the equal ones at a lower index.
pub open spec fn before(ys: Seq<u32>, f: int) -> Set<int> {
    Set::new(
        |g: int|
            0 <= g < ys.len() && (signed(ys[g]) > signed(ys[f]) || (signed(ys[g]) == signed(ys[f])
                && g < f)),
    )
}

/// A selection of `k` positions, by either implementation, lists a position if and only
/// if fewer than `k` go before it by sign and magnitude. It lists it once, with its
/// score, in the order of the indices.
pub proof fn a_selection_lists_the_first(
    choice: TopkFn,
    ys: Seq<u32>,
    k: int,
    sel: Seq<(u32, u32)>,
    f: int,
    v: u32,
)
    requires
        0 <= k,
        ys.len() <= 0x1_0000_0000,
        selects(ranking(choice), ys, k, sel),
    ensures
        listed(sel, f, v) <==> 0 <= f < ys.len() && v == ys[f] && before(ys, f).len() < k,
        sel.len() == (if k <= ys.len() {
            k
        } else {
            ys.len() as int
        }),
        forall|s: int, t: int|
            0 <= s < t < sel.len() ==> (#[trigger] sel[s]).0 < (#[trigger] sel[t]).0,
{
    if 0 <= f < ys.len() {
        lemma_selected_first(ys, choice, k, sel, f);
        if picked(sel, f) {
            let t = choose|t: int| 0 <= t < sel.len() && (#[trigger] sel[t]).0 == f;
            assert(sel[t].1 == ys[f]);
        }
    }
    if listed(sel, f, v) {
        let t = choose|t: int| 0 <= t < sel.len() && (#[trigger] sel[t]).0 == f && sel[t].1 == v;
        assert(picked(sel, f));
    }
}

/// A selection picks a position if and only if fewer than `k` go before it.
proof fn lemma_selected_first(ys: Seq<u32>, choice: TopkFn, k: int, sel: Seq<(u32, u32)>, f: int)
    requires
        0 <= k,
        ys.len() <= 0x1_0000_0000,
        selects(ranking(choice), ys, k, sel),
        0 <= f < ys.len(),
    ensures
        picked(sel, f) <==> before(ys, f).len() < k,
{
    implementations_select_alike(choice, TopkFn::Legacy, ys, k, sel);
    let rank = sort_rank();
    let s = features_in(sel);
    let ahead = before(ys, f);
    lemma_features_in(sel);
    let all = set_int_range(0, ys.len() as int);
    lemma_int_range(0, ys.len() as int);
    lemma_len_subset(ahead, all);
    assert forall|g: int| s.contains(g) implies all.contains(g) by {
        let t = choose|t: int| 0 <= t < sel.len() && (#[trigger] sel[t]).0 == g;
        assert(sel[t].0 < ys.len());
    }
    if picked(sel, f) {
        let t = choose|t: int| 0 <= t < sel.len() && (#[trigger] sel[t]).0 == f;
        assert(sel[t] == entry(ys, f));
        assert forall|g: int| ahead.contains(g) implies s.remove(f).contains(g) by {
            if !picked(sel, g) {
                assert(rank(sel[t]) > rank(entry(ys, g)));
            }
        }
        lemma_len_subset(ahead, s.remove(f));
    } else {
        if k >= ys.len() {
            lemma_subset_equality(s, all);
            assert(all.contains(f));
        }
        assert forall|g: int| s.contains(g) implies ahead.contains(g) by {
            let t = choose|t: int| 0 <= t < sel.len() && (#[trigger] sel[t]).0 == g;
            assert(sel[t] == entry(ys, g));
            assert(rank(sel[t]) > rank(entry(ys, f)));
        }
        lemma_len_subset(s, ahead);
    }
}

/// Among numbers, a selection lists feature `f` if and only if fewer than `k` features go
/// before it.
proof fn lemma_selected(ys: Seq<u32>, choice: TopkFn, k: int, sel: Seq<(u32, u32)>, f: int)
    requires
        0 <= k,
        ys.len() <= 0x1_0000_0000,
        forall|g: int| 0 <= g < ys.len() ==> !is_nan(#[trigger] ys[g]),
        selects(ranking(choice), ys, k, sel),
        0 <= f < ys.len(),
    ensures
        picked(sel, f) <==> rivals(ys, f).len() < k,
{
    lemma_selected_first(ys, choice, k, sel, f);
    assert forall|g: int| rivals(ys, f).contains(g) <==> before(ys, f).contains(g) by {
        if 0 <= g < ys.len() {
            assert(!is_nan(ys[g]) && !is_nan(ys[f]));
        }
    }
    assert(rivals(ys, f) =~= before(ys, f));
}

/// What the ReLU leaves of a selection: the pairs with a positive value, every one.
proof fn lemma_kept_picks(sel: Seq<(u32, u32)>, post_relu: bool, f: int)
    ensures
        picked(kept(sel, post_relu), f) <==> exists|t: int|
            0 <= t < sel.len() && (#[trigger] sel[t]).0 == f && (post_relu ==> positive(sel[t].1)),
    decreases sel.len(),
{
    if sel.len() > 0 {
        let rest = sel.drop_last();
        let last = sel.last();
        lemma_kept_picks(rest, post_relu, f);
        let fewer = kept(rest, post_relu);
        let all = kept(sel, post_relu);
        if picked(all, f) {
            let t = choose|t: int| 0 <= t < all.len() && (#[trigger] all[t]).0 == f;
            if t < fewer.len() {
                assert(fewer[t].0 == f);
                let u = choose|u: int|
                    0 <= u < rest.len() && (#[trigger] rest[u]).0 == f && (post_relu ==> positive(
                        rest[u].1,
                    ));
                assert(sel[u] == rest[u]);
            } else {
                assert(sel[sel.len() - 1] == all[t]);
            }
        }
        if exists|t: int|
            0 <= t < sel.len() && (#[trigger] sel[t]).0 == f && (post_relu ==> positive(sel[t].1)) {
            let t = choose|t: int|
                0 <= t < sel.len() && (#[trigger] sel[t]).0 == f && (post_relu ==> positive(
                    sel[t].1,
                ));
            if t < rest.len() {
                assert(rest[t] == sel[t]);
                let u = choose|u: int| 0 <= u < fewer.len() && (#[trigger] fewer[u]).0 == f;
                assert(all[u] == fewer[u]);
            } else {
                assert(all[all.len() - 1].0 == f);
            }
        }
    }
}

/// TopK lists a feature if and only if fewer than `k` features go before it (a larger
/// number, or the same number at a lower index) and, with the ReLU, its number is
/// positive. So with the ReLU a row has `k` features, or all that are positive if
/// they are fewer. A value is the pre-activation, times its feature's factor where
/// there is one.
pub proof fn topk_lists_the_unbeaten<F: Fn(FloatOp) -> u32>(
    unit: F,
    k: u32,
    post_relu: bool,
    rescale: Option<Vec<u32>>,
    choice: TopkFn,
    xs: Seq<u32>,
    ys: Seq<u32>,
    pairs: Seq<(u32, u32)>,
)
    requires
        xs.len() <= 0x1_0000_0000,
        row_result(unit, Sparsifier::TopK { k, post_relu, rescale }, choice, xs, ys, pairs),
        forall|g: int| 0 <= g < ys.len() ==> !is_nan(#[trigger] ys[g]),
    ensures
        ys.len() == xs.len(),
        rescale is None ==> ys == xs,
        rescale matches Some(s) ==> forall|f: int|
            0 <= f < xs.len() ==> if f < s@.len() {
                yields(unit, FloatOp::Mul(xs[f], s@[f]), #[trigger] ys[f])
            } else {
                ys[f] == xs[f]
            },
        forall|f: int, v: u32|
            #![trigger listed(pairs, f, v)]
            listed(pairs, f, v) <==> 0 <= f < ys.len() && v == ys[f] && rivals(ys, f).len() < k && (
            post_relu ==> 0 < v <= 0x7f80_0000),
        forall|s: int, t: int|
            0 <= s < t < pairs.len() ==> (#[trigger] pairs[s]).0 < (#[trigger] pairs[t]).0,
        !post_relu ==> pairs.len() == (if k <= ys.len() {
            k as int
        } else {
            ys.len() as int
        }),
        post_relu ==> pairs.len() == (if k <= positives(ys).len() {
            k as int
        } else {
            positives(ys).len() as int
        }),
{
    let sparsifier = Sparsifier::TopK { k, post_relu, rescale };
    let n = ys.len() as int;
    let sel = choose|sel: Seq<(u32, u32)>| #[trigger]
        selects(ranking(choice), ys, k as int, sel) && pairs == kept(sel, post_relu);
    active_features_are_sound(unit, sparsifier, choice, xs, ys, pairs);
    assert forall|f: int| 0 <= f < n implies (#[trigger] picked(pairs, f) <==> rivals(ys, f).len() < k
        && (post_relu ==> positive(ys[f]))) by {
        lemma_selected(ys, choice, k as int, sel, f);
        lemma_kept_picks(sel, post_relu, f);
        if picked(sel, f) {
            let t = choose|t: int| 0 <= t < sel.len() && (#[trigger] sel[t]).0 == f;
            assert(sel[t].1 == ys[f]);
        }
    }
    assert forall|f: int, v: u32|
        #![trigger listed(pairs, f, v)]
        listed(pairs, f, v) <==> 0 <= f < n && v == ys[f] && rivals(ys, f).len() < k && (post_relu
            ==> 0 < v <= 0x7f80_0000) by {
        if listed(pairs, f, v) {
            let t = choose|t: int|
                0 <= t < pairs.len() && (#[trigger] pairs[t]).0 == f && pairs[t].1 == v;
            assert(picked(pairs, f));
        }
        if 0 <= f < n && v == ys[f] && rivals(ys, f).len() < k && (post_relu ==> 0 < v
            <= 0x7f80_0000) {
            assert(positive(v) <==> 0 < v <= 0x7f80_0000);
            assert(picked(pairs, f));
            let t = choose|t: int| 0 <= t < pairs.len() && (#[trigger] pairs[t]).0 == f;
            assert(pairs[t].1 == v);
        }
    }
    if post_relu {
        lemma_positive_count(ys, choice, k, sel, pairs);
    }
}

/// With the ReLU, a selection leaves `k` features, or all the positive ones.
proof fn lemma_positive_count(
    ys: Seq<u32>,
    choice: TopkFn,
    k: u32,
    sel: Seq<(u32, u32)>,
    pairs: Seq<(u32, u32)>,
)
    requires
        ys.len() <= 0x1_0000_0000,
        forall|g: int| 0 <= g < ys.len() ==> !is_nan(#[trigger] ys[g]),
        selects(ranking(choice), ys, k as int, sel),
        forall|t: int|
            0 <= t < pairs.len() ==> (#[trigger] pairs[t]).0 < ys.len(),
        forall|s: int, t: int|
            0 <= s < t < pairs.len() ==> (#[trigger] pairs[s]).0 < (#[trigger] pairs[t]).0,
        forall|f: int|
            0 <= f < ys.len() ==> (#[trigger] picked(pairs, f) <==> rivals(ys, f).len() < k
                && positive(ys[f])),
    ensures
        pairs.len() == (if k <= positives(ys).len() {
            k as int
        } else {
            positives(ys).len() as int
        }),
{
    let p = positives(ys);
    let l = features_in(pairs);
    let s = features_in(sel);
    lemma_features_in(pairs);
    lemma_features_in(sel);
    lemma_finite(ys, 0);
    assert forall|f: int| l.contains(f) implies p.contains(f) by {
        let t = choose|t: int| 0 <= t < pairs.len() && (#[trigger] pairs[t]).0 == f;
        assert(pairs[t].0 < ys.len());
    }
    if k <= p.len() {
        assert(k <= ys.len());
        assert forall|f: int| s.contains(f) implies l.contains(f) by {
            let t = choose|t: int| 0 <= t < sel.len() && (#[trigger] sel[t]).0 == f;
            assert(sel[t].0 < ys.len());
            lemma_selected(ys, choice, k as int, sel, f);
            if !positive(ys[f]) {
                assert forall|g: int| p.contains(g) implies rivals(ys, f).contains(g) by {
                    assert(!is_nan(ys[f]) && !is_nan(ys[g]));
                }
                lemma_finite(ys, f);
                lemma_len_subset(p, rivals(ys, f));
            }
        }
        assert forall|f: int| l.contains(f) implies s.contains(f) by {
            lemma_selected(ys, choice, k as int, sel, f);
        }
        assert(s =~= l);
    } else {
        assert forall|f: int| p.contains(f) implies l.contains(f) by {
            lemma_finite(ys, f);
            assert forall|g: int| rivals(ys, f).contains(g) implies p.remove(f).contains(g) by {
                assert(!is_nan(ys[f]) && !is_nan(ys[g]));
            }
            lemma_len_subset(rivals(ys, f), p.remove(f));
            assert(picked(pairs, f));
        }
        assert(p =~= l);
    }
}

/// JumpReLU lists a feature if and only if its pre-activation is a number above its
/// own threshold and above zero; a feature without a threshold is not listed. ReLU
/// lists a feature if and only if its pre-activation is a number above zero. The
/// values are the pre-activations, which stay as they are.
pub proof fn thresholds_decide<F: Fn(FloatOp) -> u32>(
    unit: F,
    sparsifier: Sparsifier,
    choice: TopkFn,
    xs: Seq<u32>,
    ys: Seq<u32>,
    pairs: Seq<(u32, u32)>,
)
    requires
        xs.len() <= 0x1_0000_0000,
        row_result(unit, sparsifier, choice, xs, ys, pairs),
        sparsifier !is TopK,
    ensures
        ys == xs,
        sparsifier matches Sparsifier::JumpReLU { thresholds } ==> forall|f: int, v: u32|
            #![trigger listed(pairs, f, v)]
            listed(pairs, f, v) <==> 0 <= f < xs.len() && v == xs[f] && f < thresholds@.len()
                && greater(v, thresholds@[f]) && 0 < v <= 0x7f80_0000,
        sparsifier is Relu ==> forall|f: int, v: u32|
            #![trigger listed(pairs, f, v)]
            listed(pairs, f, v) <==> 0 <= f < xs.len() && v == xs[f] && 0 < v <= 0x7f80_0000,
        forall|s: int, t: int|
            0 <= s < t < pairs.len() ==> (#[trigger] pairs[s]).0 < (#[trigger] pairs[t]).0,
{
    let n = xs.len() as int;
    active_features_are_sound(unit, sparsifier, choice, xs, ys, pairs);
    match sparsifier {
        Sparsifier::JumpReLU { thresholds } => {
            let keep = jumprelu_keeps(xs, thresholds@);
            passing_lists_kept_features(xs, keep, n);
            assert forall|f: int, v: u32|
                #![trigger listed(pairs, f, v)]
                listed(pairs, f, v) <==> 0 <= f < n && v == xs[f] && f < thresholds@.len() && greater(
                    v,
                    thresholds@[f],
                ) && 0 < v <= 0x7f80_0000 by {
                lemma_listed(xs, keep, pairs, f, v);
                assert(positive(v) <==> 0 < v <= 0x7f80_0000);
            }
        },
        Sparsifier::Relu => {
            let keep = relu_keeps(xs);
            passing_lists_kept_features(xs, keep, n);
            assert forall|f: int, v: u32|
                #![trigger listed(pairs, f, v)]
                listed(pairs, f, v) <==> 0 <= f < n && v == xs[f] && 0 < v <= 0x7f80_0000 by {
                lemma_listed(xs, keep, pairs, f, v);
                assert(positive(v) <==> 0 < v <= 0x7f80_0000);
            }
        },
        Sparsifier::TopK { .. } => {},
    }
}

/// What a filter lists.
proof fn lemma_listed(
    xs: Seq<u32>,
    keep: spec_fn(int) -> bool,
    pairs: Seq<(u32, u32)>,
    f: int,
    v: u32,
)
    requires
        xs.len() <= 0x1_0000_0000,
        pairs == passing(xs, keep, xs.len() as int),
    ensures
        listed(pairs, f, v) <==> 0 <= f < xs.len() && v == xs[f] && keep(f),
{
    passing_lists_kept_features(xs, keep, xs.len() as int);
    if listed(pairs, f, v) {
        let t = choose|t: int|
            0 <= t < pairs.len() && (#[trigger] pairs[t]).0 == f && pairs[t].1 == v;
        assert(keep(pairs[t].0 as int));
    }
    if 0 <= f < xs.len() && v == xs[f] && keep(f) {
        let t = choose|t: int| 0 <= t < pairs.len() && (#[trigger] pairs[t]).0 == f;
        assert(pairs[t].1 == v);
    }
}

/// Row `b` of an output lists feature `f` with the value `v`.
pub open spec fn active(z: SparseOut, b: int, f: int, v: u32) -> bool {
    exists|p: int|
        z.row_offsets@[b] <= p < z.row_offsets@[b + 1] && #[trigger] z.indices@[p] == f
            && z.values@[p] == v
}

/// An output holds its rows one after the other: the offsets start at zero and say
/// where each row begins, a row takes as many places as it has pairs, and its pairs
/// stand there in order.
pub proof fn rows_stand_one_after_the_other(rows: Seq<Seq<(u32, u32)>>, z: SparseOut, b: int)
    requires
        lists(rows, z),
        z.indices@.len() <= u32::MAX,
        0 <= b < rows.len(),
    ensures
        z.row_offsets@.len() == rows.len() + 1,
        z.row_offsets@[0] == 0,
        z.row_offsets@[rows.len() as int] == z.indices@.len(),
        z.values@.len() == z.indices@.len(),
        z.row_offsets@[b + 1] == z.row_offsets@[b] + rows[b].len(),
        z.row_offsets@[b + 1] <= z.indices@.len(),
        forall|t: int|
            0 <= t < rows[b].len() ==> z.indices@[z.row_offsets@[b] + t] == (#[trigger] rows[b][t]).0
                && z.values@[z.row_offsets@[b] + t] == rows[b][t].1,
        forall|f: int, v: u32| #[trigger] active(z, b, f, v) <==> listed(rows[b], f, v),
{
    let all = flat(rows);
    let n = rows.len() as int;
    let pairs = rows[b];
    assert(rows.take(n) =~= rows);
    assert(rows.take(0) =~= Seq::<Seq<(u32, u32)>>::empty());
    lemma_flat_grows(rows, 0, n);
    lemma_flat_grows(rows, b, n);
    lemma_flat_grows(rows, b + 1, n);
    lemma_flat_row(rows, b, n);
    let lo = flat(rows.take(b)).len() as int;
    let hi = flat(rows.take(b + 1)).len() as int;
    assert(z.row_offsets@[b] == lo && z.row_offsets@[b + 1] == hi);
    assert forall|t: int| 0 <= t < pairs.len() implies z.indices@[lo + t] == (#[trigger] pairs[t]).0
        && z.values@[lo + t] == pairs[t].1 by {
        assert(all.subrange(lo, hi)[t] == pairs[t]);
    }
    assert forall|f: int, v: u32| #[trigger] active(z, b, f, v) <==> listed(pairs, f, v) by {
        if active(z, b, f, v) {
            let p = choose|p: int|
                z.row_offsets@[b] <= p < z.row_offsets@[b + 1] && #[trigger] z.indices@[p] == f
                    && z.values@[p] == v;
            assert(pairs[p - lo].0 == f && pairs[p - lo].1 == v);
        }
        if listed(pairs, f, v) {
            let t = choose|t: int|
                0 <= t < pairs.len() && (#[trigger] pairs[t]).0 == f && pairs[t].1 == v;
            assert(z.indices@[lo + t] == f && z.values@[lo + t] == v);
        }
    }
}

/// Rows that are appended to an output leave what it held, and stand behind it.
pub proof fn appended_rows_stand_behind(
    before: SparseOut,
    rows: Seq<Seq<(u32, u32)>>,
    after: SparseOut,
    r: int,
)
    requires
        extends(before, rows, after),
        before.row_offsets@.len() > 0,
        before.row_offsets@.last() == before.indices@.len(),
        before.values@.len() == before.indices@.len(),
        after.indices@.len() <= u32::MAX,
        0 <= r < rows.len(),
    ensures
        after.d_sae == before.d_sae,
        after.row_offsets@.len() == before.row_offsets@.len() + rows.len(),
        after.row_offsets@.take(before.row_offsets@.len() as int) == before.row_offsets@,
        after.indices@.take(before.indices@.len() as int) == before.indices@,
        after.values@.take(before.values@.len() as int) == before.values@,
        ({
            let b = before.row_offsets@.len() - 1 + r;
            &&& after.row_offsets@[b + 1] == after.row_offsets@[b] + rows[r].len()
            &&& forall|t: int|
                0 <= t < rows[r].len() ==> after.indices@[after.row_offsets@[b] + t] == (
                #[trigger] rows[r][t]).0 && after.values@[after.row_offsets@[b] + t] == rows[r][t].1
        }),
{
    let all = flat(rows);
    let n = rows.len() as int;
    let m = before.row_offsets@.len() as int;
    let base = before.indices@.len() as int;
    let pairs = rows[r];
    assert(rows.take(n) =~= rows);
    assert(rows.take(0) =~= Seq::<Seq<(u32, u32)>>::empty());
    lemma_flat_grows(rows, r, n);
    lemma_flat_grows(rows, r + 1, n);
    lemma_flat_row(rows, r, n);
    let lo = flat(rows.take(r)).len() as int;
    let hi = flat(rows.take(r + 1)).len() as int;
    assert(after.row_offsets@.take(m) =~= before.row_offsets@);
    assert(after.indices@.take(base) =~= before.indices@);
    assert(after.values@.take(base) =~= before.values@);
    assert(after.row_offsets@[m + r] == base + hi);
    if r > 0 {
        assert(after.row_offsets@[m + (r - 1)] == base + lo);
    } else {
        assert(after.row_offsets@.take(m)[m - 1] == after.row_offsets@[m - 1]);
    }
    assert forall|t: int| 0 <= t < pairs.len() implies after.indices@[base + lo + t] == (
    #[trigger] pairs[t]).0 && after.values@[base + lo + t] == pairs[t].1 by {
        assert(all.subrange(lo, hi)[t] == pairs[t]);
        assert(after.indices@[base + (lo + t)] == ids(all)[lo + t]);
        assert(after.values@[base + (lo + t)] == vals(all)[lo + t]);
    }
}

/// The pre-activation of feature `f` on batch row `b`, as a number: the bias of the
/// feature plus the dot product of its weights with the inputs, less the decoder bias
/// where the configuration asks for it.
pub open spec fn score(sae: Sae, x: Seq<u32>, b: int, f: int) -> real {
    number(sae.enc.b_enc@[f]) + series(
        |k: int|
            (number(x[b * sae.cfg.d_in + k]) - (if sae.cfg.apply_b_dec_to_input {
                number(sae.dec.b_dec@[k])
            } else {
                0real
            })) * number(weight_cell(sae.enc, f, k)),
        sae.cfg.d_in as int,
    )
}

/// The score of a feature, times its factor where TopK has one.
pub open spec fn level(sae: Sae, x: Seq<u32>, b: int, f: int) -> real {
    match sae.sparsifier {
        Sparsifier::TopK { rescale: Some(s), .. } => if f < s@.len() {
            score(sae, x, b, f) * number(s@[f])
        } else {
            score(sae, x, b, f)
        },
        _ => score(sae, x, b, f),
    }
}

/// The features whose level is larger than that of feature `f`, or the same at a lower
/// index.
pub open spec fn ahead(sae: Sae, x: Seq<u32>, b: int, f: int) -> Set<int> {
    Set::new(
        |g: int|
            0 <= g < sae.cfg.d_sae && (level(sae, x, b, g) > level(sae, x, b, f) || (level(
                sae,
                x,
                b,
                g,
            ) == level(sae, x, b, f) && g < f)),
    )
}

/// The scores of a batch are its pre-activations.
proof fn lemma_scores<F: Fn(FloatOp) -> u32>(
    sae: Sae,
    unit: F,
    x: Seq<u32>,
    batch: int,
    prep: Seq<u32>,
    pre: Seq<u32>,
    b: int,
    f: int,
)
    requires
        exact(unit),
        sae.wf(),
        sae.cfg.normalize_activations is Off,
        x.len() == batch * sae.cfg.d_in,
        sae.prepares(unit, x, batch, prep),
        encodes(unit, sae.backend, sae.enc, prep, batch, pre),
        0 <= b < batch,
        0 <= f < sae.cfg.d_sae,
        !is_nan(sae.enc.b_enc@[f]),
    ensures
        number(pre[b * sae.cfg.d_sae + f]) == score(sae, x, b, f),
        !is_nan(pre[b * sae.cfg.d_sae + f]),
{
    let d_in = sae.cfg.d_in as int;
    let mode = sae.cfg.normalize_activations;
    let mid = choose|mid: Seq<u32>| #[trigger]
        normalizes(unit, mode, x, batch, d_in, mid) && if sae.cfg.apply_b_dec_to_input {
            shifted(unit, sae.dec.b_dec@, batch, mid, prep)
        } else {
            prep == mid
        };
    rows_normalize_alone(unit, mode, d_in, x, batch, mid);
    assert(mid == x);
    encoding_is_a_matrix_product(unit, sae.backend, sae.enc, prep, batch, pre, b, f);
    let term = |k: int| number(prep[b * sae.enc.d_in + k]) * number(weight_cell(sae.enc, f, k));
    let want = |k: int|
        (number(x[b * sae.cfg.d_in + k]) - (if sae.cfg.apply_b_dec_to_input {
            number(sae.dec.b_dec@[k])
        } else {
            0real
        })) * number(weight_cell(sae.enc, f, k));
    assert forall|k: int| 0 <= k < d_in implies #[trigger] term(k) == want(k) by {
        if sae.cfg.apply_b_dec_to_input {
            assert(yields(
                unit,
                FloatOp::Sub(at(x, d_in, b, k), sae.dec.b_dec@[k]),
                at(prep, d_in, b, k),
            ));
        }
    }
    lemma_series_congruent(term, want, d_in);
}

/// Encoding does what an SAE is for: it lists a feature of a row with its level, and it
/// lists it where the sparsifier says. With ReLU that is where the level is above zero;
/// with JumpReLU where it is above zero and above the threshold of the feature; with
/// TopK where fewer than `k` features are ahead and, with the ReLU, the level is above
/// zero.
///
/// (Inputs are taken as they are here; a normalization comes first, see
/// [`crate::equivalence::preparation_comes_first`].)
pub proof fn active_features_are_those_of_the_model<F: Fn(FloatOp) -> u32>(
    sae: Sae,
    unit: F,
    x: Seq<u32>,
    batch: int,
    z: SparseOut,
    b: int,
    f: int,
)
    requires
        exact(unit),
        sae.wf(),
        sae.cfg.d_sae <= u32::MAX,
        sae.cfg.normalize_activations is Off,
        x.len() == batch * sae.cfg.d_in,
        sae.features_of(unit, x, batch, z),
        z.indices@.len() <= u32::MAX,
        0 <= b < batch,
        0 <= f < sae.cfg.d_sae,
        forall|g: int| 0 <= g < sae.cfg.d_sae ==> !is_nan(#[trigger] sae.enc.b_enc@[g]),
        sae.sparsifier matches Sparsifier::JumpReLU { thresholds } ==> f < thresholds@.len()
            && !is_nan(thresholds@[f]),
    ensures
        forall|v: u32| #[trigger] active(z, b, f, v) ==> number(v) == level(sae, x, b, f),
        sae.sparsifier is Relu ==> ((exists|v: u32| #[trigger] active(z, b, f, v)) <==> level(
            sae,
            x,
            b,
            f,
        ) > 0real),
        sae.sparsifier matches Sparsifier::JumpReLU { thresholds } ==> ((exists|v: u32| #[trigger]
            active(z, b, f, v)) <==> level(sae, x, b, f) > 0real && level(sae, x, b, f) > number(
            thresholds@[f],
        )),
        sae.sparsifier matches Sparsifier::TopK { k, post_relu, .. } ==> ((exists|v: u32| #[trigger]
            active(z, b, f, v)) <==> ahead(sae, x, b, f).len() < k && (post_relu ==> level(
            sae,
            x,
            b,
            f,
        ) > 0real)),
{
    let d_sae = sae.cfg.d_sae as int;
    let (prep, pre, post, rows) = choose|
        prep: Seq<u32>,
        pre: Seq<u32>,
        post: Seq<u32>,
        rows: Seq<Seq<(u32, u32)>>,
    | #[trigger]
        sae.activates(unit, x, batch, prep, pre, post, rows) && lists(rows, z);
    lemma_row(batch, d_sae, b);
    let xs = row(pre, d_sae, b);
    let ys = row(post, d_sae, b);
    let pairs = rows[b];
    assert(row_result(unit, sae.sparsifier, sae.topk, xs, ys, pairs));
    rows_stand_one_after_the_other(rows, z, b);
    assert forall|g: int| 0 <= g < d_sae implies number(#[trigger] xs[g]) == score(sae, x, b, g)
        && !is_nan(xs[g]) by {
        assert(!is_nan(sae.enc.b_enc@[g]));
        lemma_scores(sae, unit, x, batch, prep, pre, b, g);
        assert(xs[g] == pre[b * d_sae + g]);
    }
    assert(number(xs[f]) == score(sae, x, b, f) && !is_nan(xs[f]));
    encodings_order_as_numbers(xs[f], xs[f]);
    match sparsifier_parts(sae.sparsifier) {
        Some((k, post_relu, rescale)) => {
            assert forall|g: int| 0 <= g < d_sae implies number(#[trigger] ys[g]) == level(
                sae,
                x,
                b,
                g,
            ) && !is_nan(ys[g]) by {
                assert(xs[g] == xs[g]);
                if let Some(s) = rescale {
                    assert(scaled(unit, rescale, xs, ys));
                    if g < s@.len() {
                        assert(yields(unit, FloatOp::Mul(xs[g], s@[g]), ys[g]));
                    }
                }
            }
            assert(ys[f] == ys[f]);
            topk_lists_the_unbeaten(unit, k, post_relu, rescale, sae.topk, xs, ys, pairs);
            encodings_order_as_numbers(ys[f], ys[f]);
            assert forall|g: int| rivals(ys, f).contains(g) <==> ahead(sae, x, b, f).contains(
                g,
            ) by {
                if 0 <= g < d_sae {
                    assert(number(ys[g]) == level(sae, x, b, g));
                    encodings_order_as_numbers(ys[g], ys[f]);
                    encodings_order_as_numbers(ys[f], ys[g]);
                }
            }
            assert(rivals(ys, f) =~= ahead(sae, x, b, f));
            assert(0 < ys[f] <= 0x7f80_0000 <==> positive(ys[f]));
            assert(active(z, b, f, ys[f]) <==> listed(pairs, f, ys[f]));
            assert forall|v: u32| #[trigger] active(z, b, f, v) implies v == ys[f] && active(
                z,
                b,
                f,
                ys[f],
            ) by {
                assert(listed(pairs, f, v));
            }
        },
        None => {
            thresholds_decide(unit, sae.sparsifier, sae.topk, xs, ys, pairs);
            assert(0 < xs[f] <= 0x7f80_0000 <==> positive(xs[f]));
            assert(active(z, b, f, xs[f]) <==> listed(pairs, f, xs[f]));
            assert forall|v: u32| #[trigger] active(z, b, f, v) implies v == xs[f] && active(
                z,
                b,
                f,
                xs[f],
            ) by {
                assert(listed(pairs, f, v));
            }
            if let Sparsifier::JumpReLU { thresholds } = sae.sparsifier {
                encodings_order_as_numbers(xs[f], thresholds@[f]);
            }
        },
    }
}

/// The parts of a TopK sparsifier.
spec fn sparsifier_parts(s: Sparsifier) -> Option<(u32, bool, Option<Vec<u32>>)> {
    match s {
        Sparsifier::TopK { k, post_relu, rescale } => Some((k, post_relu, rescale)),
        _ => None,
    }
}

} // verus!
