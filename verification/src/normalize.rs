//! Pre-encoder activation normalization.
//!
//! - `Off`: no-op.
//! - `ExpectedAverageOnlyIn`: subtract per-row mean (over `d_in`).
//! - `ConstantNormRescale`: rescale each row so its L2 norm equals
//!   `sqrt(d_in)`.
//! - `LayerNorm`: subtract the mean, divide by the standard deviation
//!   (`eps = 1e-5`).
//!
//! Sums run from left to right, from zero.

use vstd::prelude::*;

use crate::bits::{deterministic, gt, positive, total, yields, FloatOp, ONE, ZERO};
use crate::config::NormalizeMode;
use crate::index::{lemma_row, lemma_same_rows, row, store_row};
use crate::kernels::reduce::{lemma_sum_push, lemma_sum_unique, sum};

verus! {

/// The encoding of `1e-5`.
pub const LAYER_NORM_EPS: u32 = 0x3727_c5ac;

/// `m` is the mean of a row: its sum over its length.
pub open spec fn mean_of<F: Fn(FloatOp) -> u32>(unit: F, xs: Seq<u32>, m: u32) -> bool {
    averages(unit, xs, xs.len() as int, m)
}

/// `m` is the sum of `terms` over `n`.
pub open spec fn averages<F: Fn(FloatOp) -> u32>(unit: F, terms: Seq<u32>, n: int, m: u32) -> bool {
    exists|s: u32, c: u32|
        sum(unit, ZERO, terms, s) && #[trigger] yields(unit, FloatOp::FromCount(n as usize), c)
            && #[trigger] yields(unit, FloatOp::Div(s, c), m)
}

/// `q` is the square of `v`.
pub open spec fn squared<F: Fn(FloatOp) -> u32>(unit: F, v: u32, q: u32) -> bool {
    yields(unit, FloatOp::Mul(v, v), q)
}

/// `norm` is the L2 norm of a row.
pub open spec fn norm_of<F: Fn(FloatOp) -> u32>(unit: F, xs: Seq<u32>, norm: u32) -> bool {
    exists|squares: Seq<u32>, s: u32| #[trigger]
        squares_of(unit, xs, squares) && sum(unit, ZERO, squares, s) && #[trigger] yields(
            unit,
            FloatOp::Sqrt(s),
            norm,
        )
}

/// `squares` are the squares of a row.
pub open spec fn squares_of<F: Fn(FloatOp) -> u32>(unit: F, xs: Seq<u32>, squares: Seq<u32>) -> bool {
    &&& squares.len() == xs.len()
    &&& forall|j: int| 0 <= j < xs.len() ==> squared(unit, xs[j], #[trigger] squares[j])
}

/// `t` is the norm that a row of length `n` is rescaled to.
pub open spec fn target_of<F: Fn(FloatOp) -> u32>(unit: F, n: int, t: u32) -> bool {
    exists|c: u32| #[trigger]
        yields(unit, FloatOp::FromCount(n as usize), c) && yields(unit, FloatOp::Sqrt(c), t)
}

/// `d` is the squared deviation of `v` from the mean.
pub open spec fn squared_deviation<F: Fn(FloatOp) -> u32>(unit: F, v: u32, mean: u32, q: u32) -> bool {
    exists|d: u32| #[trigger] yields(unit, FloatOp::Sub(v, mean), d) && squared(unit, d, q)
}

/// `squares` are the squared deviations of a row from its mean.
pub open spec fn deviations_of<F: Fn(FloatOp) -> u32>(
    unit: F,
    xs: Seq<u32>,
    mean: u32,
    squares: Seq<u32>,
) -> bool {
    &&& squares.len() == xs.len()
    &&& forall|j: int|
        0 <= j < xs.len() ==> squared_deviation(unit, xs[j], mean, #[trigger] squares[j])
}

/// `var` is the variance of a row around its mean.
pub open spec fn variance_of<F: Fn(FloatOp) -> u32>(unit: F, xs: Seq<u32>, mean: u32, var: u32) -> bool {
    exists|squares: Seq<u32>| #[trigger]
        deviations_of(unit, xs, mean, squares) && averages(unit, squares, xs.len() as int, var)
}

/// `inv` is one over the standard deviation of a row.
pub open spec fn inverse_std_of<F: Fn(FloatOp) -> u32>(unit: F, xs: Seq<u32>, mean: u32, inv: u32) -> bool {
    exists|var: u32, e: u32, sd: u32|
        variance_of(unit, xs, mean, var) && #[trigger] yields(
            unit,
            FloatOp::Add(var, LAYER_NORM_EPS),
            e,
        ) && #[trigger] yields(unit, FloatOp::Sqrt(e), sd) && yields(
            unit,
            FloatOp::Div(ONE, sd),
            inv,
        )
}

/// `o` is `v` less the mean, scaled.
pub open spec fn standardized<F: Fn(FloatOp) -> u32>(unit: F, v: u32, mean: u32, inv: u32, o: u32) -> bool {
    exists|d: u32| #[trigger]
        yields(unit, FloatOp::Sub(v, mean), d) && yields(unit, FloatOp::Mul(d, inv), o)
}

/// `ys` is the row `xs` less its mean.
pub open spec fn centered<F: Fn(FloatOp) -> u32>(unit: F, xs: Seq<u32>, ys: Seq<u32>) -> bool {
    exists|mean: u32| #[trigger]
        mean_of(unit, xs, mean) && forall|j: int|
            0 <= j < xs.len() ==> yields(unit, FloatOp::Sub(xs[j], mean), #[trigger] ys[j])
}

/// `ys` is the row `xs` rescaled by `target / norm`.
pub open spec fn scaled_to<F: Fn(FloatOp) -> u32>(unit: F, xs: Seq<u32>, norm: u32, ys: Seq<u32>) -> bool {
    exists|t: u32, scale: u32| #[trigger]
        target_of(unit, xs.len() as int, t) && #[trigger] yields(unit, FloatOp::Div(t, norm), scale)
            && forall|j: int|
            0 <= j < xs.len() ==> yields(unit, FloatOp::Mul(xs[j], scale), #[trigger] ys[j])
}

/// `ys` is the row `xs` rescaled to the target norm. A row whose norm is not
/// positive stays as it is.
pub open spec fn rescaled<F: Fn(FloatOp) -> u32>(unit: F, xs: Seq<u32>, ys: Seq<u32>) -> bool {
    exists|norm: u32| #[trigger]
        norm_of(unit, xs, norm) && if positive(norm) {
            scaled_to(unit, xs, norm, ys)
        } else {
            ys == xs
        }
}

/// `ys` is the layer norm of the row `xs`.
pub open spec fn layer_normed<F: Fn(FloatOp) -> u32>(unit: F, xs: Seq<u32>, ys: Seq<u32>) -> bool {
    exists|mean: u32, inv: u32| #[trigger]
        mean_of(unit, xs, mean) && #[trigger] inverse_std_of(unit, xs, mean, inv) && forall|j: int|
            0 <= j < xs.len() ==> standardized(unit, xs[j], mean, inv, #[trigger] ys[j])
}

/// `ys` is the row `xs` after normalization.
pub open spec fn normalized<F: Fn(FloatOp) -> u32>(
    unit: F,
    mode: NormalizeMode,
    xs: Seq<u32>,
    ys: Seq<u32>,
) -> bool {
    &&& ys.len() == xs.len()
    &&& match mode {
        NormalizeMode::Off => ys == xs,
        NormalizeMode::ExpectedAverageOnlyIn => centered(unit, xs, ys),
        NormalizeMode::ConstantNormRescale => rescaled(unit, xs, ys),
        NormalizeMode::LayerNorm => layer_normed(unit, xs, ys),
    }
}

/// `y` is the batch `x` with every row normalized.
pub open spec fn normalizes<F: Fn(FloatOp) -> u32>(
    unit: F,
    mode: NormalizeMode,
    x: Seq<u32>,
    batch: int,
    d_in: int,
    y: Seq<u32>,
) -> bool {
    &&& y.len() == x.len()
    &&& forall|b: int|
        0 <= b < batch ==> normalized(unit, mode, row(x, d_in, b), #[trigger] row(y, d_in, b))
}

/// The sum of terms from zero, from left to right.
fn total_of<F: Fn(FloatOp) -> u32>(terms: &[u32], unit: &F) -> (s: u32)
    requires
        total(*unit),
    ensures
        sum(*unit, ZERO, terms@, s),
{
    let mut s: u32 = ZERO;
    let mut j: usize = 0;
    assert(sum(*unit, ZERO, terms@.take(0), s));
    while j < terms.len()
        invariant
            total(*unit),
            j <= terms@.len(),
            sum(*unit, ZERO, terms@.take(j as int), s),
        decreases terms@.len() - j,
    {
        let ghost prev = s;
        s = (*unit)(FloatOp::Add(s, terms[j]));
        proof {
            lemma_sum_push(*unit, ZERO, terms@.take(j as int), prev, terms@[j as int], s);
            assert(terms@.take(j + 1) =~= terms@.take(j as int).push(terms@[j as int]));
        }
        j += 1;
    }
    assert(terms@.take(j as int) =~= terms@);
    s
}

/// The sum of terms over a count.
fn average<F: Fn(FloatOp) -> u32>(terms: &[u32], n: usize, unit: &F) -> (m: u32)
    requires
        total(*unit),
    ensures
        averages(*unit, terms@, n as int, m),
{
    let s: u32 = total_of(terms, unit);
    let c: u32 = (*unit)(FloatOp::FromCount(n));
    let m: u32 = (*unit)(FloatOp::Div(s, c));
    assert(yields(*unit, FloatOp::FromCount((n as int) as usize), c));
    assert(yields(*unit, FloatOp::Div(s, c), m));
    m
}

/// Subtract the mean of a row.
fn center<F: Fn(FloatOp) -> u32>(xs: &[u32], unit: &F) -> (ys: Vec<u32>)
    requires
        total(*unit),
    ensures
        ys@.len() == xs@.len(),
        centered(*unit, xs@, ys@),
{
    let mean: u32 = average(xs, xs.len(), unit);
    let mut ys: Vec<u32> = Vec::new();
    let mut j: usize = 0;
    while j < xs.len()
        invariant
            total(*unit),
            j <= xs@.len(),
            ys@.len() == j,
            forall|i: int|
                0 <= i < j ==> yields(*unit, FloatOp::Sub(xs@[i], mean), #[trigger] ys@[i]),
        decreases xs@.len() - j,
    {
        let v: u32 = (*unit)(FloatOp::Sub(xs[j], mean));
        assert(yields(*unit, FloatOp::Sub(xs@[j as int], mean), v));
        ys.push(v);
        j += 1;
    }
    assert(mean_of(*unit, xs@, mean));
    ys
}

/// The L2 norm of a row.
pub fn l2_norm<F: Fn(FloatOp) -> u32>(xs: &[u32], unit: &F) -> (norm: u32)
    requires
        total(*unit),
    ensures
        norm_of(*unit, xs@, norm),
{
    let mut squares: Vec<u32> = Vec::new();
    let mut j: usize = 0;
    while j < xs.len()
        invariant
            total(*unit),
            j <= xs@.len(),
            squares@.len() == j,
            forall|i: int| 0 <= i < j ==> squared(*unit, xs@[i], #[trigger] squares@[i]),
        decreases xs@.len() - j,
    {
        let q: u32 = (*unit)(FloatOp::Mul(xs[j], xs[j]));
        assert(squared(*unit, xs@[j as int], q));
        squares.push(q);
        j += 1;
    }
    let s: u32 = total_of(squares.as_slice(), unit);
    let norm: u32 = (*unit)(FloatOp::Sqrt(s));
    assert(squares_of(*unit, xs@, squares@));
    assert(yields(*unit, FloatOp::Sqrt(s), norm));
    norm
}

/// Rescale a row to the target norm.
fn rescale<F: Fn(FloatOp) -> u32>(xs: &[u32], target: u32, unit: &F) -> (ys: Vec<u32>)
    requires
        total(*unit),
        target_of(*unit, xs@.len() as int, target),
    ensures
        ys@.len() == xs@.len(),
        rescaled(*unit, xs@, ys@),
{
    let norm: u32 = l2_norm(xs, unit);
    let mut ys: Vec<u32> = Vec::new();
    let mut j: usize = 0;
    if gt(norm, ZERO) {
        let scale: u32 = (*unit)(FloatOp::Div(target, norm));
        while j < xs.len()
            invariant
                total(*unit),
                j <= xs@.len(),
                ys@.len() == j,
                forall|i: int|
                    0 <= i < j ==> yields(*unit, FloatOp::Mul(xs@[i], scale), #[trigger] ys@[i]),
            decreases xs@.len() - j,
        {
            let v: u32 = (*unit)(FloatOp::Mul(xs[j], scale));
            assert(yields(*unit, FloatOp::Mul(xs@[j as int], scale), v));
            ys.push(v);
            j += 1;
        }
        assert(yields(*unit, FloatOp::Div(target, norm), scale));
        assert(scaled_to(*unit, xs@, norm, ys@));
    } else {
        while j < xs.len()
            invariant
                j <= xs@.len(),
                ys@ == xs@.take(j as int),
            decreases xs@.len() - j,
        {
            ys.push(xs[j]);
            j += 1;
            assert(ys@ =~= xs@.take(j as int));
        }
        assert(ys@ =~= xs@);
    }
    ys
}

/// One over the standard deviation of a row.
fn inverse_std<F: Fn(FloatOp) -> u32>(xs: &[u32], mean: u32, unit: &F) -> (inv: u32)
    requires
        total(*unit),
    ensures
        inverse_std_of(*unit, xs@, mean, inv),
{
    let mut squares: Vec<u32> = Vec::new();
    let mut j: usize = 0;
    while j < xs.len()
        invariant
            total(*unit),
            j <= xs@.len(),
            squares@.len() == j,
            forall|i: int|
                0 <= i < j ==> squared_deviation(*unit, xs@[i], mean, #[trigger] squares@[i]),
        decreases xs@.len() - j,
    {
        let d: u32 = (*unit)(FloatOp::Sub(xs[j], mean));
        let q: u32 = (*unit)(FloatOp::Mul(d, d));
        assert(yields(*unit, FloatOp::Sub(xs@[j as int], mean), d));
        assert(squared_deviation(*unit, xs@[j as int], mean, q));
        squares.push(q);
        j += 1;
    }
    let var: u32 = average(squares.as_slice(), xs.len(), unit);
    assert(deviations_of(*unit, xs@, mean, squares@));
    assert(variance_of(*unit, xs@, mean, var));
    let e: u32 = (*unit)(FloatOp::Add(var, LAYER_NORM_EPS));
    let sd: u32 = (*unit)(FloatOp::Sqrt(e));
    assert(yields(*unit, FloatOp::Add(var, LAYER_NORM_EPS), e));
    assert(yields(*unit, FloatOp::Sqrt(e), sd));
    (*unit)(FloatOp::Div(ONE, sd))
}

/// The layer norm of a row.
fn layer_norm<F: Fn(FloatOp) -> u32>(xs: &[u32], unit: &F) -> (ys: Vec<u32>)
    requires
        total(*unit),
    ensures
        ys@.len() == xs@.len(),
        layer_normed(*unit, xs@, ys@),
{
    let mean: u32 = average(xs, xs.len(), unit);
    let inv: u32 = inverse_std(xs, mean, unit);
    let mut ys: Vec<u32> = Vec::new();
    let mut j: usize = 0;
    while j < xs.len()
        invariant
            total(*unit),
            j <= xs@.len(),
            ys@.len() == j,
            forall|i: int|
                0 <= i < j ==> standardized(*unit, xs@[i], mean, inv, #[trigger] ys@[i]),
        decreases xs@.len() - j,
    {
        let d: u32 = (*unit)(FloatOp::Sub(xs[j], mean));
        let v: u32 = (*unit)(FloatOp::Mul(d, inv));
        assert(yields(*unit, FloatOp::Sub(xs@[j as int], mean), d));
        assert(standardized(*unit, xs@[j as int], mean, inv, v));
        ys.push(v);
        j += 1;
    }
    assert(mean_of(*unit, xs@, mean));
    ys
}

/// Apply the configured normalization to a `[batch * d_in]` activation tile in
/// place.
pub fn apply_in_place<F: Fn(FloatOp) -> u32>(
    mode: NormalizeMode,
    x: &mut [u32],
    batch: usize,
    d_in: usize,
    unit: &F,
)
    requires
        total(*unit),
        old(x)@.len() == batch * d_in,
    ensures
        normalizes(*unit, mode, old(x)@, batch as int, d_in as int, final(x)@),
        mode is Off ==> final(x)@ == old(x)@,
{
    let x_len: usize = x.len();
    let ghost before = x@;
    if matches!(mode, NormalizeMode::Off) {
        return;
    }
    let count: u32 = (*unit)(FloatOp::FromCount(d_in));
    let target: u32 = (*unit)(FloatOp::Sqrt(count));
    assert(yields(*unit, FloatOp::FromCount((d_in as int) as usize), count));
    assert(target_of(*unit, d_in as int, target));
    let mut b: usize = 0;
    while b < batch
        invariant
            total(*unit),
            mode !is Off,
            target_of(*unit, d_in as int, target),
            x@.len() == x_len == batch * d_in,
            before.len() == x_len,
            b <= batch,
            forall|c: int|
                0 <= c < b ==> normalized(
                    *unit,
                    mode,
                    row(before, d_in as int, c),
                    #[trigger] row(x@, d_in as int, c),
                ),
            forall|c: int|
                b <= c < batch ==> #[trigger] row(x@, d_in as int, c) == row(
                    before,
                    d_in as int,
                    c,
                ),
        decreases batch - b,
    {
        proof {
            lemma_row(batch as int, d_in as int, b as int);
            assert(row(x@, d_in as int, b as int) == row(before, d_in as int, b as int));
        }
        let xs: &[u32] = vstd::slice::slice_subrange(x, b * d_in, b * d_in + d_in);
        assert(xs@ == row(before, d_in as int, b as int));
        let ys: Vec<u32> = match mode {
            NormalizeMode::ConstantNormRescale => rescale(xs, target, unit),
            NormalizeMode::LayerNorm => layer_norm(xs, unit),
            _ => center(xs, unit),
        };
        store_row(x, batch, d_in, b, &ys);
        b += 1;
    }
}

/// Equal rows have equal averages on a deterministic unit.
proof fn lemma_averages_unique<F: Fn(FloatOp) -> u32>(unit: F, terms: Seq<u32>, n: int, a: u32, b: u32)
    requires
        deterministic(unit),
        averages(unit, terms, n, a),
        averages(unit, terms, n, b),
    ensures
        a == b,
{
    let (s, c) = choose|s: u32, c: u32|
        sum(unit, ZERO, terms, s) && #[trigger] yields(unit, FloatOp::FromCount(n as usize), c)
            && #[trigger] yields(unit, FloatOp::Div(s, c), a);
    let (t, e) = choose|s: u32, c: u32|
        sum(unit, ZERO, terms, s) && #[trigger] yields(unit, FloatOp::FromCount(n as usize), c)
            && #[trigger] yields(unit, FloatOp::Div(s, c), b);
    lemma_sum_unique(unit, ZERO, terms, s, t);
}

/// A row has one norm on a deterministic unit.
pub proof fn lemma_norm_unique<F: Fn(FloatOp) -> u32>(unit: F, xs: Seq<u32>, a: u32, b: u32)
    requires
        deterministic(unit),
        norm_of(unit, xs, a),
        norm_of(unit, xs, b),
    ensures
        a == b,
{
    let (p, s) = choose|squares: Seq<u32>, s: u32| #[trigger]
        squares_of(unit, xs, squares) && sum(unit, ZERO, squares, s) && #[trigger] yields(
            unit,
            FloatOp::Sqrt(s),
            a,
        );
    let (q, t) = choose|squares: Seq<u32>, s: u32| #[trigger]
        squares_of(unit, xs, squares) && sum(unit, ZERO, squares, s) && #[trigger] yields(
            unit,
            FloatOp::Sqrt(s),
            b,
        );
    assert forall|j: int| 0 <= j < xs.len() implies p[j] == q[j] by {
        assert(squared(unit, xs[j], p[j]));
        assert(squared(unit, xs[j], q[j]));
    }
    assert(p =~= q);
    lemma_sum_unique(unit, ZERO, p, s, t);
}

/// A row has one inverse standard deviation on a deterministic unit.
proof fn lemma_inverse_std_unique<F: Fn(FloatOp) -> u32>(
    unit: F,
    xs: Seq<u32>,
    mean: u32,
    a: u32,
    b: u32,
)
    requires
        deterministic(unit),
        inverse_std_of(unit, xs, mean, a),
        inverse_std_of(unit, xs, mean, b),
    ensures
        a == b,
{
    let (va, ea, sa) = choose|var: u32, e: u32, sd: u32|
        variance_of(unit, xs, mean, var) && #[trigger] yields(
            unit,
            FloatOp::Add(var, LAYER_NORM_EPS),
            e,
        ) && #[trigger] yields(unit, FloatOp::Sqrt(e), sd) && yields(unit, FloatOp::Div(ONE, sd), a);
    let (vb, eb, sb) = choose|var: u32, e: u32, sd: u32|
        variance_of(unit, xs, mean, var) && #[trigger] yields(
            unit,
            FloatOp::Add(var, LAYER_NORM_EPS),
            e,
        ) && #[trigger] yields(unit, FloatOp::Sqrt(e), sd) && yields(unit, FloatOp::Div(ONE, sd), b);
    let p = choose|squares: Seq<u32>| #[trigger]
        deviations_of(unit, xs, mean, squares) && averages(unit, squares, xs.len() as int, va);
    let q = choose|squares: Seq<u32>| #[trigger]
        deviations_of(unit, xs, mean, squares) && averages(unit, squares, xs.len() as int, vb);
    assert forall|j: int| 0 <= j < xs.len() implies p[j] == q[j] by {
        assert(squared_deviation(unit, xs[j], mean, p[j]));
        assert(squared_deviation(unit, xs[j], mean, q[j]));
        let d = choose|d: u32| #[trigger]
            yields(unit, FloatOp::Sub(xs[j], mean), d) && squared(unit, d, p[j]);
        let e = choose|d: u32| #[trigger]
            yields(unit, FloatOp::Sub(xs[j], mean), d) && squared(unit, d, q[j]);
        assert(d == e);
    }
    assert(p =~= q);
    lemma_averages_unique(unit, p, xs.len() as int, va, vb);
}

/// A row has one normalized form on a deterministic unit.
pub proof fn normalization_is_unique<F: Fn(FloatOp) -> u32>(
    unit: F,
    mode: NormalizeMode,
    xs: Seq<u32>,
    a: Seq<u32>,
    b: Seq<u32>,
)
    requires
        deterministic(unit),
        normalized(unit, mode, xs, a),
        normalized(unit, mode, xs, b),
    ensures
        a == b,
{
    match mode {
        NormalizeMode::Off => {},
        NormalizeMode::ExpectedAverageOnlyIn => {
            let ma = choose|mean: u32| #[trigger]
                mean_of(unit, xs, mean) && forall|j: int|
                    0 <= j < xs.len() ==> yields(unit, FloatOp::Sub(xs[j], mean), #[trigger] a[j]);
            let mb = choose|mean: u32| #[trigger]
                mean_of(unit, xs, mean) && forall|j: int|
                    0 <= j < xs.len() ==> yields(unit, FloatOp::Sub(xs[j], mean), #[trigger] b[j]);
            lemma_averages_unique(unit, xs, xs.len() as int, ma, mb);
            assert forall|j: int| 0 <= j < xs.len() implies a[j] == b[j] by {
                assert(yields(unit, FloatOp::Sub(xs[j], ma), a[j]));
                assert(yields(unit, FloatOp::Sub(xs[j], ma), b[j]));
            }
            assert(a =~= b);
        },
        NormalizeMode::ConstantNormRescale => {
            let na = choose|norm: u32| #[trigger]
                norm_of(unit, xs, norm) && if positive(norm) {
                    scaled_to(unit, xs, norm, a)
                } else {
                    a == xs
                };
            let nb = choose|norm: u32| #[trigger]
                norm_of(unit, xs, norm) && if positive(norm) {
                    scaled_to(unit, xs, norm, b)
                } else {
                    b == xs
                };
            lemma_norm_unique(unit, xs, na, nb);
            if positive(na) {
                let (ta, sa) = choose|t: u32, scale: u32| #[trigger]
                    target_of(unit, xs.len() as int, t) && #[trigger] yields(
                        unit,
                        FloatOp::Div(t, na),
                        scale,
                    ) && forall|j: int|
                        0 <= j < xs.len() ==> yields(
                            unit,
                            FloatOp::Mul(xs[j], scale),
                            #[trigger] a[j],
                        );
                let (tb, sb) = choose|t: u32, scale: u32| #[trigger]
                    target_of(unit, xs.len() as int, t) && #[trigger] yields(
                        unit,
                        FloatOp::Div(t, na),
                        scale,
                    ) && forall|j: int|
                        0 <= j < xs.len() ==> yields(
                            unit,
                            FloatOp::Mul(xs[j], scale),
                            #[trigger] b[j],
                        );
                assert(ta == tb);
                assert(sa == sb);
                assert forall|j: int| 0 <= j < xs.len() implies a[j] == b[j] by {
                    assert(yields(unit, FloatOp::Mul(xs[j], sa), a[j]));
                    assert(yields(unit, FloatOp::Mul(xs[j], sa), b[j]));
                }
                assert(a =~= b);
            }
        },
        NormalizeMode::LayerNorm => {
            let (ma, ia) = choose|mean: u32, inv: u32| #[trigger]
                mean_of(unit, xs, mean) && #[trigger] inverse_std_of(unit, xs, mean, inv)
                    && forall|j: int|
                    0 <= j < xs.len() ==> standardized(unit, xs[j], mean, inv, #[trigger] a[j]);
            let (mb, ib) = choose|mean: u32, inv: u32| #[trigger]
                mean_of(unit, xs, mean) && #[trigger] inverse_std_of(unit, xs, mean, inv)
                    && forall|j: int|
                    0 <= j < xs.len() ==> standardized(unit, xs[j], mean, inv, #[trigger] b[j]);
            lemma_averages_unique(unit, xs, xs.len() as int, ma, mb);
            lemma_inverse_std_unique(unit, xs, ma, ia, ib);
            assert forall|j: int| 0 <= j < xs.len() implies a[j] == b[j] by {
                assert(standardized(unit, xs[j], ma, ia, a[j]));
                assert(standardized(unit, xs[j], ma, ia, b[j]));
                let d = choose|d: u32| #[trigger]
                    yields(unit, FloatOp::Sub(xs[j], ma), d) && yields(
                        unit,
                        FloatOp::Mul(d, ia),
                        a[j],
                    );
                let e = choose|d: u32| #[trigger]
                    yields(unit, FloatOp::Sub(xs[j], ma), d) && yields(
                        unit,
                        FloatOp::Mul(d, ia),
                        b[j],
                    );
                assert(d == e);
            }
            assert(a =~= b);
        },
    }
}

/// Batched rows are independent: a row normalizes to the same bits whatever
/// batch it stands in, and wherever in the batch.
pub proof fn batched_rows_are_independent<F: Fn(FloatOp) -> u32>(
    unit: F,
    mode: NormalizeMode,
    d_in: int,
    x: Seq<u32>,
    batch_x: int,
    y: Seq<u32>,
    i: int,
    u: Seq<u32>,
    batch_u: int,
    v: Seq<u32>,
    j: int,
)
    requires
        deterministic(unit),
        normalizes(unit, mode, x, batch_x, d_in, y),
        normalizes(unit, mode, u, batch_u, d_in, v),
        0 <= i < batch_x,
        0 <= j < batch_u,
        row(x, d_in, i) == row(u, d_in, j),
    ensures
        row(y, d_in, i) == row(v, d_in, j),
{
    assert(normalized(unit, mode, row(x, d_in, i), row(y, d_in, i)));
    assert(normalized(unit, mode, row(u, d_in, j), row(v, d_in, j)));
    normalization_is_unique(unit, mode, row(x, d_in, i), row(y, d_in, i), row(v, d_in, j));
}

/// Rows normalize alone: a batch is normalized if and only if each of its rows is
/// normalized as a batch of one, on any unit. Without a normalization, nothing
/// changes.
pub proof fn rows_normalize_alone<F: Fn(FloatOp) -> u32>(
    unit: F,
    mode: NormalizeMode,
    d_in: int,
    x: Seq<u32>,
    batch: int,
    y: Seq<u32>,
)
    requires
        0 <= batch,
        0 <= d_in,
        x.len() == batch * d_in,
        y.len() == batch * d_in,
    ensures
        normalizes(unit, mode, x, batch, d_in, y) <==> forall|b: int|
            0 <= b < batch ==> normalizes(
                unit,
                mode,
                row(x, d_in, b),
                1,
                d_in,
                #[trigger] row(y, d_in, b),
            ),
        mode is Off ==> (normalizes(unit, mode, x, batch, d_in, y) <==> y == x),
{
    assert forall|b: int| 0 <= b < batch implies normalizes(
        unit,
        mode,
        row(x, d_in, b),
        1,
        d_in,
        #[trigger] row(y, d_in, b),
    ) == normalized(unit, mode, row(x, d_in, b), row(y, d_in, b)) by {
        lemma_row(batch, d_in, b);
        let xs = row(x, d_in, b);
        let ys = row(y, d_in, b);
        assert(0 * d_in == 0 && (0 + 1) * d_in == d_in) by (nonlinear_arith);
        assert(row(xs, d_in, 0) =~= xs);
        assert(row(ys, d_in, 0) =~= ys);
        if normalized(unit, mode, xs, ys) {
            assert forall|c: int| 0 <= c < 1 implies normalized(
                unit,
                mode,
                row(xs, d_in, c),
                #[trigger] row(ys, d_in, c),
            ) by {
                assert(c == 0);
            }
        }
    }
    if mode is Off && normalizes(unit, mode, x, batch, d_in, y) {
        assert forall|b: int| 0 <= b < batch implies #[trigger] row(y, d_in, b) == row(
            x,
            d_in,
            b,
        ) by {
            assert(normalized(unit, mode, row(x, d_in, b), row(y, d_in, b)));
        }
        lemma_same_rows(y, x, batch, d_in);
    }
}

} // verus!
