//! The operations of the kernels, one by one.
//!
//! The laws here lay every reduction out as the run of operations that it is,
//! over the cells of the buffers themselves.

use vstd::arithmetic::div_mod::*;
use vstd::arithmetic::mul::*;
use vstd::prelude::*;

use crate::bits::{positive, yields, FloatOp, ONE, ZERO};
use crate::config::NormalizeMode;
use crate::index::{at, lemma_cell, lemma_row, row};
use crate::kernels::decoder::{decoded, decodes, gathered};
use crate::kernels::encoder::{encoded, encodes};
use crate::kernels::reduce::{dot, step, strided, sum};
use crate::kernels::row_major::{folded, lane_parts, lane_sum, tree_sum};
use crate::kernels::Backend;
use crate::normalize::{
    averages, deviations_of, inverse_std_of, mean_of, norm_of, normalized, normalizes, scaled_to,
    squared, squared_deviation, squares_of, standardized, target_of, variance_of, LAYER_NORM_EPS,
};
use crate::sae::{shifted, DecoderWeights, EncoderWeights, Sae, SparseOut, WeightLayout};

verus! {

/// `accs` are the values of an accumulator that starts at `start` and takes `n`
/// products of a cell of `x` and a cell of `w`, one after the other. The cells of
/// `x` stand `x_stride` apart from `x_base` on, those of `w` likewise. A fused step
/// is one operation; otherwise the product (kept in `prods`) is rounded first, and
/// then added to the accumulator.
pub open spec fn accumulates<F: Fn(FloatOp) -> u32>(
    unit: F,
    fused: bool,
    start: u32,
    x: Seq<u32>,
    x_base: int,
    x_stride: int,
    w: Seq<u32>,
    w_base: int,
    w_stride: int,
    n: int,
    accs: Seq<u32>,
    prods: Seq<u32>,
) -> bool {
    &&& accs.len() == n + 1
    &&& accs[0] == start
    &&& forall|k: int|
        0 <= k < n ==> if fused {
            yields(
                unit,
                FloatOp::MulAdd(x[x_base + k * x_stride], w[w_base + k * w_stride], #[trigger] accs[k]),
                accs[k + 1],
            )
        } else {
            &&& yields(
                unit,
                FloatOp::Mul(x[x_base + k * x_stride], w[w_base + k * w_stride]),
                prods[k],
            )
            &&& yields(unit, FloatOp::Add(accs[k], prods[k]), accs[k + 1])
        }
}

/// `accs` are the values of a sum that starts at `start` and takes the `n` cells of
/// `x` from `base` on, one after the other.
pub open spec fn adds_up<F: Fn(FloatOp) -> u32>(
    unit: F,
    start: u32,
    x: Seq<u32>,
    base: int,
    n: int,
    accs: Seq<u32>,
) -> bool {
    &&& accs.len() == n + 1
    &&& accs[0] == start
    &&& forall|k: int|
        0 <= k < n ==> yields(unit, FloatOp::Add(#[trigger] accs[k], x[base + k]), accs[k + 1])
}

/// A sum is a run of additions.
pub proof fn lemma_sum_in_steps<F: Fn(FloatOp) -> u32>(unit: F, start: u32, xs: Seq<u32>, r: u32) -> (accs:
    Seq<u32>)
    requires
        sum(unit, start, xs, r),
    ensures
        adds_up(unit, start, xs, 0, xs.len() as int, accs),
        accs.last() == r,
    decreases xs.len(),
{
    if xs.len() == 0 {
        seq![start]
    } else {
        let rest = xs.drop_last();
        let mid = choose|mid: u32|
            sum(unit, start, rest, mid) && #[trigger] yields(unit, FloatOp::Add(mid, xs.last()), r);
        let before = lemma_sum_in_steps(unit, start, rest, mid);
        let accs = before.push(r);
        assert forall|k: int| 0 <= k < xs.len() implies yields(
            unit,
            FloatOp::Add(#[trigger] accs[k], xs[0 + k]),
            accs[k + 1],
        ) by {
            if k < rest.len() {
                assert(yields(unit, FloatOp::Add(before[k], rest[0 + k]), before[k + 1]));
            }
        }
        accs
    }
}

/// A reduction is a run of steps.
pub proof fn lemma_dot_in_steps<F: Fn(FloatOp) -> u32>(
    unit: F,
    fused: bool,
    start: u32,
    xs: Seq<u32>,
    ws: Seq<u32>,
    r: u32,
) -> (runs: (Seq<u32>, Seq<u32>))
    requires
        xs.len() == ws.len(),
        dot(unit, fused, start, xs, ws, r),
    ensures
        accumulates(unit, fused, start, xs, 0, 1, ws, 0, 1, xs.len() as int, runs.0, runs.1),
        runs.1.len() == xs.len(),
        runs.0.last() == r,
    decreases xs.len(),
{
    if xs.len() == 0 {
        (seq![start], Seq::empty())
    } else {
        let xl = xs.drop_last();
        let wl = ws.drop_last();
        let mid = choose|mid: u32|
            dot(unit, fused, start, xl, wl, mid) && #[trigger] step(
                unit,
                fused,
                mid,
                xs.last(),
                ws.last(),
                r,
            );
        let (accs, prods) = lemma_dot_in_steps(unit, fused, start, xl, wl, mid);
        let p = if fused {
            ZERO
        } else {
            choose|p: u32| #[trigger]
                yields(unit, FloatOp::Mul(xs.last(), ws.last()), p) && yields(
                    unit,
                    FloatOp::Add(mid, p),
                    r,
                )
        };
        let more = accs.push(r);
        let all = prods.push(p);
        let n = xs.len() as int;
        assert forall|k: int| 0 <= k < n implies if fused {
            yields(unit, FloatOp::MulAdd(xs[0 + k * 1], ws[0 + k * 1], #[trigger] more[k]), more[k + 1])
        } else {
            &&& yields(unit, FloatOp::Mul(xs[0 + k * 1], ws[0 + k * 1]), all[k])
            &&& yields(unit, FloatOp::Add(more[k], all[k]), more[k + 1])
        } by {
            if k < n - 1 {
                assert(accs[k] == more[k]);
                assert(xl[0 + k * 1] == xs[k] && wl[0 + k * 1] == ws[k]);
            }
        }
        (more, all)
    }
}

/// The cells of runs may stand in larger buffers.
proof fn lemma_steps_in<F: Fn(FloatOp) -> u32>(
    unit: F,
    fused: bool,
    start: u32,
    xs: Seq<u32>,
    ws: Seq<u32>,
    x: Seq<u32>,
    x_base: int,
    x_stride: int,
    w: Seq<u32>,
    w_base: int,
    w_stride: int,
    n: int,
    accs: Seq<u32>,
    prods: Seq<u32>,
)
    requires
        accumulates(unit, fused, start, xs, 0, 1, ws, 0, 1, n, accs, prods),
        forall|k: int| 0 <= k < n ==> #[trigger] xs[k] == x[x_base + k * x_stride],
        forall|k: int| 0 <= k < n ==> #[trigger] ws[k] == w[w_base + k * w_stride],
    ensures
        accumulates(
            unit,
            fused,
            start,
            x,
            x_base,
            x_stride,
            w,
            w_base,
            w_stride,
            n,
            accs,
            prods,
        ),
{
    assert forall|k: int| 0 <= k < n implies if fused {
        yields(
            unit,
            FloatOp::MulAdd(x[x_base + k * x_stride], w[w_base + k * w_stride], #[trigger] accs[k]),
            accs[k + 1],
        )
    } else {
        &&& yields(
            unit,
            FloatOp::Mul(x[x_base + k * x_stride], w[w_base + k * w_stride]),
            prods[k],
        )
        &&& yields(unit, FloatOp::Add(accs[k], prods[k]), accs[k + 1])
    } by {
        assert(xs[0 + k * 1] == xs[k] && ws[0 + k * 1] == ws[k]);
    }
}

/// Over packed weights, feature `f` of batch row `b` is computed in fused steps: it
/// lies in a full panel of `m_r` features, and in a full tile of 6 batch rows (AVX2,
/// NEON) or 12 (AVX-512).
pub open spec fn is_fused(backend: Backend, batch: int, d_sae: int, m_r: int, b: int, f: int) -> bool {
    f < (d_sae / m_r) * m_r && b < (match backend {
        Backend::Scalar => 0,
        Backend::Avx2 => (batch / 6) * 6,
        Backend::Avx512 => (batch / 12) * 12,
        Backend::Neon => (batch / 6) * 6,
    })
}

/// A pre-activation of the scalar kernels, or of a tiled one, starts at the bias and
/// takes the products of the inputs of its batch row with the weights of its
/// feature, input by input. Row-major weights stand side by side; packed ones stand
/// a panel's width apart, behind the panels of the features before. The steps are
/// fused in the full tiles of 6 batch rows (AVX2, NEON) or 12 (AVX-512) by one full
/// panel of features, and nowhere else.
pub proof fn outputs_accumulate_from_the_bias<F: Fn(FloatOp) -> u32>(
    unit: F,
    backend: Backend,
    enc: EncoderWeights,
    x: Seq<u32>,
    batch: int,
    pre: Seq<u32>,
    b: int,
    f: int,
)
    requires
        encodes(unit, backend, enc, x, batch, pre),
        x.len() == batch * enc.d_in,
        0 <= b < batch,
        0 <= f < enc.d_sae,
        enc.layout matches WeightLayout::PackedPanels { m_r } ==> m_r > 0,
    ensures
        enc.layout is RowMajor && backend is Scalar ==> exists|accs: Seq<u32>, prods: Seq<u32>|
            #[trigger] accumulates(
                unit,
                false,
                enc.b_enc@[f],
                x,
                b * enc.d_in,
                1,
                enc.w_enc@,
                f * enc.d_in,
                1,
                enc.d_in as int,
                accs,
                prods,
            ) && accs.last() == pre[b * enc.d_sae + f],
        enc.layout matches WeightLayout::PackedPanels { m_r } ==> exists|
            accs: Seq<u32>,
            prods: Seq<u32>,
        | #[trigger]
            accumulates(
                unit,
                is_fused(backend, batch, enc.d_sae as int, m_r as int, b, f),
                enc.b_enc@[f],
                x,
                b * enc.d_in,
                1,
                enc.w_enc@,
                (f / m_r as int) * (m_r * enc.d_in) + f % (m_r as int),
                m_r as int,
                enc.d_in as int,
                accs,
                prods,
            ) && accs.last() == pre[b * enc.d_sae + f],
{
    let d_in = enc.d_in as int;
    let d_sae = enc.d_sae as int;
    let r = at(pre, d_sae, b, f);
    assert(encoded(unit, backend, enc, x, batch, b, f, r));
    lemma_row(batch, d_in, b);
    let xs = row(x, d_in, b);
    let ws = enc.direction(f);
    assert(xs.len() == d_in && ws.len() == d_in);
    match enc.layout {
        WeightLayout::RowMajor => {
            if backend is Scalar {
                let (accs, prods) = lemma_dot_in_steps(unit, false, enc.b_enc@[f], xs, ws, r);
                lemma_steps_in(
                    unit,
                    false,
                    enc.b_enc@[f],
                    xs,
                    ws,
                    x,
                    b * d_in,
                    1,
                    enc.w_enc@,
                    f * d_in,
                    1,
                    d_in,
                    accs,
                    prods,
                );
            }
        },
        WeightLayout::PackedPanels { m_r } => {
            let fused = is_fused(backend, batch, d_sae, m_r as int, b, f);
            let (accs, prods) = lemma_dot_in_steps(unit, fused, enc.b_enc@[f], xs, ws, r);
            lemma_steps_in(
                unit,
                fused,
                enc.b_enc@[f],
                xs,
                ws,
                x,
                b * d_in,
                1,
                enc.w_enc@,
                (f / m_r as int) * (m_r * d_in) + f % (m_r as int),
                m_r as int,
                d_in,
                accs,
                prods,
            );
        },
    }
}

/// The number of vector lanes that row-major weights are read in.
pub open spec fn width(backend: Backend) -> int {
    match backend {
        Backend::Scalar => 1,
        Backend::Avx2 => 8,
        Backend::Avx512 => 16,
        Backend::Neon => 4,
    }
}

/// `s` is what the lanes `v` come to. AVX2 adds them from left to right, NEON as
/// `(v0 + v1) + (v2 + v3)`, and AVX-512 the upper half to the lower, four times.
pub open spec fn reduces<F: Fn(FloatOp) -> u32>(
    unit: F,
    backend: Backend,
    v: Seq<u32>,
    halves: Seq<Seq<u32>>,
    s: u32,
) -> bool {
    match backend {
        Backend::Scalar => false,
        Backend::Avx2 => adds_up(unit, v[0], v, 1, 7, halves[0]) && halves[0].last() == s,
        Backend::Avx512 => {
            &&& forall|i: int| 0 <= i < 8 ==> yields(unit, FloatOp::Add(v[i], v[i + 8]), #[trigger] halves[0][i])
            &&& forall|i: int|
                0 <= i < 4 ==> yields(
                    unit,
                    FloatOp::Add(halves[0][i], halves[0][i + 4]),
                    #[trigger] halves[1][i],
                )
            &&& forall|i: int|
                0 <= i < 2 ==> yields(
                    unit,
                    FloatOp::Add(halves[1][i], halves[1][i + 2]),
                    #[trigger] halves[2][i],
                )
            &&& yields(unit, FloatOp::Add(halves[2][0], halves[2][1]), s)
        },
        Backend::Neon => {
            &&& yields(unit, FloatOp::Add(v[0], v[1]), halves[0][0])
            &&& yields(unit, FloatOp::Add(v[2], v[3]), halves[0][1])
            &&& yields(unit, FloatOp::Add(halves[0][0], halves[0][1]), s)
        },
    }
}

/// A sum of pairs, laid out: one fold, then the sum of what it leaves.
proof fn lemma_fold<F: Fn(FloatOp) -> u32>(unit: F, neighbours: bool, acc: Seq<u32>, s: u32) -> (next: Seq<
    u32,
>)
    requires
        acc.len() > 1,
        tree_sum(unit, neighbours, acc, s),
    ensures
        next.len() == acc.len() / 2,
        forall|i: int|
            0 <= i < next.len() ==> yields(
                unit,
                if neighbours {
                    FloatOp::Add(acc[2 * i], acc[2 * i + 1])
                } else {
                    FloatOp::Add(acc[i], acc[i + next.len()])
                },
                #[trigger] next[i],
            ),
        tree_sum(unit, neighbours, next, s),
{
    choose|next: Seq<u32>|
        next.len() < acc.len() && #[trigger] folded(unit, neighbours, acc, next) && tree_sum(
            unit,
            neighbours,
            next,
            s,
        )
}

/// The parts of a pre-activation that a vector backend computes over row-major
/// weights. Lane `l` takes, in fused steps from zero, the products `l`, `l + width`,
/// `l + 2 * width` and so on as far as whole vectors reach; the lanes are added up;
/// the products past the last whole vector follow one by one, unfused; and the bias
/// is added last.
pub open spec fn by_lanes<F: Fn(FloatOp) -> u32>(
    unit: F,
    backend: Backend,
    enc: EncoderWeights,
    x: Seq<u32>,
    b: int,
    f: int,
    lanes: Seq<Seq<u32>>,
    halves: Seq<Seq<u32>>,
    s: u32,
    tail: Seq<u32>,
    prods: Seq<u32>,
    r: u32,
) -> bool {
    let d_in = enc.d_in as int;
    let whole = d_in / width(backend);
    &&& lanes.len() == width(backend)
    &&& forall|l: int|
        0 <= l < width(backend) ==> accumulates(
            unit,
            true,
            ZERO,
            x,
            b * d_in + l,
            width(backend),
            enc.w_enc@,
            f * d_in + l,
            width(backend),
            whole,
            #[trigger] lanes[l],
            Seq::empty(),
        )
    &&& reduces(
        unit,
        backend,
        Seq::new(width(backend) as nat, |l: int| lanes[l].last()),
        halves,
        s,
    )
    &&& accumulates(
        unit,
        false,
        s,
        x,
        b * d_in + whole * width(backend),
        1,
        enc.w_enc@,
        f * d_in + whole * width(backend),
        1,
        d_in - whole * width(backend),
        tail,
        prods,
    )
    &&& yields(unit, FloatOp::Add(tail.last(), enc.b_enc@[f]), r)
}

/// The sum of the lanes, laid out.
proof fn lemma_halves<F: Fn(FloatOp) -> u32>(unit: F, backend: Backend, acc: Seq<u32>, s: u32) -> (halves:
    Seq<Seq<u32>>)
    requires
        backend !is Scalar,
        acc.len() == width(backend),
        lane_sum(unit, backend, acc, s),
    ensures
        reduces(unit, backend, acc, halves, s),
{
    match backend {
        Backend::Avx512 => {
            let h0 = lemma_fold(unit, false, acc, s);
            let h1 = lemma_fold(unit, false, h0, s);
            let h2 = lemma_fold(unit, false, h1, s);
            let h3 = lemma_fold(unit, false, h2, s);
            assert(h3[0] == s);
            assert(yields(unit, FloatOp::Add(h2[0], h2[1]), h3[0]));
            seq![h0, h1, h2]
        },
        Backend::Neon => {
            let h0 = lemma_fold(unit, true, acc, s);
            let h1 = lemma_fold(unit, true, h0, s);
            assert(h1[0] == s);
            assert(yields(unit, FloatOp::Add(acc[0], acc[1]), h0[0]));
            assert(yields(unit, FloatOp::Add(acc[2], acc[3]), h0[1]));
            assert(yields(unit, FloatOp::Add(h0[0], h0[1]), h1[0]));
            seq![h0]
        },
        _ => {
            let accs = lemma_sum_in_steps(unit, acc[0], acc.skip(1), s);
            assert forall|k: int| 0 <= k < 7 implies yields(
                unit,
                FloatOp::Add(#[trigger] accs[k], acc[1 + k]),
                accs[k + 1],
            ) by {
                assert(acc.skip(1)[0 + k] == acc[1 + k]);
            }
            seq![accs]
        },
    }
}

/// A pre-activation of a vector backend over row-major weights is computed lane by
/// lane.
pub proof fn vectors_accumulate_by_lanes<F: Fn(FloatOp) -> u32>(
    unit: F,
    backend: Backend,
    enc: EncoderWeights,
    x: Seq<u32>,
    batch: int,
    pre: Seq<u32>,
    b: int,
    f: int,
)
    requires
        encodes(unit, backend, enc, x, batch, pre),
        enc.layout is RowMajor,
        backend !is Scalar,
        x.len() == batch * enc.d_in,
        0 <= b < batch,
        0 <= f < enc.d_sae,
    ensures
        exists|
            lanes: Seq<Seq<u32>>,
            halves: Seq<Seq<u32>>,
            s: u32,
            tail: Seq<u32>,
            prods: Seq<u32>,
        | #[trigger]
            by_lanes(
                unit,
                backend,
                enc,
                x,
                b,
                f,
                lanes,
                halves,
                s,
                tail,
                prods,
                pre[b * enc.d_sae + f],
            ),
{
    let d_in = enc.d_in as int;
    let n = width(backend);
    let r = at(pre, enc.d_sae as int, b, f);
    assert(encoded(unit, backend, enc, x, batch, b, f, r));
    lemma_row(batch, d_in, b);
    let xs = row(x, d_in, b);
    let ws = enc.direction(f);
    let (acc, s, t) = choose|acc: Seq<u32>, s: u32, t: u32| #[trigger]
        lane_parts(unit, backend, xs, ws, acc, s, t) && yields(
            unit,
            FloatOp::Add(t, enc.b_enc@[f]),
            r,
        );
    let whole = d_in / n;
    lemma_fundamental_div_mod(d_in, n);
    lemma_mul_is_commutative(n, whole);
    let lanes = Seq::new(n as nat, |l: int| lane_run(unit, backend, enc, xs, ws, x, b, f, acc[l], l));
    assert forall|l: int| 0 <= l < n implies accumulates(
        unit,
        true,
        ZERO,
        x,
        b * d_in + l,
        n,
        enc.w_enc@,
        f * d_in + l,
        n,
        whole,
        #[trigger] lanes[l],
        Seq::empty(),
    ) && lanes[l].last() == acc[l] by {
        lemma_lane_run(unit, backend, enc, xs, ws, x, b, f, acc[l], l);
    }
    let v = Seq::new(n as nat, |l: int| lanes[l].last());
    assert(v =~= acc);
    let halves = lemma_halves(unit, backend, acc, s);
    assert(reduces(unit, backend, v, halves, s));
    let (tail, prods) = lemma_tail(unit, enc, x, b, f, whole * n, s, t);
    assert(by_lanes(unit, backend, enc, x, b, f, lanes, halves, s, tail, prods, r));
}

/// The products past the last whole vector, laid out.
proof fn lemma_tail<F: Fn(FloatOp) -> u32>(
    unit: F,
    enc: EncoderWeights,
    x: Seq<u32>,
    b: int,
    f: int,
    from: int,
    s: u32,
    t: u32,
) -> (runs: (Seq<u32>, Seq<u32>))
    requires
        enc.layout is RowMajor,
        0 <= b * enc.d_in,
        (b + 1) * enc.d_in == b * enc.d_in + enc.d_in,
        (b + 1) * enc.d_in <= x.len(),
        0 <= from <= enc.d_in,
        dot(
            unit,
            false,
            s,
            row(x, enc.d_in as int, b).skip(from),
            enc.direction(f).skip(from),
            t,
        ),
    ensures
        accumulates(
            unit,
            false,
            s,
            x,
            b * enc.d_in + from,
            1,
            enc.w_enc@,
            f * enc.d_in + from,
            1,
            enc.d_in - from,
            runs.0,
            runs.1,
        ),
        runs.0.last() == t,
{
    let d_in = enc.d_in as int;
    let xt = row(x, d_in, b).skip(from);
    let wt = enc.direction(f).skip(from);
    let (tail, prods) = lemma_dot_in_steps(unit, false, s, xt, wt, t);
    assert forall|k: int| 0 <= k < d_in - from implies #[trigger] xt[k] == x[b * d_in + from + k * 1]
        && wt[k] == enc.w_enc@[f * d_in + from + k * 1] by {
        assert(enc.direction(f)[from + k] == enc.w_enc@[f * d_in + (from + k)]);
    }
    lemma_steps_in(
        unit,
        false,
        s,
        xt,
        wt,
        x,
        b * d_in + from,
        1,
        enc.w_enc@,
        f * d_in + from,
        1,
        d_in - from,
        tail,
        prods,
    );
    (tail, prods)
}

/// The run of one lane.
spec fn lane_run<F: Fn(FloatOp) -> u32>(
    unit: F,
    backend: Backend,
    enc: EncoderWeights,
    xs: Seq<u32>,
    ws: Seq<u32>,
    x: Seq<u32>,
    b: int,
    f: int,
    r: u32,
    l: int,
) -> Seq<u32> {
    choose|accs: Seq<u32>| #[trigger]
        accumulates(
            unit,
            true,
            ZERO,
            x,
            b * enc.d_in + l,
            width(backend),
            enc.w_enc@,
            f * enc.d_in + l,
            width(backend),
            enc.d_in as int / width(backend),
            accs,
            Seq::empty(),
        ) && accs.last() == r
}

/// There is a run of each lane.
proof fn lemma_lane_run<F: Fn(FloatOp) -> u32>(
    unit: F,
    backend: Backend,
    enc: EncoderWeights,
    xs: Seq<u32>,
    ws: Seq<u32>,
    x: Seq<u32>,
    b: int,
    f: int,
    r: u32,
    l: int,
)
    requires
        enc.layout is RowMajor,
        0 <= l < width(backend),
        0 <= b,
        xs == row(x, enc.d_in as int, b),
        ws == enc.direction(f),
        (b + 1) * enc.d_in <= x.len(),
        0 <= b * enc.d_in,
        (b + 1) * enc.d_in == b * enc.d_in + enc.d_in,
        dot(
            unit,
            true,
            ZERO,
            strided(xs, l, width(backend), enc.d_in as int / width(backend)),
            strided(ws, l, width(backend), enc.d_in as int / width(backend)),
            r,
        ),
    ensures
        accumulates(
            unit,
            true,
            ZERO,
            x,
            b * enc.d_in + l,
            width(backend),
            enc.w_enc@,
            f * enc.d_in + l,
            width(backend),
            enc.d_in as int / width(backend),
            lane_run(unit, backend, enc, xs, ws, x, b, f, r, l),
            Seq::empty(),
        ),
        lane_run(unit, backend, enc, xs, ws, x, b, f, r, l).last() == r,
{
    let n = width(backend);
    let d_in = enc.d_in as int;
    let whole = d_in / n;
    let lx = strided(xs, l, n, whole);
    let lw = strided(ws, l, n, whole);
    let (accs, prods) = lemma_dot_in_steps(unit, true, ZERO, lx, lw, r);
    lemma_fundamental_div_mod(d_in, n);
    lemma_mul_is_commutative(n, whole);
    assert forall|k: int| 0 <= k < whole implies #[trigger] lx[k] == x[b * d_in + l + k * n] && lw[k]
        == enc.w_enc@[f * d_in + l + k * n] by {
        lemma_cell(whole, n, k, l);
        assert(xs[l + k * n] == x[b * d_in + (l + k * n)]);
        assert(ws[l + k * n] == enc.w_enc@[f * d_in + (l + k * n)]);
    }
    lemma_steps_in(
        unit,
        true,
        ZERO,
        lx,
        lw,
        x,
        b * d_in + l,
        n,
        enc.w_enc@,
        f * d_in + l,
        n,
        whole,
        accs,
        Seq::empty(),
    );
}

/// `accs` are the values of output `j` of a decoded row, whose pairs stand at
/// `from..to`: it starts at the bias, and each pair in turn adds its value times the
/// cell of its feature's row (of `[d_sae, d_in]` weights) for that output.
pub open spec fn decodes_in_steps<F: Fn(FloatOp) -> u32>(
    unit: F,
    dec: DecoderWeights,
    z: SparseOut,
    from: int,
    to: int,
    j: int,
    accs: Seq<u32>,
    prods: Seq<u32>,
) -> bool {
    &&& accs.len() == to - from + 1
    &&& accs[0] == dec.b_dec@[j]
    &&& forall|t: int|
        0 <= t < to - from ==> {
            &&& yields(
                unit,
                FloatOp::Mul(
                    z.values@[from + t],
                    dec.w_dec@[z.indices@[from + t] * dec.d_in + j],
                ),
                #[trigger] prods[t],
            )
            &&& yields(unit, FloatOp::Add(accs[t], prods[t]), accs[t + 1])
        }
}

/// A decoded output is the bias and then, pair by pair, each value times the cell
/// of its feature's row.
pub proof fn outputs_add_feature_rows<F: Fn(FloatOp) -> u32>(
    unit: F,
    dec: DecoderWeights,
    z: SparseOut,
    out: Seq<u32>,
    b: int,
    j: int,
)
    requires
        decodes(unit, dec, z, out),
        0 <= b < z.row_offsets@.len() - 1,
        0 <= j < dec.d_in,
        z.row_offsets@[b] <= z.row_offsets@[b + 1] <= z.indices@.len(),
        z.row_offsets@[b + 1] <= z.values@.len(),
    ensures
        out.len() == (z.row_offsets@.len() - 1) * dec.d_in,
        exists|accs: Seq<u32>, prods: Seq<u32>| #[trigger]
            decodes_in_steps(
                unit,
                dec,
                z,
                z.row_offsets@[b] as int,
                z.row_offsets@[b + 1] as int,
                j,
                accs,
                prods,
            ) && accs.last() == out[b * dec.d_in + j],
{
    let s = z.row_offsets@[b] as int;
    let e = z.row_offsets@[b + 1] as int;
    let vs = z.activations(b);
    let ws = gathered(dec, z.features(b), j);
    let r = at(out, dec.d_in as int, b, j);
    assert(decoded(unit, dec, z.features(b), vs, j, r));
    let (accs, prods) = lemma_dot_in_steps(unit, false, dec.b_dec@[j], vs, ws, r);
    assert forall|t: int| 0 <= t < e - s implies {
        &&& yields(
            unit,
            FloatOp::Mul(z.values@[s + t], dec.w_dec@[z.indices@[s + t] * dec.d_in + j]),
            #[trigger] prods[t],
        )
        &&& yields(unit, FloatOp::Add(accs[t], prods[t]), accs[t + 1])
    } by {
        assert(vs[0 + t * 1] == z.values@[s + t]);
        assert(ws[0 + t * 1] == dec.w_dec@[z.indices@[s + t] * dec.d_in + j]);
    }
    assert(decodes_in_steps(unit, dec, z, s, e, j, accs, prods));
}

/// `mean` is the mean of the `n` cells of `x` from `base` on: their sum from zero,
/// each with its sign, from left to right, over their number.
pub open spec fn means<F: Fn(FloatOp) -> u32>(
    unit: F,
    x: Seq<u32>,
    base: int,
    n: usize,
    sums: Seq<u32>,
    count: u32,
    mean: u32,
) -> bool {
    &&& adds_up(unit, 0, x, base, n as int, sums)
    &&& yields(unit, FloatOp::FromCount(n), count)
    &&& yields(unit, FloatOp::Div(sums.last(), count), mean)
}

/// Centering a row: every cell less the mean.
pub open spec fn centers<F: Fn(FloatOp) -> u32>(
    unit: F,
    x: Seq<u32>,
    base: int,
    n: usize,
    y: Seq<u32>,
    sums: Seq<u32>,
    count: u32,
    mean: u32,
) -> bool {
    &&& means(unit, x, base, n, sums, count, mean)
    &&& forall|j: int|
        0 <= j < n ==> yields(unit, FloatOp::Sub(x[base + j], mean), y[#[trigger] (base + j)])
}

/// Rescaling a row: the root of the sum of the squares is its norm, and every cell
/// is scaled by the root of the number of cells over the norm. A row whose norm is
/// not positive stays.
pub open spec fn rescales<F: Fn(FloatOp) -> u32>(
    unit: F,
    x: Seq<u32>,
    base: int,
    n: usize,
    y: Seq<u32>,
    squares: Seq<u32>,
    sums: Seq<u32>,
    norm: u32,
    count: u32,
    target: u32,
    scale: u32,
) -> bool {
    &&& squares.len() == n
    &&& forall|j: int|
        0 <= j < n ==> yields(unit, FloatOp::Mul(x[base + j], x[base + j]), #[trigger] squares[j])
    &&& adds_up(unit, 0, squares, 0, n as int, sums)
    &&& yields(unit, FloatOp::Sqrt(sums.last()), norm)
    &&& if 0 < norm <= 0x7f80_0000 {
        &&& yields(unit, FloatOp::FromCount(n), count)
        &&& yields(unit, FloatOp::Sqrt(count), target)
        &&& yields(unit, FloatOp::Div(target, norm), scale)
        &&& forall|j: int|
            0 <= j < n ==> yields(unit, FloatOp::Mul(x[base + j], scale), y[#[trigger] (base + j)])
    } else {
        forall|j: int| 0 <= j < n ==> y[#[trigger] (base + j)] == x[base + j]
    }
}

/// The layer norm of a row: every cell less the mean, over the root of the variance
/// plus `1e-5` (that is, times one over it). The variance is the mean of the squared
/// deviations.
pub open spec fn standardizes<F: Fn(FloatOp) -> u32>(
    unit: F,
    x: Seq<u32>,
    base: int,
    n: usize,
    y: Seq<u32>,
    sums: Seq<u32>,
    count: u32,
    mean: u32,
    devs: Seq<u32>,
    squares: Seq<u32>,
    square_sums: Seq<u32>,
    other_count: u32,
    variance: u32,
    moved: u32,
    deviation: u32,
    inverse: u32,
    parts: Seq<u32>,
) -> bool {
    &&& means(unit, x, base, n, sums, count, mean)
    &&& squares.len() == n
    &&& forall|j: int|
        0 <= j < n ==> yields(unit, FloatOp::Sub(x[base + j], mean), #[trigger] devs[j])
    &&& forall|j: int|
        0 <= j < n ==> yields(unit, FloatOp::Mul(devs[j], devs[j]), #[trigger] squares[j])
    &&& means(unit, squares, 0, n, square_sums, other_count, variance)
    &&& yields(unit, FloatOp::Add(variance, 0x3727_c5ac), moved)
    &&& yields(unit, FloatOp::Sqrt(moved), deviation)
    &&& yields(unit, FloatOp::Div(0x3f80_0000, deviation), inverse)
    &&& forall|j: int|
        0 <= j < n ==> yields(unit, FloatOp::Sub(x[base + j], mean), #[trigger] parts[j])
    &&& forall|j: int|
        0 <= j < n ==> yields(
            unit,
            FloatOp::Mul(parts[j], inverse),
            y[#[trigger] (base + j)],
        )
}

/// The sum of a row is the sum of its cells in the batch.
proof fn lemma_row_sum<F: Fn(FloatOp) -> u32>(
    unit: F,
    x: Seq<u32>,
    base: int,
    n: int,
    xs: Seq<u32>,
    accs: Seq<u32>,
)
    requires
        0 <= base,
        base + n <= x.len(),
        xs == x.subrange(base, base + n),
        adds_up(unit, ZERO, xs, 0, n, accs),
    ensures
        adds_up(unit, 0, x, base, n, accs),
{
    assert forall|k: int| 0 <= k < n implies yields(
        unit,
        FloatOp::Add(#[trigger] accs[k], x[base + k]),
        accs[k + 1],
    ) by {
        assert(xs[0 + k] == x[base + k]);
    }
}

/// The mean of a row, laid out.
proof fn lemma_mean_in_steps<F: Fn(FloatOp) -> u32>(
    unit: F,
    x: Seq<u32>,
    base: int,
    n: usize,
    xs: Seq<u32>,
    mean: u32,
) -> (parts: (Seq<u32>, u32))
    requires
        0 <= base,
        base + n <= x.len(),
        xs == x.subrange(base, base + n),
        averages(unit, xs, n as int, mean),
    ensures
        means(unit, x, base, n, parts.0, parts.1, mean),
{
    let (s, c) = choose|s: u32, c: u32|
        sum(unit, ZERO, xs, s) && #[trigger] yields(unit, FloatOp::FromCount(n as int as usize), c)
            && #[trigger] yields(unit, FloatOp::Div(s, c), mean);
    let accs = lemma_sum_in_steps(unit, ZERO, xs, s);
    lemma_row_sum(unit, x, base, n as int, xs, accs);
    (accs, c)
}

/// A centered batch: every cell of a row less the mean of the row.
pub proof fn centering_subtracts_the_mean<F: Fn(FloatOp) -> u32>(
    unit: F,
    x: Seq<u32>,
    batch: int,
    d_in: usize,
    y: Seq<u32>,
    b: int,
)
    requires
        normalizes(unit, NormalizeMode::ExpectedAverageOnlyIn, x, batch, d_in as int, y),
        x.len() == batch * d_in,
        0 <= b < batch,
    ensures
        exists|sums: Seq<u32>, count: u32, mean: u32| #[trigger]
            centers(unit, x, b * d_in, d_in, y, sums, count, mean),
{
    let base = b * d_in;
    lemma_row(batch, d_in as int, b);
    let xs = row(x, d_in as int, b);
    let ys = row(y, d_in as int, b);
    assert(normalized(unit, NormalizeMode::ExpectedAverageOnlyIn, xs, ys));
    let mean = choose|mean: u32| #[trigger]
        mean_of(unit, xs, mean) && forall|j: int|
            0 <= j < xs.len() ==> yields(unit, FloatOp::Sub(xs[j], mean), #[trigger] ys[j]);
    let (sums, count) = lemma_mean_in_steps(unit, x, base, d_in, xs, mean);
    assert forall|j: int| 0 <= j < d_in implies yields(
        unit,
        FloatOp::Sub(x[base + j], mean),
        y[#[trigger] (base + j)],
    ) by {
        assert(ys[j] == y[base + j]);
    }
    assert(centers(unit, x, base, d_in, y, sums, count, mean));
}

/// A rescaled batch: every cell of a row times the root of the number of cells over
/// the norm of the row.
pub proof fn rescaling_divides_by_the_norm<F: Fn(FloatOp) -> u32>(
    unit: F,
    x: Seq<u32>,
    batch: int,
    d_in: usize,
    y: Seq<u32>,
    b: int,
)
    requires
        normalizes(unit, NormalizeMode::ConstantNormRescale, x, batch, d_in as int, y),
        x.len() == batch * d_in,
        0 <= b < batch,
    ensures
        exists|
            squares: Seq<u32>,
            sums: Seq<u32>,
            norm: u32,
            count: u32,
            target: u32,
            scale: u32,
        | #[trigger]
            rescales(unit, x, b * d_in, d_in, y, squares, sums, norm, count, target, scale),
{
    let base = b * d_in;
    lemma_row(batch, d_in as int, b);
    let xs = row(x, d_in as int, b);
    let ys = row(y, d_in as int, b);
    assert(normalized(unit, NormalizeMode::ConstantNormRescale, xs, ys));
    let norm = choose|norm: u32| #[trigger]
        norm_of(unit, xs, norm) && if positive(norm) {
            scaled_to(unit, xs, norm, ys)
        } else {
            ys == xs
        };
    let (squares, s) = choose|squares: Seq<u32>, s: u32| #[trigger]
        squares_of(unit, xs, squares) && sum(unit, ZERO, squares, s) && #[trigger] yields(
            unit,
            FloatOp::Sqrt(s),
            norm,
        );
    let sums = lemma_sum_in_steps(unit, ZERO, squares, s);
    assert forall|j: int| 0 <= j < d_in implies yields(
        unit,
        FloatOp::Mul(x[base + j], x[base + j]),
        #[trigger] squares[j],
    ) by {
        assert(squared(unit, xs[j], squares[j]));
    }
    assert(positive(norm) <==> 0 < norm <= 0x7f80_0000);
    if positive(norm) {
        let (t, scale) = choose|t: u32, scale: u32| #[trigger]
            target_of(unit, xs.len() as int, t) && #[trigger] yields(
                unit,
                FloatOp::Div(t, norm),
                scale,
            ) && forall|j: int|
                0 <= j < xs.len() ==> yields(unit, FloatOp::Mul(xs[j], scale), #[trigger] ys[j]);
        let c = choose|c: u32| #[trigger]
            yields(unit, FloatOp::FromCount(xs.len() as int as usize), c) && yields(
                unit,
                FloatOp::Sqrt(c),
                t,
            );
        assert forall|j: int| 0 <= j < d_in implies yields(
            unit,
            FloatOp::Mul(x[base + j], scale),
            y[#[trigger] (base + j)],
        ) by {
            assert(ys[j] == y[base + j]);
        }
        assert(rescales(unit, x, base, d_in, y, squares, sums, norm, c, t, scale));
    } else {
        assert forall|j: int| 0 <= j < d_in implies y[#[trigger] (base + j)] == x[base + j] by {
            assert(ys[j] == y[base + j] && xs[j] == x[base + j]);
        }
        assert(rescales(unit, x, base, d_in, y, squares, sums, norm, 0, 0, 0));
    }
}

/// A layer-normed batch: every cell of a row less the mean of the row, times one over
/// the root of the variance of the row plus `1e-5`.
pub proof fn layer_norm_divides_by_the_deviation<F: Fn(FloatOp) -> u32>(
    unit: F,
    x: Seq<u32>,
    batch: int,
    d_in: usize,
    y: Seq<u32>,
    b: int,
)
    requires
        normalizes(unit, NormalizeMode::LayerNorm, x, batch, d_in as int, y),
        x.len() == batch * d_in,
        0 <= b < batch,
    ensures
        exists|
            sums: Seq<u32>,
            count: u32,
            mean: u32,
            devs: Seq<u32>,
            squares: Seq<u32>,
            square_sums: Seq<u32>,
            other_count: u32,
            variance: u32,
            moved: u32,
            deviation: u32,
            inverse: u32,
            parts: Seq<u32>,
        | #[trigger]
            standardizes(
                unit,
                x,
                b * d_in,
                d_in,
                y,
                sums,
                count,
                mean,
                devs,
                squares,
                square_sums,
                other_count,
                variance,
                moved,
                deviation,
                inverse,
                parts,
            ),
{
    let base = b * d_in;
    lemma_row(batch, d_in as int, b);
    let xs = row(x, d_in as int, b);
    let ys = row(y, d_in as int, b);
    assert(normalized(unit, NormalizeMode::LayerNorm, xs, ys));
    let (mean, inv) = choose|mean: u32, inv: u32| #[trigger]
        mean_of(unit, xs, mean) && #[trigger] inverse_std_of(unit, xs, mean, inv) && forall|j: int|
            0 <= j < xs.len() ==> standardized(unit, xs[j], mean, inv, #[trigger] ys[j]);
    let (sums, count) = lemma_mean_in_steps(unit, x, base, d_in, xs, mean);
    let (var, e, sd) = choose|var: u32, e: u32, sd: u32|
        variance_of(unit, xs, mean, var) && #[trigger] yields(
            unit,
            FloatOp::Add(var, LAYER_NORM_EPS),
            e,
        ) && #[trigger] yields(unit, FloatOp::Sqrt(e), sd) && yields(
            unit,
            FloatOp::Div(ONE, sd),
            inv,
        );
    let squares = choose|squares: Seq<u32>| #[trigger]
        deviations_of(unit, xs, mean, squares) && averages(unit, squares, xs.len() as int, var);
    assert(squares =~= squares.subrange(0, 0 + d_in));
    let (square_sums, other) = lemma_mean_in_steps(unit, squares, 0, d_in, squares, var);
    let devs = Seq::new(
        d_in as nat,
        |j: int| choose|d: u32| #[trigger]
            yields(unit, FloatOp::Sub(xs[j], mean), d) && squared(unit, d, squares[j]),
    );
    let parts = Seq::new(
        d_in as nat,
        |j: int| choose|d: u32| #[trigger]
            yields(unit, FloatOp::Sub(xs[j], mean), d) && yields(unit, FloatOp::Mul(d, inv), ys[j]),
    );
    assert forall|j: int| 0 <= j < d_in implies yields(
        unit,
        FloatOp::Sub(x[base + j], mean),
        #[trigger] devs[j],
    ) && yields(unit, FloatOp::Mul(devs[j], devs[j]), squares[j]) by {
        assert(squared_deviation(unit, xs[j], mean, squares[j]));
    }
    assert forall|j: int| 0 <= j < d_in implies yields(
        unit,
        FloatOp::Sub(x[base + j], mean),
        #[trigger] parts[j],
    ) && yields(unit, FloatOp::Mul(parts[j], inv), y[base + j]) by {
        assert(standardized(unit, xs[j], mean, inv, ys[j]));
        assert(ys[j] == y[base + j]);
    }
    assert forall|j: int| 0 <= j < d_in implies yields(
        unit,
        FloatOp::Mul(devs[j], devs[j]),
        #[trigger] squares[j],
    ) by {
        assert(devs[j] == devs[j]);
    }
    assert forall|j: int| 0 <= j < d_in implies yields(
        unit,
        FloatOp::Mul(parts[j], inv),
        y[#[trigger] (base + j)],
    ) by {
        assert(parts[j] == parts[j]);
    }
    assert(standardizes(
        unit,
        x,
        base,
        d_in,
        y,
        sums,
        count,
        mean,
        devs,
        squares,
        square_sums,
        other,
        var,
        e,
        sd,
        inv,
        parts,
    ));
}

/// An input is normalized by the mode of the configuration, row by row, and then, if and
/// only if the configuration asks for it, loses the decoder bias, cell by cell.
pub proof fn inputs_are_normalized_then_shifted<F: Fn(FloatOp) -> u32>(
    sae: Sae,
    unit: F,
    x: Seq<u32>,
    batch: int,
    y: Seq<u32>,
)
    requires
        sae.wf(),
        x.len() == batch * sae.cfg.d_in,
        sae.prepares(unit, x, batch, y),
    ensures
        exists|mid: Seq<u32>|
            {
                &&& #[trigger] normalizes(
                    unit,
                    sae.cfg.normalize_activations,
                    x,
                    batch,
                    sae.cfg.d_in as int,
                    mid,
                )
                &&& sae.cfg.apply_b_dec_to_input ==> forall|b: int, j: int|
                    0 <= b < batch && 0 <= j < sae.cfg.d_in ==> yields(
                        unit,
                        FloatOp::Sub(mid[b * sae.cfg.d_in + j], sae.dec.b_dec@[j]),
                        #[trigger] y[b * sae.cfg.d_in + j],
                    )
                &&& !sae.cfg.apply_b_dec_to_input ==> y == mid
            },
{
    let mid = choose|mid: Seq<u32>| #[trigger]
        normalizes(
            unit,
            sae.cfg.normalize_activations,
            x,
            batch,
            sae.cfg.d_in as int,
            mid,
        ) && if sae.cfg.apply_b_dec_to_input {
            shifted(unit, sae.dec.b_dec@, batch, mid, y)
        } else {
            y == mid
        };
    if sae.cfg.apply_b_dec_to_input {
        assert forall|b: int, j: int| 0 <= b < batch && 0 <= j < sae.cfg.d_in implies yields(
            unit,
            FloatOp::Sub(mid[b * sae.cfg.d_in + j], sae.dec.b_dec@[j]),
            #[trigger] y[b * sae.cfg.d_in + j],
        ) by {
            assert(at(y, sae.cfg.d_in as int, b, j) == y[b * sae.cfg.d_in + j]);
        }
    }
}

/// Only the rows of listed features matter to a decoder: two decoders with the same
/// biases, and with the same cells in the rows of the features that an output lists,
/// decode it alike.
pub proof fn unlisted_rows_do_not_matter<F: Fn(FloatOp) -> u32>(
    unit: F,
    a: DecoderWeights,
    b: DecoderWeights,
    z: SparseOut,
    out: Seq<u32>,
)
    requires
        a.d_in == b.d_in,
        a.b_dec@ == b.b_dec@,
        decodes(unit, a, z, out),
        forall|t: int, j: int|
            0 <= t < z.indices@.len() && 0 <= j < a.d_in ==> #[trigger] a.w_dec@[z.indices@[t]
                * a.d_in + j] == b.w_dec@[z.indices@[t] * a.d_in + j],
        forall|c: int|
            0 <= c < z.row_offsets@.len() - 1 ==> #[trigger] z.row_offsets@[c]
                <= z.row_offsets@[c + 1] <= z.indices@.len(),
    ensures
        decodes(unit, b, z, out),
{
    assert forall|c: int, j: int| 0 <= c < z.rows() && 0 <= j < b.d_in implies decoded(
        unit,
        b,
        z.features(c),
        z.activations(c),
        j,
        #[trigger] at(out, b.d_in as int, c, j),
    ) by {
        assert(decoded(
            unit,
            a,
            z.features(c),
            z.activations(c),
            j,
            at(out, a.d_in as int, c, j),
        ));
        let fs = z.features(c);
        let s = z.row_offsets@[c] as int;
        assert(z.row_offsets@[c] <= z.row_offsets@[c + 1] <= z.indices@.len());
        assert forall|t: int| 0 <= t < fs.len() implies gathered(a, fs, j)[t] == gathered(
            b,
            fs,
            j,
        )[t] by {
            assert(fs[t] == z.indices@[s + t]);
            assert(a.w_dec@[z.indices@[s + t] * a.d_in + j] == b.w_dec@[z.indices@[s + t] * a.d_in
                + j]);
        }
        assert(gathered(a, fs, j) =~= gathered(b, fs, j));
    }
}

} // verus!
