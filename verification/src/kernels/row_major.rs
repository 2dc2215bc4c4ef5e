//! Row-major encoder kernels: one dot product per output.
//!
//! [`encode_f32`] is the scalar reference: the bias plus the products from left
//! to right. [`encode_lanes`] splits each dot product over vector lanes, as the
//! vector instruction sets do: one fused accumulator per lane, then the sum of
//! the lanes, then the products that do not fill a vector, then the bias. AVX2
//! sums its lanes from left to right, AVX-512 adds the upper half to the lower
//! until one is left, and NEON adds neighbours until one is left.

use vstd::arithmetic::div_mod::*;
use vstd::arithmetic::mul::*;
use vstd::prelude::*;

use crate::bits::{total, yields, FloatOp, ZERO};
use crate::index::{at, lemma_cell, lemma_row, lemma_store, row};
use crate::kernels::gemm::tiled_scalar::pre_activation;
use crate::kernels::reduce::{accumulate, dot, dot_strided, lemma_dot_push, strided, sum};
use crate::kernels::Backend;
use crate::sae::EncoderWeights;

verus! {

/// The encoder direction of a feature, read from its row.
proof fn lemma_row_direction(enc: EncoderWeights, f: int)
    requires
        enc.wf(),
        enc.layout is RowMajor,
        0 <= f < enc.d_sae,
    ensures
        enc.direction(f) == strided(enc.w_enc@, f * enc.d_in, 1, enc.d_in as int),
        enc.direction(f) == row(enc.w_enc@, enc.d_in as int, f),
        0 <= f * enc.d_in,
        f * enc.d_in + enc.d_in <= enc.w_enc@.len(),
        (f + 1) * enc.d_in == f * enc.d_in + enc.d_in,
{
    lemma_row(enc.d_sae as int, enc.d_in as int, f);
    assert(enc.direction(f) =~= strided(enc.w_enc@, f * enc.d_in, 1, enc.d_in as int));
    assert(enc.direction(f) =~= row(enc.w_enc@, enc.d_in as int, f));
}

/// Scalar encoder over row-major weights.
pub fn encode_f32<F: Fn(FloatOp) -> u32>(
    x: &[u32],
    enc: &EncoderWeights,
    pre_acts: &mut [u32],
    batch: usize,
    unit: &F,
)
    requires
        total(*unit),
        enc.wf(),
        enc.layout is RowMajor,
        x@.len() == batch * enc.d_in,
        old(pre_acts)@.len() == batch * enc.d_sae,
    ensures
        final(pre_acts)@.len() == old(pre_acts)@.len(),
        forall|b: int, f: int|
            0 <= b < batch && 0 <= f < enc.d_sae ==> pre_activation(
                *unit,
                false,
                *enc,
                x@,
                b,
                f,
                #[trigger] at(final(pre_acts)@, enc.d_sae as int, b, f),
            ),
{
    let d_in: usize = enc.d_in;
    let d_sae: usize = enc.d_sae;
    let p_len: usize = pre_acts.len();
    let x_len: usize = x.len();
    let w_len: usize = enc.w_enc.len();
    let mut f: usize = 0;
    while f < d_sae
        invariant
            total(*unit),
            enc.wf(),
            enc.layout is RowMajor,
            d_in == enc.d_in,
            d_sae == enc.d_sae,
            x@.len() == x_len == batch * d_in,
            enc.w_enc@.len() == w_len,
            pre_acts@.len() == p_len == batch * d_sae,
            f <= d_sae,
            forall|c: int, g: int|
                0 <= c < batch && 0 <= g < f ==> pre_activation(
                    *unit,
                    false,
                    *enc,
                    x@,
                    c,
                    g,
                    #[trigger] at(pre_acts@, d_sae as int, c, g),
                ),
        decreases d_sae - f,
    {
        proof {
            lemma_row_direction(*enc, f as int);
        }
        let bias: u32 = enc.b_enc[f];
        let mut b: usize = 0;
        while b < batch
            invariant
                total(*unit),
                enc.wf(),
                d_in == enc.d_in,
                d_sae == enc.d_sae,
                x@.len() == x_len == batch * d_in,
                enc.w_enc@.len() == w_len,
                pre_acts@.len() == p_len == batch * d_sae,
                f < d_sae,
                b <= batch,
                bias == enc.b_enc@[f as int],
                enc.direction(f as int) == strided(enc.w_enc@, f * d_in, 1, d_in as int),
                f * d_in + d_in <= w_len,
                forall|c: int, g: int|
                    0 <= c < batch && 0 <= g < d_sae && (g < f || (g == f && c < b))
                        ==> pre_activation(
                        *unit,
                        false,
                        *enc,
                        x@,
                        c,
                        g,
                        #[trigger] at(pre_acts@, d_sae as int, c, g),
                    ),
            decreases batch - b,
        {
            proof {
                lemma_row(batch as int, d_in as int, b as int);
                lemma_cell(batch as int, d_sae as int, b as int, f as int);
            }
            let r: u32 = dot_strided(
                unit,
                false,
                bias,
                x,
                b * d_in,
                enc.w_enc.as_slice(),
                f * d_in,
                1,
                d_in,
            );
            proof {
                lemma_store(pre_acts@, batch as int, d_sae as int, b as int, f as int, r);
            }
            pre_acts[b * d_sae + f] = r;
            b += 1;
        }
        f += 1;
    }
}

/// `next` holds the sums of pairs of `acc`: of neighbours, or of the lower half
/// with the upper.
pub open spec fn folded<F: Fn(FloatOp) -> u32>(
    unit: F,
    neighbours: bool,
    acc: Seq<u32>,
    next: Seq<u32>,
) -> bool {
    &&& next.len() == acc.len() / 2
    &&& forall|i: int|
        0 <= i < next.len() ==> yields(
            unit,
            if neighbours {
                FloatOp::Add(acc[2 * i], acc[2 * i + 1])
            } else {
                FloatOp::Add(acc[i], acc[i + next.len()])
            },
            #[trigger] next[i],
        )
}

/// `s` is what is left of `acc`, a power of two of numbers, once pairs have been
/// added up again and again.
pub open spec fn tree_sum<F: Fn(FloatOp) -> u32>(
    unit: F,
    neighbours: bool,
    acc: Seq<u32>,
    s: u32,
) -> bool
    decreases acc.len(),
{
    if acc.len() <= 1 {
        s == acc[0]
    } else {
        exists|next: Seq<u32>|
            next.len() < acc.len() && #[trigger] folded(unit, neighbours, acc, next) && tree_sum(
                unit,
                neighbours,
                next,
                s,
            )
    }
}

/// `s` is the sum of the lanes of a backend, in the order of its instruction set.
pub open spec fn lane_sum<F: Fn(FloatOp) -> u32>(
    unit: F,
    backend: Backend,
    acc: Seq<u32>,
    s: u32,
) -> bool {
    match backend {
        Backend::Avx512 => tree_sum(unit, false, acc, s),
        Backend::Neon => tree_sum(unit, true, acc, s),
        _ => sum(unit, acc[0], acc.skip(1), s),
    }
}

/// The parts of a dot product over the lanes of a backend: `acc` holds the fused
/// sums of the lanes over the whole vectors, `s` their sum, and `t` adds the
/// products past the last whole vector.
pub open spec fn lane_parts<F: Fn(FloatOp) -> u32>(
    unit: F,
    backend: Backend,
    xs: Seq<u32>,
    ws: Seq<u32>,
    acc: Seq<u32>,
    s: u32,
    t: u32,
) -> bool {
    let lanes = backend.spec_lanes();
    let whole = xs.len() as int / lanes;
    &&& acc.len() == lanes
    &&& forall|l: int|
        0 <= l < lanes ==> dot(
            unit,
            true,
            ZERO,
            strided(xs, l, lanes, whole),
            strided(ws, l, lanes, whole),
            #[trigger] acc[l],
        )
    &&& lane_sum(unit, backend, acc, s)
    &&& dot(unit, false, s, xs.skip(whole * lanes), ws.skip(whole * lanes), t)
}

/// `r` is the dot product of `xs` and `ws` over the lanes of a backend, plus the
/// bias.
pub open spec fn lane_dot<F: Fn(FloatOp) -> u32>(
    unit: F,
    backend: Backend,
    bias: u32,
    xs: Seq<u32>,
    ws: Seq<u32>,
    r: u32,
) -> bool {
    exists|acc: Seq<u32>, s: u32, t: u32| #[trigger]
        lane_parts(unit, backend, xs, ws, acc, s, t) && yields(unit, FloatOp::Add(t, bias), r)
}

/// Sum numbers by adding up pairs, until one is left.
fn sum_pairs<F: Fn(FloatOp) -> u32>(acc: &Vec<u32>, neighbours: bool, unit: &F) -> (s: u32)
    requires
        total(*unit),
        acc@.len() > 0,
    ensures
        tree_sum(*unit, neighbours, acc@, s),
    decreases acc@.len(),
{
    if acc.len() == 1 {
        return acc[0];
    }
    let n: usize = acc.len();
    let half: usize = n / 2;
    let mut next: Vec<u32> = Vec::new();
    while next.len() < half
        invariant
            total(*unit),
            acc@.len() == n,
            half == n / 2,
            next@.len() <= half,
            forall|i: int|
                0 <= i < next@.len() ==> yields(
                    *unit,
                    if neighbours {
                        FloatOp::Add(acc@[2 * i], acc@[2 * i + 1])
                    } else {
                        FloatOp::Add(acc@[i], acc@[i + half])
                    },
                    #[trigger] next@[i],
                ),
        decreases half - next@.len(),
    {
        let i: usize = next.len();
        let op: FloatOp = if neighbours {
            FloatOp::Add(acc[2 * i], acc[2 * i + 1])
        } else {
            FloatOp::Add(acc[i], acc[i + half])
        };
        let r: u32 = (*unit)(op);
        assert(yields(*unit, op, r));
        next.push(r);
    }
    assert(folded(*unit, neighbours, acc@, next@));
    sum_pairs(&next, neighbours, unit)
}

/// Sum the lanes of a backend.
fn sum_lanes<F: Fn(FloatOp) -> u32>(acc: &Vec<u32>, backend: Backend, unit: &F) -> (s: u32)
    requires
        total(*unit),
        acc@.len() > 0,
    ensures
        lane_sum(*unit, backend, acc@, s),
{
    match backend {
        Backend::Avx512 => sum_pairs(acc, false, unit),
        Backend::Neon => sum_pairs(acc, true, unit),
        _ => horizontal_sum(acc, unit),
    }
}

/// Sum vector lanes from left to right.
fn horizontal_sum<F: Fn(FloatOp) -> u32>(acc: &Vec<u32>, unit: &F) -> (s: u32)
    requires
        total(*unit),
        acc@.len() > 0,
    ensures
        sum(*unit, acc@[0], acc@.skip(1), s),
{
    let ghost rest = acc@.skip(1);
    let mut s: u32 = acc[0];
    let mut l: usize = 1;
    assert(sum(*unit, acc@[0], rest.take(0), s));
    while l < acc.len()
        invariant
            total(*unit),
            1 <= l <= acc@.len(),
            rest == acc@.skip(1),
            sum(*unit, acc@[0], rest.take(l - 1), s),
        decreases acc@.len() - l,
    {
        let ghost prev = s;
        s = (*unit)(FloatOp::Add(s, acc[l]));
        proof {
            let longer = rest.take(l as int);
            assert(longer.drop_last() =~= rest.take(l - 1));
            assert(longer.last() == acc@[l as int]);
            assert(yields(*unit, FloatOp::Add(prev, longer.last()), s));
        }
        l += 1;
    }
    assert(rest.take(l - 1) =~= rest);
    s
}

/// The dot product of two rows of equal length over the lanes of a backend, plus
/// the bias.
fn dot_lanes<F: Fn(FloatOp) -> u32>(
    xs: &[u32],
    ws: &[u32],
    bias: u32,
    backend: Backend,
    unit: &F,
) -> (r: u32)
    requires
        total(*unit),
        xs@.len() == ws@.len(),
    ensures
        lane_dot(*unit, backend, bias, xs@, ws@, r),
{
    let lanes: usize = backend.lanes();
    let n: usize = xs.len();
    let n_w: usize = ws.len();
    let whole: usize = n / lanes;
    let mut acc: Vec<u32> = Vec::new();
    let mut l: usize = 0;
    while l < lanes
        invariant
            l <= lanes,
            acc@.len() == l,
            forall|g: int| 0 <= g < l ==> #[trigger] acc@[g] == ZERO,
        decreases lanes - l,
    {
        acc.push(ZERO);
        l += 1;
    }
    proof {
        lemma_fundamental_div_mod(n as int, lanes as int);
        lemma_mul_is_commutative(lanes as int, whole as int);
    }
    let mut v: usize = 0;
    while v < whole
        invariant
            total(*unit),
            xs@.len() == n,
            ws@.len() == n,
            lanes > 0,
            v <= whole,
            whole * lanes <= n,
            acc@.len() == lanes,
            forall|g: int|
                0 <= g < lanes ==> dot(
                    *unit,
                    true,
                    ZERO,
                    strided(xs@, g, lanes as int, v as int),
                    strided(ws@, g, lanes as int, v as int),
                    #[trigger] acc@[g],
                ),
        decreases whole - v,
    {
        let mut l: usize = 0;
        while l < lanes
            invariant
                total(*unit),
                xs@.len() == n,
                ws@.len() == n,
                lanes > 0,
                v < whole,
                l <= lanes,
                whole * lanes <= n,
                acc@.len() == lanes,
                forall|g: int|
                    0 <= g < lanes ==> dot(
                        *unit,
                        true,
                        ZERO,
                        strided(xs@, g, lanes as int, if g < l {
                            v + 1
                        } else {
                            v as int
                        }),
                        strided(ws@, g, lanes as int, if g < l {
                            v + 1
                        } else {
                            v as int
                        }),
                        #[trigger] acc@[g],
                    ),
            decreases lanes - l,
        {
            proof {
                lemma_cell(whole as int, lanes as int, v as int, l as int);
            }
            let xv: u32 = xs[v * lanes + l];
            let wv: u32 = ws[v * lanes + l];
            let prev: u32 = acc[l];
            let next: u32 = accumulate(unit, true, prev, xv, wv);
            proof {
                let a = strided(xs@, l as int, lanes as int, v as int);
                let b = strided(ws@, l as int, lanes as int, v as int);
                lemma_dot_push(*unit, true, ZERO, a, b, prev, xv, wv, next);
                assert(strided(xs@, l as int, lanes as int, v + 1) =~= a.push(xv));
                assert(strided(ws@, l as int, lanes as int, v + 1) =~= b.push(wv));
            }
            acc.set(l, next);
            l += 1;
        }
        v += 1;
    }
    let s: u32 = sum_lanes(&acc, backend, unit);
    let tail: usize = whole * lanes;
    let t: u32 = dot_strided(unit, false, s, xs, tail, ws, tail, 1, n - tail);
    proof {
        assert(xs@.skip(tail as int) =~= xs@.subrange(tail as int, tail + (n - tail)));
        assert(ws@.skip(tail as int) =~= strided(ws@, tail as int, 1, n - tail));
        assert(lane_parts(*unit, backend, xs@, ws@, acc@, s, t));
    }
    (*unit)(FloatOp::Add(t, bias))
}

/// Encoder over row-major weights with the vector lanes of a backend.
pub fn encode_lanes<F: Fn(FloatOp) -> u32>(
    x: &[u32],
    enc: &EncoderWeights,
    pre_acts: &mut [u32],
    batch: usize,
    backend: Backend,
    unit: &F,
)
    requires
        total(*unit),
        enc.wf(),
        enc.layout is RowMajor,
        x@.len() == batch * enc.d_in,
        old(pre_acts)@.len() == batch * enc.d_sae,
    ensures
        final(pre_acts)@.len() == old(pre_acts)@.len(),
        forall|b: int, f: int|
            0 <= b < batch && 0 <= f < enc.d_sae ==> lane_dot(
                *unit,
                backend,
                enc.b_enc@[f],
                row(x@, enc.d_in as int, b),
                enc.direction(f),
                #[trigger] at(final(pre_acts)@, enc.d_sae as int, b, f),
            ),
{
    let d_in: usize = enc.d_in;
    let d_sae: usize = enc.d_sae;
    let p_len: usize = pre_acts.len();
    let x_len: usize = x.len();
    let w_len: usize = enc.w_enc.len();
    let mut f: usize = 0;
    while f < d_sae
        invariant
            total(*unit),
            enc.wf(),
            enc.layout is RowMajor,
            d_in == enc.d_in,
            d_sae == enc.d_sae,
            x@.len() == x_len == batch * d_in,
            enc.w_enc@.len() == w_len,
            pre_acts@.len() == p_len == batch * d_sae,
            f <= d_sae,
            forall|c: int, g: int|
                0 <= c < batch && 0 <= g < f ==> lane_dot(
                    *unit,
                    backend,
                    enc.b_enc@[g],
                    row(x@, d_in as int, c),
                    enc.direction(g),
                    #[trigger] at(pre_acts@, d_sae as int, c, g),
                ),
        decreases d_sae - f,
    {
        proof {
            lemma_row_direction(*enc, f as int);
        }
        let w_row: &[u32] = vstd::slice::slice_subrange(
            enc.w_enc.as_slice(),
            f * d_in,
            f * d_in + d_in,
        );
        let bias: u32 = enc.b_enc[f];
        let mut b: usize = 0;
        while b < batch
            invariant
                total(*unit),
                enc.wf(),
                    d_in == enc.d_in,
                d_sae == enc.d_sae,
                x@.len() == x_len == batch * d_in,
                pre_acts@.len() == p_len == batch * d_sae,
                f < d_sae,
                b <= batch,
                bias == enc.b_enc@[f as int],
                w_row@ == enc.direction(f as int),
                forall|c: int, g: int|
                    0 <= c < batch && 0 <= g < d_sae && (g < f || (g == f && c < b)) ==> lane_dot(
                        *unit,
                        backend,
                        enc.b_enc@[g],
                        row(x@, d_in as int, c),
                        enc.direction(g),
                        #[trigger] at(pre_acts@, d_sae as int, c, g),
                    ),
            decreases batch - b,
        {
            proof {
                lemma_row(batch as int, d_in as int, b as int);
                lemma_cell(batch as int, d_sae as int, b as int, f as int);
            }
            let x_row: &[u32] = vstd::slice::slice_subrange(x, b * d_in, b * d_in + d_in);
            let r: u32 = dot_lanes(x_row, w_row, bias, backend, unit);
            proof {
                lemma_store(pre_acts@, batch as int, d_sae as int, b as int, f as int, r);
            }
            pre_acts[b * d_sae + f] = r;
            b += 1;
        }
        f += 1;
    }
}

} // verus!
