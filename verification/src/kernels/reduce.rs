//! Left-to-right reductions on the caller's arithmetic unit.

use vstd::prelude::*;

use crate::bits::{deterministic, total, yields, FloatOp};

verus! {

/// `r` is the accumulator `acc` after the product of `x` and `w` was added to
/// it: in one rounding if `fused`, else in two.
pub open spec fn step<F: Fn(FloatOp) -> u32>(
    unit: F,
    fused: bool,
    acc: u32,
    x: u32,
    w: u32,
    r: u32,
) -> bool {
    if fused {
        yields(unit, FloatOp::MulAdd(x, w, acc), r)
    } else {
        exists|p: u32| #[trigger]
            yields(unit, FloatOp::Mul(x, w), p) && yields(unit, FloatOp::Add(acc, p), r)
    }
}

/// `r` is `start` plus the products of `xs` and `ws`, accumulated from left to
/// right.
pub open spec fn dot<F: Fn(FloatOp) -> u32>(
    unit: F,
    fused: bool,
    start: u32,
    xs: Seq<u32>,
    ws: Seq<u32>,
    r: u32,
) -> bool
    decreases xs.len(),
{
    if xs.len() == 0 {
        r == start
    } else {
        exists|mid: u32|
            dot(unit, fused, start, xs.drop_last(), ws.drop_last(), mid) && #[trigger] step(
                unit,
                fused,
                mid,
                xs.last(),
                ws.last(),
                r,
            )
    }
}

/// `r` is `start` plus the terms `xs`, added from left to right.
pub open spec fn sum<F: Fn(FloatOp) -> u32>(unit: F, start: u32, xs: Seq<u32>, r: u32) -> bool
    decreases xs.len(),
{
    if xs.len() == 0 {
        r == start
    } else {
        exists|mid: u32|
            sum(unit, start, xs.drop_last(), mid) && #[trigger] yields(
                unit,
                FloatOp::Add(mid, xs.last()),
                r,
            )
    }
}

/// A deterministic unit has one accumulator after a step.
pub proof fn lemma_step_unique<F: Fn(FloatOp) -> u32>(
    unit: F,
    fused: bool,
    acc: u32,
    x: u32,
    w: u32,
    a: u32,
    b: u32,
)
    requires
        deterministic(unit),
        step(unit, fused, acc, x, w, a),
        step(unit, fused, acc, x, w, b),
    ensures
        a == b,
{
    if !fused {
        let p = choose|p: u32| #[trigger]
            yields(unit, FloatOp::Mul(x, w), p) && yields(unit, FloatOp::Add(acc, p), a);
        let q = choose|q: u32| #[trigger]
            yields(unit, FloatOp::Mul(x, w), q) && yields(unit, FloatOp::Add(acc, q), b);
        assert(p == q);
    }
}

/// A deterministic unit has one result of a left-to-right reduction.
pub proof fn lemma_dot_unique<F: Fn(FloatOp) -> u32>(
    unit: F,
    fused: bool,
    start: u32,
    xs: Seq<u32>,
    ws: Seq<u32>,
    a: u32,
    b: u32,
)
    requires
        deterministic(unit),
        dot(unit, fused, start, xs, ws, a),
        dot(unit, fused, start, xs, ws, b),
    ensures
        a == b,
    decreases xs.len(),
{
    if xs.len() > 0 {
        let xl = xs.drop_last();
        let wl = ws.drop_last();
        let ma = choose|mid: u32|
            dot(unit, fused, start, xl, wl, mid) && #[trigger] step(
                unit,
                fused,
                mid,
                xs.last(),
                ws.last(),
                a,
            );
        let mb = choose|mid: u32|
            dot(unit, fused, start, xl, wl, mid) && #[trigger] step(
                unit,
                fused,
                mid,
                xs.last(),
                ws.last(),
                b,
            );
        lemma_dot_unique(unit, fused, start, xl, wl, ma, mb);
        lemma_step_unique(unit, fused, ma, xs.last(), ws.last(), a, b);
    }
}

/// One more term at the end of a reduction.
pub proof fn lemma_dot_push<F: Fn(FloatOp) -> u32>(
    unit: F,
    fused: bool,
    start: u32,
    xs: Seq<u32>,
    ws: Seq<u32>,
    mid: u32,
    x: u32,
    w: u32,
    r: u32,
)
    requires
        xs.len() == ws.len(),
        dot(unit, fused, start, xs, ws, mid),
        step(unit, fused, mid, x, w, r),
    ensures
        dot(unit, fused, start, xs.push(x), ws.push(w), r),
{
    assert(xs.push(x).drop_last() =~= xs);
    assert(ws.push(w).drop_last() =~= ws);
    assert(xs.push(x).last() == x);
    assert(ws.push(w).last() == w);
}

/// One more term at the end of a sum.
pub proof fn lemma_sum_push<F: Fn(FloatOp) -> u32>(
    unit: F,
    start: u32,
    xs: Seq<u32>,
    mid: u32,
    x: u32,
    r: u32,
)
    requires
        sum(unit, start, xs, mid),
        yields(unit, FloatOp::Add(mid, x), r),
    ensures
        sum(unit, start, xs.push(x), r),
{
    assert(xs.push(x).drop_last() =~= xs);
    assert(xs.push(x).last() == x);
}

/// A deterministic unit has one result of a sum.
pub proof fn lemma_sum_unique<F: Fn(FloatOp) -> u32>(
    unit: F,
    start: u32,
    xs: Seq<u32>,
    a: u32,
    b: u32,
)
    requires
        deterministic(unit),
        sum(unit, start, xs, a),
        sum(unit, start, xs, b),
    ensures
        a == b,
    decreases xs.len(),
{
    if xs.len() > 0 {
        let xl = xs.drop_last();
        let ma = choose|mid: u32|
            sum(unit, start, xl, mid) && #[trigger] yields(unit, FloatOp::Add(mid, xs.last()), a);
        let mb = choose|mid: u32|
            sum(unit, start, xl, mid) && #[trigger] yields(unit, FloatOp::Add(mid, xs.last()), b);
        lemma_sum_unique(unit, start, xl, ma, mb);
    }
}

/// Add the product of `x` and `w` to `acc`.
pub fn accumulate<F: Fn(FloatOp) -> u32>(unit: &F, fused: bool, acc: u32, x: u32, w: u32) -> (r: u32)
    requires
        total(*unit),
    ensures
        step(*unit, fused, acc, x, w, r),
{
    if fused {
        (*unit)(FloatOp::MulAdd(x, w, acc))
    } else {
        let p: u32 = (*unit)(FloatOp::Mul(x, w));
        assert(yields(*unit, FloatOp::Mul(x, w), p));
        (*unit)(FloatOp::Add(acc, p))
    }
}

/// The `n` cells of `s` from `base` on, `stride` apart.
pub open spec fn strided(s: Seq<u32>, base: int, stride: int, n: int) -> Seq<u32> {
    Seq::new(n as nat, |k: int| s[base + k * stride])
}

/// Accumulate `start` plus the products of `n` cells of `x` (contiguous from
/// `x_base` on) and `n` cells of `w` (`stride` apart from `w_base` on).
pub fn dot_strided<F: Fn(FloatOp) -> u32>(
    unit: &F,
    fused: bool,
    start: u32,
    x: &[u32],
    x_base: usize,
    w: &[u32],
    w_base: usize,
    stride: usize,
    n: usize,
) -> (r: u32)
    requires
        total(*unit),
        x_base + n <= x.len(),
        0 < stride,
        n > 0 ==> w_base + (n - 1) * stride < w.len(),
    ensures
        dot(
            *unit,
            fused,
            start,
            x@.subrange(x_base as int, x_base + n),
            strided(w@, w_base as int, stride as int, n as int),
            r,
        ),
{
    let ghost xs = x@.subrange(x_base as int, x_base + n);
    let ghost ws = strided(w@, w_base as int, stride as int, n as int);
    let mut acc: u32 = start;
    let mut k: usize = 0;
    assert(dot(*unit, fused, start, xs.take(0), ws.take(0), acc));
    while k < n
        invariant
            k <= n,
            total(*unit),
            x_base + n <= x.len(),
            0 < stride,
            n > 0 ==> w_base + (n - 1) * stride < w.len(),
            xs == x@.subrange(x_base as int, x_base + n),
            ws == strided(w@, w_base as int, stride as int, n as int),
            dot(*unit, fused, start, xs.take(k as int), ws.take(k as int), acc),
        decreases n - k,
    {
        proof {
            vstd::arithmetic::mul::lemma_mul_inequality(k as int, n - 1, stride as int);
            vstd::arithmetic::mul::lemma_mul_nonnegative(k as int, stride as int);
        }
        let ghost prev = acc;
        let xv: u32 = x[x_base + k];
        let wv: u32 = w[w_base + k * stride];
        acc = accumulate(unit, fused, acc, xv, wv);
        proof {
            lemma_dot_push(
                *unit,
                fused,
                start,
                xs.take(k as int),
                ws.take(k as int),
                prev,
                xv,
                wv,
                acc,
            );
            assert(xs.take(k + 1) =~= xs.take(k as int).push(xv));
            assert(ws.take(k + 1) =~= ws.take(k as int).push(wv));
        }
        k += 1;
    }
    assert(xs.take(n as int) =~= xs);
    assert(ws.take(n as int) =~= ws);
    acc
}

} // verus!
