//! What the arithmetic comes to where nothing is rounded.
//!
//! An encoding stands for a real number, and a unit is exact if every answer that
//! it gives is the encoding of the exact result. On such a unit the operations of
//! the library are those of linear algebra: the laws here say which.

use vstd::arithmetic::div_mod::*;
use vstd::arithmetic::mul::*;
use vstd::arithmetic::power2::*;
use vstd::prelude::*;

use crate::bits::{absolute, greater, is_nan, positive, yields, FloatOp, NEG_ZERO, ONE, ZERO};
use crate::config::NormalizeMode;
use crate::kernels::decoder::decodes;
use crate::kernels::encoder::encodes;
use crate::kernels::Backend;
use crate::loader::saelens::ONES_TOLERANCE;
use crate::normalize::{normalizes, LAYER_NORM_EPS};
use crate::sae::{DecoderWeights, EncoderWeights, SparseOut, WeightLayout};
use crate::steps::{
    accumulates, adds_up, by_lanes, centering_subtracts_the_mean, centers, decodes_in_steps, is_fused,
    layer_norm_divides_by_the_deviation, means, outputs_accumulate_from_the_bias,
    outputs_add_feature_rows, reduces, rescales, rescaling_divides_by_the_norm, standardizes,
    vectors_accumulate_by_lanes, width,
};

verus! {

/// The number that a magnitude (an encoding without its sign bit) stands for, as a
/// multiple of the smallest positive number.
pub open spec fn multiple(m: int) -> int {
    if m < 0x80_0000 {
        m
    } else {
        (0x80_0000 + m % 0x80_0000) * pow2((m / 0x80_0000 - 1) as nat)
    }
}

/// The number that an encoding stands for, as a multiple of the smallest positive
/// number.
pub open spec fn signed_multiple(b: u32) -> int {
    if b < 0x8000_0000 {
        multiple(b as int)
    } else {
        -multiple(b - 0x8000_0000)
    }
}

/// The number that an encoding stands for. (An infinity counts as the number after
/// the largest one; a NaN stands for nothing, and what is said here of its number
/// has no meaning.)
pub open spec fn number(b: u32) -> real {
    signed_multiple(b) as real / (pow2(149) as real)
}

/// Every answer of the unit is a number, and the exact result of the operation.
pub open spec fn exact<F: Fn(FloatOp) -> u32>(unit: F) -> bool {
    forall|op: FloatOp, r: u32| #[trigger]
        yields(unit, op, r) ==> !is_nan(r) && match op {
            FloatOp::Add(a, b) => number(r) == number(a) + number(b),
            FloatOp::Sub(a, b) => number(r) == number(a) - number(b),
            FloatOp::Mul(a, b) => number(r) == number(a) * number(b),
            FloatOp::Div(a, b) => number(r) * number(b) == number(a) && number(b) != 0real,
            FloatOp::MulAdd(a, b, c) => number(r) == number(a) * number(b) + number(c),
            FloatOp::Sqrt(a) => number(r) >= 0real && number(r) * number(r) == number(a),
            FloatOp::FromCount(n) => number(r) == n as real,
        }
}

/// The sum of the first `n` terms.
pub open spec fn series(term: spec_fn(int) -> real, n: int) -> real
    decreases n,
{
    if n <= 0 {
        0real
    } else {
        series(term, n - 1) + term(n - 1)
    }
}

/// A larger magnitude stands for a larger number.
proof fn lemma_multiple_grows(a: int, b: int)
    requires
        0 <= a < b,
    ensures
        multiple(a) < multiple(b),
        0 <= multiple(a),
    decreases b - a,
{
    if a < b - 1 {
        lemma_multiple_grows(a, b - 1);
        lemma_multiple_grows(b - 1, b);
    } else if b > 0x80_0000 {
        let e = (a / 0x80_0000 - 1) as nat;
        let f = a % 0x80_0000;
        let p = pow2(e) as int;
        lemma_pow2_pos(e);
        if f < 0x7f_ffff {
            assert(b / 0x80_0000 == a / 0x80_0000 && b % 0x80_0000 == f + 1);
            assert((0x80_0000 + f) * p < (0x80_0000 + (f + 1)) * p && 0 <= (0x80_0000 + f) * p)
                by (nonlinear_arith)
                requires
                    0 < p,
                    0 <= f,
            ;
        } else {
            assert(b / 0x80_0000 == a / 0x80_0000 + 1 && b % 0x80_0000 == 0);
            lemma_pow2_unfold(e + 1);
            assert((0x80_0000 + 0x7f_ffff) * p < 0x80_0000 * (2 * p)) by (nonlinear_arith)
                requires
                    0 < p,
            ;
        }
    } else if b == 0x80_0000 {
        lemma2_to64();
        assert(multiple(b) == 0x80_0000 * pow2(0));
    }
}

/// Dividing by a positive number keeps the order.
proof fn lemma_quotients(a: real, b: real, d: real)
    requires
        d > 0real,
    ensures
        a / d > b / d <==> a > b,
        a / d == b / d <==> a == b,
        0real / d == 0real,
        d / d == 1real,
{
    assert((a / d) * d == a) by (nonlinear_arith)
        requires
            d > 0real,
    ;
    assert((b / d) * d == b) by (nonlinear_arith)
        requires
            d > 0real,
    ;
    let x = a / d;
    let y = b / d;
    assert(x > y <==> x * d > y * d) by (nonlinear_arith)
        requires
            d > 0real,
    ;
    assert(0real / d == 0real && d / d == 1real) by (nonlinear_arith)
        requires
            d > 0real,
    ;
}

/// The order of encodings is the order of the numbers that they stand for, and the
/// encodings of zero and one stand for zero and one. The magnitude stands for the
/// absolute value. A NaN is neither greater nor less than anything.
pub proof fn encodings_order_as_numbers(a: u32, b: u32)
    ensures
        !is_nan(a) && !is_nan(b) ==> (greater(a, b) <==> number(a) > number(b)),
        is_nan(a) || is_nan(b) ==> !greater(a, b),
        is_nan(a) <==> 0x7f80_0000 < a < 0x8000_0000 || 0xff80_0000 < a,
        !is_nan(a) ==> (positive(a) <==> number(a) > 0real),
        number(ZERO) == 0real,
        number(NEG_ZERO) == 0real,
        number(ONE) == 1real,
        number(absolute(a)) == (if number(a) < 0real {
            -number(a)
        } else {
            number(a)
        }),
{
    let d = pow2(149) as real;
    lemma_pow2_pos(149);
    lemma_quotients(signed_multiple(a) as real, signed_multiple(b) as real, d);
    lemma_quotients(signed_multiple(a) as real, 0real, d);
    lemma_quotients(0real, signed_multiple(a) as real, d);
    let ma = if a < 0x8000_0000 { a as int } else { a - 0x8000_0000 };
    let mb = if b < 0x8000_0000 { b as int } else { b - 0x8000_0000 };
    if ma < mb {
        lemma_multiple_grows(ma, mb);
    }
    if mb < ma {
        lemma_multiple_grows(mb, ma);
    }
    if ma > 0 {
        lemma_multiple_grows(0, ma);
    }
    if mb > 0 {
        lemma_multiple_grows(0, mb);
    }
    assert(multiple(0) == 0);
    assert(signed_multiple(ONE) == pow2(149)) by {
        lemma2_to64();
        lemma_pow2_adds(23, 126);
        assert(pow2(23) == 0x80_0000);
    }
    let s = signed_multiple(a) as real;
    assert((-s) / d == -(s / d)) by (nonlinear_arith)
        requires
            d > 0real,
    ;
    assert(signed_multiple(absolute(a)) == (if signed_multiple(a) < 0 {
        -signed_multiple(a)
    } else {
        signed_multiple(a)
    }));
}

/// Equal terms have equal sums.
pub proof fn lemma_series_congruent(f: spec_fn(int) -> real, g: spec_fn(int) -> real, n: int)
    requires
        forall|k: int| 0 <= k < n ==> #[trigger] f(k) == g(k),
    ensures
        series(f, n) == series(g, n),
    decreases n,
{
    if n > 0 {
        lemma_series_congruent(f, g, n - 1);
    }
}

/// Sums add up term by term.
pub proof fn lemma_series_plus(
    f: spec_fn(int) -> real,
    g: spec_fn(int) -> real,
    h: spec_fn(int) -> real,
    n: int,
)
    requires
        forall|k: int| 0 <= k < n ==> #[trigger] h(k) == f(k) + g(k),
    ensures
        series(h, n) == series(f, n) + series(g, n),
    decreases n,
{
    if n > 0 {
        lemma_series_plus(f, g, h, n - 1);
        assert(h(n - 1) == f(n - 1) + g(n - 1));
    }
}

/// Sums scale term by term.
pub proof fn lemma_series_times(f: spec_fn(int) -> real, h: spec_fn(int) -> real, c: real, n: int)
    requires
        forall|k: int| 0 <= k < n ==> #[trigger] h(k) == f(k) * c,
    ensures
        series(h, n) == series(f, n) * c,
    decreases n,
{
    if n > 0 {
        lemma_series_times(f, h, c, n - 1);
        assert(h(n - 1) == f(n - 1) * c);
        let a = series(f, n - 1);
        let b = f(n - 1);
        assert((a + b) * c == a * c + b * c) by (nonlinear_arith);
    } else {
        assert(0real * c == 0real) by (nonlinear_arith);
    }
}

/// A sum of equal terms.
pub proof fn lemma_series_constant(f: spec_fn(int) -> real, c: real, n: int)
    requires
        0 <= n,
        forall|k: int| 0 <= k < n ==> #[trigger] f(k) == c,
    ensures
        series(f, n) == (n as real) * c,
    decreases n,
{
    if n > 0 {
        lemma_series_constant(f, c, n - 1);
        assert(f(n - 1) == c);
        let m = (n - 1) as real;
        assert(m * c + c == (m + 1real) * c) by (nonlinear_arith);
        assert(n as real == m + 1real);
    } else {
        assert(0real * c == 0real) by (nonlinear_arith);
    }
}

/// A sum in two parts.
pub proof fn lemma_series_split(f: spec_fn(int) -> real, g: spec_fn(int) -> real, a: int, n: int)
    requires
        0 <= a,
        0 <= n,
        forall|k: int| 0 <= k < n ==> #[trigger] g(k) == f(a + k),
    ensures
        series(f, a + n) == series(f, a) + series(g, n),
    decreases n,
{
    if n > 0 {
        lemma_series_split(f, g, a, n - 1);
        assert(g(n - 1) == f(a + (n - 1)));
    }
}

/// The product of a cell of `x` and a cell of `w`, as numbers.
pub open spec fn product_at(
    x: Seq<u32>,
    x_base: int,
    x_stride: int,
    w: Seq<u32>,
    w_base: int,
    w_stride: int,
) -> spec_fn(int) -> real {
    |k: int| number(x[x_base + k * x_stride]) * number(w[w_base + k * w_stride])
}

/// An accumulator holds its start plus the products that it has taken.
proof fn lemma_accumulated<F: Fn(FloatOp) -> u32>(
    unit: F,
    fused: bool,
    start: u32,
    x: Seq<u32>,
    x_base: int,
    x_stride: int,
    w: Seq<u32>,
    w_base: int,
    w_stride: int,
    n: int,
    accs: Seq<u32>,
    prods: Seq<u32>,
    k: int,
)
    requires
        exact(unit),
        accumulates(unit, fused, start, x, x_base, x_stride, w, w_base, w_stride, n, accs, prods),
        0 <= k <= n,
    ensures
        number(accs[k]) == number(start) + series(
            product_at(x, x_base, x_stride, w, w_base, w_stride),
            k,
        ),
        k > 0 ==> !is_nan(accs[k]),
    decreases k,
{
    if k > 0 {
        let i = k - 1;
        lemma_accumulated(
            unit,
            fused,
            start,
            x,
            x_base,
            x_stride,
            w,
            w_base,
            w_stride,
            n,
            accs,
            prods,
            i,
        );
        let xv = x[x_base + i * x_stride];
        let wv = w[w_base + i * w_stride];
        if fused {
            assert(yields(unit, FloatOp::MulAdd(xv, wv, accs[i]), accs[i + 1]));
        } else {
            assert(accs[i] == accs[i]);
            assert(yields(unit, FloatOp::Mul(xv, wv), prods[i]));
            assert(yields(unit, FloatOp::Add(accs[i], prods[i]), accs[i + 1]));
        }
    }
}

/// Lanes that take every `width`-th term come to the terms of the whole vectors.
proof fn lemma_lanes_cover(
    term: spec_fn(int) -> real,
    lane: spec_fn(int) -> spec_fn(int) -> real,
    sums: spec_fn(int) -> real,
    width: int,
    whole: int,
)
    requires
        0 < width,
        0 <= whole,
        forall|l: int, k: int| 0 <= l < width ==> #[trigger] lane(l)(k) == term(k * width + l),
        forall|l: int| 0 <= l < width ==> #[trigger] sums(l) == series(lane(l), whole),
    ensures
        series(sums, width) == series(term, whole * width),
    decreases whole,
{
    if whole == 0 {
        assert forall|l: int| 0 <= l < width implies #[trigger] sums(l) == 0real by {}
        lemma_series_constant(sums, 0real, width);
        assert((width as real) * 0real == 0real) by (nonlinear_arith);
        assert(0 * width == 0);
    } else {
        let v = whole - 1;
        let before = |l: int| series(lane(l), v);
        let vector = |l: int| term(v * width + l);
        lemma_lanes_cover(term, lane, before, width, v);
        assert forall|l: int| 0 <= l < width implies #[trigger] sums(l) == before(l) + vector(l) by {
            assert(lane(l)(v) == term(v * width + l));
        }
        lemma_series_plus(before, vector, sums, width);
        lemma_mul_nonnegative(v, width);
        lemma_series_split(term, vector, v * width, width);
        lemma_mul_is_distributive_add_other_way(width, v, 1);
    }
}

/// The lanes come to their sum, in whatever order they are added.
proof fn lemma_reduced<F: Fn(FloatOp) -> u32>(
    unit: F,
    backend: Backend,
    v: Seq<u32>,
    halves: Seq<Seq<u32>>,
    s: u32,
)
    requires
        exact(unit),
        v.len() == width(backend),
        reduces(unit, backend, v, halves, s),
    ensures
        number(s) == series(|l: int| number(v[l]), width(backend)),
        !is_nan(s),
{
    let f = |l: int| number(v[l]);
    reveal_with_fuel(series, 17);
    match backend {
        Backend::Scalar => {},
        Backend::Avx2 => {
            let t = halves[0];
            assert(t[0] == t[0] && t[1] == t[1] && t[2] == t[2] && t[3] == t[3] && t[4] == t[4]
                && t[5] == t[5] && t[6] == t[6]);
            assert(number(t[1]) == number(t[0]) + number(v[1]));
            assert(number(t[2]) == number(t[1]) + number(v[2]));
            assert(number(t[3]) == number(t[2]) + number(v[3]));
            assert(number(t[4]) == number(t[3]) + number(v[4]));
            assert(number(t[5]) == number(t[4]) + number(v[5]));
            assert(number(t[6]) == number(t[5]) + number(v[6]));
            assert(number(t[7]) == number(t[6]) + number(v[7]));
        },
        Backend::Avx512 => {
            let a = halves[0];
            let b = halves[1];
            let c = halves[2];
            assert(number(a[0]) == number(v[0]) + number(v[8]));
            assert(number(a[1]) == number(v[1]) + number(v[9]));
            assert(number(a[2]) == number(v[2]) + number(v[10]));
            assert(number(a[3]) == number(v[3]) + number(v[11]));
            assert(number(a[4]) == number(v[4]) + number(v[12]));
            assert(number(a[5]) == number(v[5]) + number(v[13]));
            assert(number(a[6]) == number(v[6]) + number(v[14]));
            assert(number(a[7]) == number(v[7]) + number(v[15]));
            assert(number(b[0]) == number(a[0]) + number(a[4]));
            assert(number(b[1]) == number(a[1]) + number(a[5]));
            assert(number(b[2]) == number(a[2]) + number(a[6]));
            assert(number(b[3]) == number(a[3]) + number(a[7]));
            assert(number(c[0]) == number(b[0]) + number(b[2]));
            assert(number(c[1]) == number(b[1]) + number(b[3]));
        },
        Backend::Neon => {},
    }
}

/// The weight of feature `f` on input `k`, where it stands in the buffer.
pub open spec fn weight_cell(enc: EncoderWeights, f: int, k: int) -> u32 {
    match enc.layout {
        WeightLayout::RowMajor => enc.w_enc@[f * enc.d_in + k],
        WeightLayout::PackedPanels { m_r } => enc.w_enc@[(f / m_r as int) * (m_r * enc.d_in) + k * m_r
            + f % (m_r as int)],
    }
}

/// The dot product of batch row `b` with the weights of feature `f`, as a number.
pub open spec fn inner(enc: EncoderWeights, x: Seq<u32>, b: int, f: int) -> real {
    series(
        |k: int| number(x[b * enc.d_in + k]) * number(weight_cell(enc, f, k)),
        enc.d_in as int,
    )
}

/// Encoding is a matrix product: on every backend and over either layout, a
/// pre-activation is the bias of the feature plus the dot product of the batch row
/// with the weights of the feature.
pub proof fn encoding_is_a_matrix_product<F: Fn(FloatOp) -> u32>(
    unit: F,
    backend: Backend,
    enc: EncoderWeights,
    x: Seq<u32>,
    batch: int,
    pre: Seq<u32>,
    b: int,
    f: int,
)
    requires
        exact(unit),
        encodes(unit, backend, enc, x, batch, pre),
        x.len() == batch * enc.d_in,
        0 <= b < batch,
        0 <= f < enc.d_sae,
        enc.layout matches WeightLayout::PackedPanels { m_r } ==> m_r > 0,
    ensures
        number(pre[b * enc.d_sae + f]) == number(enc.b_enc@[f]) + inner(enc, x, b, f),
        !is_nan(enc.b_enc@[f]) ==> !is_nan(pre[b * enc.d_sae + f]),
{
    let d_in = enc.d_in as int;
    let r = pre[b * enc.d_sae + f];
    let term = |k: int| number(x[b * enc.d_in + k]) * number(weight_cell(enc, f, k));
    match enc.layout {
        WeightLayout::RowMajor => {
            if backend is Scalar {
                outputs_accumulate_from_the_bias(unit, backend, enc, x, batch, pre, b, f);
                let (accs, prods) = choose|accs: Seq<u32>, prods: Seq<u32>| #[trigger]
                    accumulates(
                        unit,
                        false,
                        enc.b_enc@[f],
                        x,
                        b * enc.d_in,
                        1,
                        enc.w_enc@,
                        f * enc.d_in,
                        1,
                        enc.d_in as int,
                        accs,
                        prods,
                    ) && accs.last() == pre[b * enc.d_sae + f];
                lemma_accumulated(
                    unit,
                    false,
                    enc.b_enc@[f],
                    x,
                    b * d_in,
                    1,
                    enc.w_enc@,
                    f * d_in,
                    1,
                    d_in,
                    accs,
                    prods,
                    d_in,
                );
                let other = product_at(x, b * d_in, 1, enc.w_enc@, f * d_in, 1);
                lemma_series_congruent(term, other, d_in);
            } else {
                vectors_accumulate_by_lanes(unit, backend, enc, x, batch, pre, b, f);
                let (lanes, halves, s, tail, prods) = choose|
                    lanes: Seq<Seq<u32>>,
                    halves: Seq<Seq<u32>>,
                    s: u32,
                    tail: Seq<u32>,
                    prods: Seq<u32>,
                | #[trigger]
                    by_lanes(unit, backend, enc, x, b, f, lanes, halves, s, tail, prods, r);
                lemma_by_lanes(unit, backend, enc, x, b, f, lanes, halves, s, tail, prods, r);
            }
        },
        WeightLayout::PackedPanels { m_r } => {
            outputs_accumulate_from_the_bias(unit, backend, enc, x, batch, pre, b, f);
            let base = (f / m_r as int) * (m_r * enc.d_in) + f % (m_r as int);
            let fused = is_fused(backend, batch, enc.d_sae as int, m_r as int, b, f);
            let (accs, prods) = choose|accs: Seq<u32>, prods: Seq<u32>| #[trigger]
                accumulates(
                    unit,
                    fused,
                    enc.b_enc@[f],
                    x,
                    b * enc.d_in,
                    1,
                    enc.w_enc@,
                    base,
                    m_r as int,
                    enc.d_in as int,
                    accs,
                    prods,
                ) && accs.last() == pre[b * enc.d_sae + f];
            lemma_accumulated(
                unit,
                fused,
                enc.b_enc@[f],
                x,
                b * d_in,
                1,
                enc.w_enc@,
                base,
                m_r as int,
                d_in,
                accs,
                prods,
                d_in,
            );
            let other = product_at(x, b * d_in, 1, enc.w_enc@, base, m_r as int);
            lemma_series_congruent(term, other, d_in);
        },
    }
}

/// What lane by lane computation comes to.
proof fn lemma_by_lanes<F: Fn(FloatOp) -> u32>(
    unit: F,
    backend: Backend,
    enc: EncoderWeights,
    x: Seq<u32>,
    b: int,
    f: int,
    lanes: Seq<Seq<u32>>,
    halves: Seq<Seq<u32>>,
    s: u32,
    tail: Seq<u32>,
    prods: Seq<u32>,
    r: u32,
)
    requires
        exact(unit),
        enc.layout is RowMajor,
        by_lanes(unit, backend, enc, x, b, f, lanes, halves, s, tail, prods, r),
    ensures
        number(r) == number(enc.b_enc@[f]) + inner(enc, x, b, f),
        !is_nan(r),
{
    let d_in = enc.d_in as int;
    let n = width(backend);
    let whole = d_in / n;
    lemma_fundamental_div_mod(d_in, n);
    lemma_mul_is_commutative(n, whole);
    let term = |k: int| number(x[b * enc.d_in + k]) * number(weight_cell(enc, f, k));
    let lane = |l: int| product_at(x, b * d_in + l, n, enc.w_enc@, f * d_in + l, n);
    let v = Seq::new(n as nat, |l: int| lanes[l].last());
    let sums = |l: int| number(v[l]);
    encodings_order_as_numbers(ZERO, ZERO);
    assert forall|l: int, k: int| 0 <= l < n implies #[trigger] lane(l)(k) == term(k * n + l) by {
        assert(b * d_in + l + k * n == b * d_in + (k * n + l));
        assert(f * d_in + l + k * n == f * d_in + (k * n + l));
    }
    assert forall|l: int| 0 <= l < n implies #[trigger] sums(l) == series(lane(l), whole) by {
        lemma_accumulated(
            unit,
            true,
            ZERO,
            x,
            b * d_in + l,
            n,
            enc.w_enc@,
            f * d_in + l,
            n,
            whole,
            lanes[l],
            Seq::empty(),
            whole,
        );
    }
    lemma_lanes_cover(term, lane, sums, n, whole);
    lemma_reduced(unit, backend, v, halves, s);
    lemma_series_congruent(sums, |l: int| number(v[l]), n);
    let rest = product_at(x, b * d_in + whole * n, 1, enc.w_enc@, f * d_in + whole * n, 1);
    lemma_accumulated(
        unit,
        false,
        s,
        x,
        b * d_in + whole * n,
        1,
        enc.w_enc@,
        f * d_in + whole * n,
        1,
        d_in - whole * n,
        tail,
        prods,
        d_in - whole * n,
    );
    assert forall|k: int| 0 <= k < d_in - whole * n implies #[trigger] rest(k) == term(
        whole * n + k,
    ) by {
        assert(b * d_in + whole * n + k * 1 == b * d_in + (whole * n + k));
        assert(f * d_in + whole * n + k * 1 == f * d_in + (whole * n + k));
    }
    lemma_mul_nonnegative(whole, n);
    lemma_series_split(term, rest, whole * n, d_in - whole * n);
}

/// What the pairs `from..to` of a row add to output `j`, as a number.
pub open spec fn contribution(dec: DecoderWeights, z: SparseOut, from: int, to: int, j: int) -> real {
    series(
        |t: int|
            number(z.values@[from + t]) * number(
                dec.w_dec@[z.indices@[from + t] * dec.d_in + j],
            ),
        to - from,
    )
}

/// Decoding is a combination of feature rows: an output is the bias plus the sum of
/// every value times the cell of its feature's row.
pub proof fn decoding_combines_feature_rows<F: Fn(FloatOp) -> u32>(
    unit: F,
    dec: DecoderWeights,
    z: SparseOut,
    out: Seq<u32>,
    b: int,
    j: int,
)
    requires
        exact(unit),
        decodes(unit, dec, z, out),
        0 <= b < z.row_offsets@.len() - 1,
        0 <= j < dec.d_in,
        z.row_offsets@[b] <= z.row_offsets@[b + 1] <= z.indices@.len(),
        z.row_offsets@[b + 1] <= z.values@.len(),
    ensures
        number(out[b * dec.d_in + j]) == number(dec.b_dec@[j]) + contribution(
            dec,
            z,
            z.row_offsets@[b] as int,
            z.row_offsets@[b + 1] as int,
            j,
        ),
{
    outputs_add_feature_rows(unit, dec, z, out, b, j);
    let from = z.row_offsets@[b] as int;
    let to = z.row_offsets@[b + 1] as int;
    let (accs, prods) = choose|accs: Seq<u32>, prods: Seq<u32>| #[trigger]
        decodes_in_steps(
            unit,
            dec,
            z,
            z.row_offsets@[b] as int,
            z.row_offsets@[b + 1] as int,
            j,
            accs,
            prods,
        ) && accs.last() == out[b * dec.d_in + j];
    lemma_decoded(unit, dec, z, from, to, j, accs, prods, to - from);
}

/// An output of a row holds the bias and what the first `n` pairs add.
proof fn lemma_decoded<F: Fn(FloatOp) -> u32>(
    unit: F,
    dec: DecoderWeights,
    z: SparseOut,
    from: int,
    to: int,
    j: int,
    accs: Seq<u32>,
    prods: Seq<u32>,
    n: int,
)
    requires
        exact(unit),
        decodes_in_steps(unit, dec, z, from, to, j, accs, prods),
        0 <= n <= to - from,
    ensures
        number(accs[n]) == number(dec.b_dec@[j]) + contribution(dec, z, from, from + n, j),
    decreases n,
{
    if n > 0 {
        lemma_decoded(unit, dec, z, from, to, j, accs, prods, n - 1);
        let t = n - 1;
        let v = z.values@[from + t];
        let w = dec.w_dec@[z.indices@[from + t] * dec.d_in + j];
        assert(yields(unit, FloatOp::Mul(v, w), prods[t]));
        assert(yields(unit, FloatOp::Add(accs[t], prods[t]), accs[t + 1]));
    }
}

/// The sum of the `n` cells of `x` from `base` on.
pub open spec fn total_at(x: Seq<u32>, base: int, n: int) -> real {
    series(|j: int| number(x[base + j]), n)
}

/// The sum of the squares of the `n` cells of `x` from `base` on.
pub open spec fn energy_at(x: Seq<u32>, base: int, n: int) -> real {
    series(|j: int| number(x[base + j]) * number(x[base + j]), n)
}

/// The sum of the squared distances of the `n` cells of `x` from `base` on to `m`.
pub open spec fn spread_at(x: Seq<u32>, base: int, n: int, m: real) -> real {
    series(|j: int| (number(x[base + j]) - m) * (number(x[base + j]) - m), n)
}

/// The `n` cells of `y` from `base` on are those of `x`, less `m`, times `c`.
pub open spec fn scales_to(x: Seq<u32>, y: Seq<u32>, base: int, n: int, m: real, c: real) -> bool {
    forall|j: int|
        0 <= j < n ==> number(#[trigger] y[base + j]) == (number(x[base + j]) - m) * c
}

/// The `n` cells of `y` from `base` on are those of `x` in standard form: `mean` is
/// their mean, `var` their variance, and each is less the mean, times one over the
/// root of the variance plus the number that `0x3727_c5ac` encodes.
pub open spec fn is_standard(
    x: Seq<u32>,
    y: Seq<u32>,
    base: int,
    n: int,
    mean: real,
    var: real,
    scale: real,
) -> bool {
    &&& mean * (n as real) == total_at(x, base, n)
    &&& var * (n as real) == spread_at(x, base, n, mean)
    &&& energy_at(y, base, n) * (var + number(0x3727_c5ac)) == var * (n as real)
    &&& (scale * scale) * (var + number(0x3727_c5ac)) == 1real
    &&& scale >= 0real
    &&& scales_to(x, y, base, n, mean, scale)
}

/// A running sum holds its start plus the cells that it has taken.
pub proof fn lemma_added_up<F: Fn(FloatOp) -> u32>(
    unit: F,
    start: u32,
    x: Seq<u32>,
    base: int,
    n: int,
    accs: Seq<u32>,
    k: int,
)
    requires
        exact(unit),
        adds_up(unit, start, x, base, n, accs),
        0 <= k <= n,
    ensures
        number(accs[k]) == number(start) + total_at(x, base, k),
    decreases k,
{
    if k > 0 {
        lemma_added_up(unit, start, x, base, n, accs, k - 1);
        assert(yields(unit, FloatOp::Add(accs[k - 1], x[base + (k - 1)]), accs[k]));
        let f = |j: int| number(x[base + j]);
        assert(series(f, k) == series(f, k - 1) + f(k - 1));
    }
}

/// The mean times the number of cells is their sum.
proof fn lemma_mean<F: Fn(FloatOp) -> u32>(
    unit: F,
    x: Seq<u32>,
    base: int,
    n: usize,
    sums: Seq<u32>,
    count: u32,
    mean: u32,
)
    requires
        exact(unit),
        means(unit, x, base, n, sums, count, mean),
    ensures
        number(mean) * (n as real) == total_at(x, base, n as int),
        n > 0,
{
    encodings_order_as_numbers(ZERO, ZERO);
    lemma_added_up(unit, 0, x, base, n as int, sums, n as int);
    assert(number(count) == n as real);
}

/// The cells less a number sum to their sum less that number for each of them.
proof fn lemma_shifted_total(x: Seq<u32>, base: int, n: int, m: real, dev: spec_fn(int) -> real)
    requires
        0 <= n,
        forall|j: int| 0 <= j < n ==> #[trigger] dev(j) == number(x[base + j]) - m,
    ensures
        series(dev, n) == total_at(x, base, n) - m * (n as real),
{
    let f = |j: int| number(x[base + j]);
    let g = |j: int| -m;
    lemma_series_plus(f, g, dev, n);
    lemma_series_constant(g, -m, n);
    let c = n as real;
    assert(c * (-m) == -(m * c)) by (nonlinear_arith);
}

/// A centered row sums to zero, and the distances between its cells are what they
/// were.
pub proof fn a_centered_row_sums_to_zero<F: Fn(FloatOp) -> u32>(
    unit: F,
    x: Seq<u32>,
    batch: int,
    d_in: usize,
    y: Seq<u32>,
    b: int,
)
    requires
        exact(unit),
        normalizes(unit, NormalizeMode::ExpectedAverageOnlyIn, x, batch, d_in as int, y),
        x.len() == batch * d_in,
        0 <= b < batch,
    ensures
        total_at(y, b * d_in, d_in as int) == 0real,
        forall|i: int, j: int|
            0 <= i < d_in && 0 <= j < d_in ==> number(#[trigger] y[b * d_in + i]) - number(
                #[trigger] y[b * d_in + j],
            ) == number(x[b * d_in + i]) - number(x[b * d_in + j]),
{
    centering_subtracts_the_mean(unit, x, batch, d_in, y, b);
    let base = b * d_in;
    let n = d_in as int;
    let (sums, count, mean) = choose|sums: Seq<u32>, count: u32, mean: u32| #[trigger]
        centers(unit, x, b * d_in, d_in, y, sums, count, mean);
    lemma_mean(unit, x, base, d_in, sums, count, mean);
    let dev = |j: int| number(y[base + j]);
    assert forall|j: int| 0 <= j < n implies #[trigger] dev(j) == number(x[base + j]) - number(
        mean,
    ) by {
        assert(yields(unit, FloatOp::Sub(x[base + j], mean), y[base + j]));
    }
    lemma_shifted_total(x, base, n, number(mean), dev);
    assert forall|i: int, j: int| 0 <= i < n && 0 <= j < n implies number(#[trigger] y[base + i])
        - number(#[trigger] y[base + j]) == number(x[base + i]) - number(x[base + j]) by {
        assert(dev(i) == number(x[base + i]) - number(mean));
        assert(dev(j) == number(x[base + j]) - number(mean));
    }
}

/// A sum of squares is zero only if every term is.
proof fn lemma_energy(x: Seq<u32>, base: int, n: int)
    ensures
        energy_at(x, base, n) >= 0real,
        energy_at(x, base, n) == 0real ==> forall|j: int|
            0 <= j < n ==> number(#[trigger] x[base + j]) == 0real,
    decreases n,
{
    if n > 0 {
        lemma_energy(x, base, n - 1);
        let v = number(x[base + (n - 1)]);
        let f = |j: int| number(x[base + j]) * number(x[base + j]);
        assert(series(f, n) == series(f, n - 1) + f(n - 1));
        assert(v * v >= 0real && (v * v == 0real ==> v == 0real)) by (nonlinear_arith);
    }
}

/// A rescaled row has the number of its cells as its squared norm, and the direction
/// that it had. A row of zeros stays as it is.
pub proof fn a_rescaled_row_has_unit_mean_square<F: Fn(FloatOp) -> u32>(
    unit: F,
    x: Seq<u32>,
    batch: int,
    d_in: usize,
    y: Seq<u32>,
    b: int,
)
    requires
        exact(unit),
        normalizes(unit, NormalizeMode::ConstantNormRescale, x, batch, d_in as int, y),
        x.len() == batch * d_in,
        0 <= b < batch,
    ensures
        energy_at(x, b * d_in, d_in as int) != 0real ==> {
            &&& energy_at(y, b * d_in, d_in as int) == d_in as real
            &&& exists|c: real| c >= 0real && #[trigger] scales_to(x, y, b * d_in, d_in as int, 0real, c)
        },
        energy_at(x, b * d_in, d_in as int) == 0real ==> forall|j: int|
            0 <= j < d_in ==> #[trigger] y[b * d_in + j] == x[b * d_in + j],
{
    rescaling_divides_by_the_norm(unit, x, batch, d_in, y, b);
    let base = b * d_in;
    let n = d_in as int;
    let (squares, sums, norm, count, target, scale) = choose|
        squares: Seq<u32>,
        sums: Seq<u32>,
        norm: u32,
        count: u32,
        target: u32,
        scale: u32,
    | #[trigger]
        rescales(unit, x, b * d_in, d_in, y, squares, sums, norm, count, target, scale);
    encodings_order_as_numbers(norm, ZERO);
    lemma_added_up(unit, 0, squares, 0, n, sums, n);
    let sq = |j: int| number(squares[0 + j]);
    let en = |j: int| number(x[base + j]) * number(x[base + j]);
    assert forall|j: int| 0 <= j < n implies #[trigger] sq(j) == en(j) by {
        assert(yields(unit, FloatOp::Mul(x[base + j], x[base + j]), squares[j]));
    }
    lemma_series_congruent(sq, en, n);
    let e = energy_at(x, base, n);
    let m = number(norm);
    assert(m >= 0real && m * m == e);
    assert(m == 0real <==> e == 0real) by (nonlinear_arith)
        requires
            m * m == e,
    ;
    if e != 0real {
        assert(positive(norm));
        assert(0 < norm <= 0x7f80_0000);
        let c = number(scale);
        let t = number(target);
        assert(c * m == t && t * t == d_in as real && t >= 0real);
        let ey = |j: int| number(y[base + j]) * number(y[base + j]);
        assert forall|j: int| 0 <= j < n implies #[trigger] ey(j) == en(j) * (c * c) by {
            assert(yields(unit, FloatOp::Mul(x[base + j], scale), y[base + j]));
            let v = number(x[base + j]);
            assert((v * c) * (v * c) == (v * v) * (c * c)) by (nonlinear_arith);
        }
        lemma_series_times(en, ey, c * c, n);
        assert(e * (c * c) == d_in as real) by (nonlinear_arith)
            requires
                c * m == t,
                m * m == e,
                t * t == d_in as real,
        ;
        assert(c >= 0real) by (nonlinear_arith)
            requires
                c * m == t,
                t >= 0real,
                m > 0real,
        ;
        assert forall|j: int| 0 <= j < n implies number(#[trigger] y[base + j]) == (number(
            x[base + j],
        ) - 0real) * c by {
            assert(yields(unit, FloatOp::Mul(x[base + j], scale), y[base + j]));
        }
        assert(scales_to(x, y, base, n, 0real, c));
    } else {
        assert(!positive(norm));
        assert(!(0 < norm <= 0x7f80_0000));
    }
}

/// A layer-normed row sums to zero. Its squared norm, times the variance of the row
/// plus the number that `0x3727_c5ac` encodes (`1e-5`), is the number of its cells
/// times the variance. It is the centered row, scaled.
pub proof fn a_layer_normed_row_is_standardized<F: Fn(FloatOp) -> u32>(
    unit: F,
    x: Seq<u32>,
    batch: int,
    d_in: usize,
    y: Seq<u32>,
    b: int,
)
    requires
        exact(unit),
        normalizes(unit, NormalizeMode::LayerNorm, x, batch, d_in as int, y),
        x.len() == batch * d_in,
        0 <= b < batch,
    ensures
        total_at(y, b * d_in, d_in as int) == 0real,
        exists|mean: real, var: real, scale: real| #[trigger]
            is_standard(x, y, b * d_in, d_in as int, mean, var, scale),
{
    layer_norm_divides_by_the_deviation(unit, x, batch, d_in, y, b);
    let base = b * d_in;
    let n = d_in as int;
    let (
        sums,
        count,
        mean,
        devs,
        squares,
        square_sums,
        other,
        variance,
        moved,
        deviation,
        inverse,
        parts,
    ) = choose|
        sums: Seq<u32>,
        count: u32,
        mean: u32,
        devs: Seq<u32>,
        squares: Seq<u32>,
        square_sums: Seq<u32>,
        other_count: u32,
        variance: u32,
        moved: u32,
        deviation: u32,
        inverse: u32,
        parts: Seq<u32>,
    | #[trigger]
        standardizes(
            unit,
            x,
            b * d_in,
            d_in,
            y,
            sums,
            count,
            mean,
            devs,
            squares,
            square_sums,
            other_count,
            variance,
            moved,
            deviation,
            inverse,
            parts,
        );
    encodings_order_as_numbers(ZERO, ZERO);
    lemma_mean(unit, x, base, d_in, sums, count, mean);
    lemma_mean(unit, squares, 0, d_in, square_sums, other, variance);
    let m = number(mean);
    let v = number(variance);
    let sd = number(deviation);
    let c = number(inverse);
    let eps = number(0x3727_c5ac);
    let len = d_in as real;
    let sq = |j: int| number(squares[0 + j]);
    let sp = |j: int| (number(x[base + j]) - m) * (number(x[base + j]) - m);
    assert forall|j: int| 0 <= j < n implies #[trigger] sq(j) == sp(j) by {
        assert(yields(unit, FloatOp::Sub(x[base + j], mean), devs[j]));
        assert(yields(unit, FloatOp::Mul(devs[j], devs[j]), squares[j]));
    }
    lemma_series_congruent(sq, sp, n);
    assert(v * len == spread_at(x, base, n, m));
    assert(number(moved) == v + eps);
    assert(sd * sd == v + eps && sd >= 0real && c * sd == 1real);
    let dev = |j: int| number(x[base + j]) - m;
    lemma_shifted_total(x, base, n, m, dev);
    let out = |j: int| number(y[base + j]);
    assert forall|j: int| 0 <= j < n implies #[trigger] out(j) == dev(j) * c by {
        assert(yields(unit, FloatOp::Sub(x[base + j], mean), parts[j]));
        assert(yields(unit, FloatOp::Mul(parts[j], inverse), y[base + j]));
    }
    lemma_series_times(dev, out, c, n);
    assert(0real * c == 0real) by (nonlinear_arith);
    let ey = |j: int| number(y[base + j]) * number(y[base + j]);
    assert forall|j: int| 0 <= j < n implies #[trigger] ey(j) == sp(j) * (c * c) by {
        assert(out(j) == dev(j) * c);
        let d = dev(j);
        assert((d * c) * (d * c) == (d * d) * (c * c)) by (nonlinear_arith);
    }
    lemma_series_times(sp, ey, c * c, n);
    let e = energy_at(y, base, n);
    let spread = v * len;
    assert((c * c) * (v + eps) == 1real) by (nonlinear_arith)
        requires
            sd * sd == v + eps,
            c * sd == 1real,
    ;
    assert(e * (v + eps) == spread) by (nonlinear_arith)
        requires
            e == spread * (c * c),
            (c * c) * (v + eps) == 1real,
    ;
    assert(c >= 0real) by (nonlinear_arith)
        requires
            c * sd == 1real,
            sd >= 0real,
    ;
    assert forall|j: int| 0 <= j < n implies number(#[trigger] y[base + j]) == (number(x[base + j])
        - m) * c by {
        assert(out(j) == dev(j) * c);
    }
    assert(scales_to(x, y, base, n, m, c));
    assert(is_standard(x, y, base, n, m, v, c));
}

/// The two tolerances are the encodings nearest to `1e-5` and `1e-7`: no number is off
/// by more than half the distance between neighbours.
pub proof fn tolerances_are_the_nearest()
    ensures
        -(100_000 * pow2(109)) <= 2 * (100_000 * signed_multiple(LAYER_NORM_EPS) - pow2(149))
            <= 100_000 * pow2(109),
        signed_multiple(LAYER_NORM_EPS) % (pow2(109) as int) == 0,
        -(10_000_000 * pow2(102)) <= 2 * (10_000_000 * signed_multiple(ONES_TOLERANCE) - pow2(149))
            <= 10_000_000 * pow2(102),
        signed_multiple(ONES_TOLERANCE) % (pow2(102) as int) == 0,
{
    lemma2_to64();
    lemma_pow2_pos(109);
    lemma_pow2_pos(102);
    lemma_pow2_adds(40, 109);
    lemma_pow2_adds(47, 102);
    lemma_pow2_adds(20, 20);
    lemma_pow2_adds(32, 15);
    assert(0x10_0000 * 0x10_0000 == 0x100_0000_0000);
    assert(0x1_0000_0000 * 0x8000 == 0x8000_0000_0000);
    assert(pow2(40) == 0x100_0000_0000 && pow2(47) == 0x8000_0000_0000);
    let p = pow2(109) as int;
    let q = pow2(102) as int;
    assert(signed_multiple(LAYER_NORM_EPS) == 10995116 * p);
    assert(signed_multiple(ONES_TOLERANCE) == 14073749 * q);
    lemma_mod_multiples_basic(10995116, p);
    lemma_mod_multiples_basic(14073749, q);
    let top = pow2(149) as int;
    let a = signed_multiple(LAYER_NORM_EPS);
    let c = signed_multiple(ONES_TOLERANCE);
    assert(top == 0x100_0000_0000 * p);
    assert(top == 0x8000_0000_0000 * q);
    assert(-(100_000 * p) <= 2 * (100_000 * a - top) <= 100_000 * p) by (nonlinear_arith)
        requires
            top == 0x100_0000_0000 * p,
            a == 10995116 * p,
            p > 0,
    ;
    assert(-(10_000_000 * q) <= 2 * (10_000_000 * c - top) <= 10_000_000 * q) by (nonlinear_arith)
        requires
            top == 0x8000_0000_0000 * q,
            c == 14073749 * q,
            q > 0,
    ;
}

} // verus!
