//! Sparse decoder entry point.

use vstd::prelude::*;

use crate::bits::{total, FloatOp};
use crate::index::{at, lemma_cell, lemma_row, lemma_store};
use crate::kernels::reduce::{accumulate, dot, lemma_dot_push};
use crate::sae::{DecoderWeights, SparseOut};

verus! {

/// The weights of the features `features` on output `j`.
pub open spec fn gathered(dec: DecoderWeights, features: Seq<u32>, j: int) -> Seq<u32> {
    Seq::new(features.len(), |t: int| dec.w_dec@[features[t] * dec.d_in + j])
}

/// `r` is output `j` of a row with the given features and values: the bias plus
/// each value times its feature's weight, in order, each product rounded before
/// it is added.
pub open spec fn decoded<F: Fn(FloatOp) -> u32>(
    unit: F,
    dec: DecoderWeights,
    features: Seq<u32>,
    values: Seq<u32>,
    j: int,
    r: u32,
) -> bool {
    dot(unit, false, dec.b_dec@[j], values, gathered(dec, features, j), r)
}

/// Every pair that a row of `z` spans is there, and its feature exists.
pub open spec fn decodable(z: SparseOut, d_sae: int) -> bool {
    forall|b: int, k: int|
        0 <= b < z.rows() && #[trigger] z.spans(b, k) ==> k < z.indices@.len() && k
            < z.values@.len() && z.indices@[k] < d_sae
}

/// `out` holds the decoded rows of `z`.
pub open spec fn decodes<F: Fn(FloatOp) -> u32>(
    unit: F,
    dec: DecoderWeights,
    z: SparseOut,
    out: Seq<u32>,
) -> bool {
    &&& out.len() == z.rows() * dec.d_in
    &&& forall|b: int, j: int|
        0 <= b < z.rows() && 0 <= j < dec.d_in ==> decoded(
            unit,
            dec,
            z.features(b),
            z.activations(b),
            j,
            #[trigger] at(out, dec.d_in as int, b, j),
        )
}

/// Decode one row of `z` into row `b` of `out`.
fn decode_row<F: Fn(FloatOp) -> u32>(
    z: &SparseOut,
    dec: &DecoderWeights,
    out: &mut [u32],
    batch: usize,
    b: usize,
    unit: &F,
)
    requires
        total(*unit),
        dec.wf(),
        decodable(*z, dec.d_sae as int),
        batch == z.rows(),
        b < batch,
        old(out)@.len() == batch * dec.d_in,
    ensures
        final(out)@.len() == old(out)@.len(),
        forall|j: int|
            0 <= j < dec.d_in ==> decoded(
                *unit,
                *dec,
                z.features(b as int),
                z.activations(b as int),
                j,
                #[trigger] at(final(out)@, dec.d_in as int, b as int, j),
            ),
        forall|c: int, j: int|
            0 <= c < batch && c != b && 0 <= j < dec.d_in ==> #[trigger] at(
                final(out)@,
                dec.d_in as int,
                c,
                j,
            ) == at(old(out)@, dec.d_in as int, c, j),
{
    let d_in: usize = dec.d_in;
    let out_len: usize = out.len();
    let w_len: usize = dec.w_dec.len();
    let ghost before = out@;
    let ghost features = z.features(b as int);
    let ghost values = z.activations(b as int);
    proof {
        lemma_row(batch as int, d_in as int, b as int);
    }
    let base: usize = b * d_in;
    let mut j: usize = 0;
    while j < d_in
        invariant
            d_in == dec.d_in,
            dec.b_dec@.len() == d_in,
            out@.len() == out_len == batch * d_in,
            b < batch,
            base == b * d_in,
            j <= d_in,
            forall|i: int|
                0 <= i < j ==> #[trigger] at(out@, d_in as int, b as int, i) == dec.b_dec@[i],
            forall|c: int, i: int|
                0 <= c < batch && c != b && 0 <= i < d_in ==> #[trigger] at(out@, d_in as int, c, i)
                    == at(before, d_in as int, c, i),
        decreases d_in - j,
    {
        proof {
            lemma_cell(batch as int, d_in as int, b as int, j as int);
            lemma_store(out@, batch as int, d_in as int, b as int, j as int, dec.b_dec@[j as int]);
        }
        out[base + j] = dec.b_dec[j];
        j += 1;
    }
    let s: usize = z.row_offsets[b] as usize;
    let e: usize = z.row_offsets[b + 1] as usize;
    let mut k: usize = s;
    proof {
        if s < e {
            assert(z.spans(b as int, e - 1));
        }
    }
    assert forall|i: int| 0 <= i < d_in implies decoded(
        *unit,
        *dec,
        features.take(0),
        values.take(0),
        i,
        #[trigger] at(out@, d_in as int, b as int, i),
    ) by {}
    while k < e
        invariant
            total(*unit),
            dec.wf(),
            decodable(*z, dec.d_sae as int),
            batch == z.rows(),
            b < batch,
            d_in == dec.d_in,
            out@.len() == out_len == batch * d_in,
            dec.w_dec@.len() == w_len,
            base == b * d_in,
            s == z.row_offsets@[b as int],
            e == z.row_offsets@[b + 1],
            s <= k,
            s < e ==> k <= e,
            s >= e ==> k == s,
            s >= e ==> features.len() == values.len() == 0,
            features == z.features(b as int),
            values == z.activations(b as int),
            s < e ==> e <= z.indices@.len() && e <= z.values@.len(),
            s < e ==> features.len() == values.len() == e - s,
            forall|i: int|
                0 <= i < d_in ==> decoded(
                    *unit,
                    *dec,
                    features.take(k - s),
                    values.take(k - s),
                    i,
                    #[trigger] at(out@, d_in as int, b as int, i),
                ),
            forall|c: int, i: int|
                0 <= c < batch && c != b && 0 <= i < d_in ==> #[trigger] at(out@, d_in as int, c, i)
                    == at(before, d_in as int, c, i),
        decreases e - k,
    {
        assert(z.spans(b as int, k as int));
        let f: usize = z.indices[k] as usize;
        let v: u32 = z.values[k];
        proof {
            lemma_row(dec.d_sae as int, d_in as int, f as int);
            assert(features[k - s] == f);
            assert(values[k - s] == v);
        }
        let w_base: usize = f * d_in;
        let ghost so_far = out@;
        let mut j: usize = 0;
        while j < d_in
            invariant
                total(*unit),
                dec.wf(),
                b < batch,
                d_in == dec.d_in,
                out@.len() == out_len == batch * d_in,
                so_far.len() == out_len,
                dec.w_dec@.len() == w_len,
                base == b * d_in,
                w_base == f * d_in,
                w_base + d_in <= w_len,
                j <= d_in,
                0 <= k - s < features.len(),
                features.len() == values.len(),
                features[k - s] == f,
                values[k - s] == v,
                forall|i: int|
                    0 <= i < d_in ==> decoded(
                        *unit,
                        *dec,
                        features.take(k - s),
                        values.take(k - s),
                        i,
                        #[trigger] at(so_far, d_in as int, b as int, i),
                    ),
                forall|i: int|
                    0 <= i < j ==> decoded(
                        *unit,
                        *dec,
                        features.take(k - s + 1),
                        values.take(k - s + 1),
                        i,
                        #[trigger] at(out@, d_in as int, b as int, i),
                    ),
                forall|i: int|
                    j <= i < d_in ==> #[trigger] at(out@, d_in as int, b as int, i) == at(
                        so_far,
                        d_in as int,
                        b as int,
                        i,
                    ),
                forall|c: int, i: int|
                    0 <= c < batch && c != b && 0 <= i < d_in ==> #[trigger] at(
                        out@,
                        d_in as int,
                        c,
                        i,
                    ) == at(before, d_in as int, c, i),
            decreases d_in - j,
        {
            proof {
                lemma_cell(batch as int, d_in as int, b as int, j as int);
                assert(at(out@, d_in as int, b as int, j as int) == at(
                    so_far,
                    d_in as int,
                    b as int,
                    j as int,
                ));
            }
            let acc: u32 = out[base + j];
            let w: u32 = dec.w_dec[w_base + j];
            let r: u32 = accumulate(unit, false, acc, v, w);
            proof {
                let fs = features.take(k - s);
                let vs = values.take(k - s);
                let ws = gathered(*dec, fs, j as int);
                lemma_dot_push(*unit, false, dec.b_dec@[j as int], vs, ws, acc, v, w, r);
                assert(values.take(k - s + 1) =~= vs.push(v));
                assert(gathered(*dec, features.take(k - s + 1), j as int) =~= ws.push(w));
                lemma_store(out@, batch as int, d_in as int, b as int, j as int, r);
            }
            out[base + j] = r;
            j += 1;
        }
        k += 1;
    }
    proof {
        assert(features.take(k - s) =~= features);
        assert(values.take(k - s) =~= values);
    }
}

/// Sparse decoder: `out[b, :] = b_dec + sum_{(f, v) in z[b]} v * W_dec[f, :]`.
///
/// Row-major, one accumulator per output, no fused steps.
pub fn decode_sparse<F: Fn(FloatOp) -> u32>(
    z: &SparseOut,
    dec: &DecoderWeights,
    out: &mut [u32],
    unit: &F,
)
    requires
        total(*unit),
        dec.wf(),
        decodable(*z, dec.d_sae as int),
        old(out)@.len() == z.rows() * dec.d_in,
    ensures
        decodes(*unit, *dec, *z, final(out)@),
{
    let batch: usize = z.batch_size();
    let mut b: usize = 0;
    while b < batch
        invariant
            total(*unit),
            dec.wf(),
            decodable(*z, dec.d_sae as int),
            batch == z.rows(),
            out@.len() == batch * dec.d_in,
            b <= batch,
            forall|c: int, j: int|
                0 <= c < b && 0 <= j < dec.d_in ==> decoded(
                    *unit,
                    *dec,
                    z.features(c),
                    z.activations(c),
                    j,
                    #[trigger] at(out@, dec.d_in as int, c, j),
                ),
        decreases batch - b,
    {
        decode_row(z, dec, out, batch, b, unit);
        b += 1;
    }
}

/// Whether [`decode_sparse`] can decode `z`: every pair that a row spans is
/// there, and its feature is below `d_sae`.
pub fn is_decodable(z: &SparseOut, d_sae: usize) -> (res: bool)
    ensures
        res == decodable(*z, d_sae as int),
{
    let batch: usize = z.batch_size();
    let mut b: usize = 0;
    while b < batch
        invariant
            batch == z.rows(),
            b <= batch,
            forall|c: int, k: int|
                0 <= c < b && #[trigger] z.spans(c, k) ==> k < z.indices@.len() && k
                    < z.values@.len() && z.indices@[k] < d_sae,
        decreases batch - b,
    {
        let s: usize = z.row_offsets[b] as usize;
        let e: usize = z.row_offsets[b + 1] as usize;
        let mut k: usize = s;
        while k < e
            invariant
                batch == z.rows(),
                b < batch,
                s == z.row_offsets@[b as int],
                e == z.row_offsets@[b + 1],
                s <= k,
                forall|c: int, j: int|
                    0 <= c < b && #[trigger] z.spans(c, j) ==> j < z.indices@.len() && j
                        < z.values@.len() && z.indices@[j] < d_sae,
                forall|j: int|
                    s <= j < k && #[trigger] z.spans(b as int, j) ==> j < z.indices@.len() && j
                        < z.values@.len() && z.indices@[j] < d_sae,
            decreases e - k,
        {
            assert(z.spans(b as int, k as int));
            if k >= z.indices.len() || k >= z.values.len() || z.indices[k] as usize >= d_sae {
                return false;
            }
            k += 1;
        }
        b += 1;
    }
    true
}

/// Place `k`, which row `b` reaches by its offsets, holds no value or no feature below
/// `d_sae`.
pub open spec fn reaches_nothing(z: SparseOut, d_sae: int, b: int, k: int) -> bool {
    &&& 0 <= b < z.row_offsets@.len() - 1
    &&& z.row_offsets@[b] <= k
    &&& k < z.row_offsets@[b + 1]
    &&& k >= z.indices@.len() || k >= z.values@.len() || z.indices@[k] >= d_sae
}

/// An output can be decoded if and only if every place that a row reaches by its offsets
/// holds a value and a feature below `d_sae`.
pub proof fn decodable_outputs_reach_features(z: SparseOut, d_sae: int)
    ensures
        decodable(z, d_sae) <==> forall|b: int, k: int| !#[trigger] reaches_nothing(z, d_sae, b, k),
{
    if decodable(z, d_sae) {
        assert forall|b: int, k: int| !#[trigger] reaches_nothing(z, d_sae, b, k) by {
            if reaches_nothing(z, d_sae, b, k) {
                assert(z.spans(b, k));
            }
        }
    }
    if forall|b: int, k: int| !#[trigger] reaches_nothing(z, d_sae, b, k) {
        assert forall|b: int, k: int| 0 <= b < z.rows() && #[trigger] z.spans(b, k) implies k
            < z.indices@.len() && k < z.values@.len() && z.indices@[k] < d_sae by {
            assert(!reaches_nothing(z, d_sae, b, k));
        }
    }
}

} // verus!
