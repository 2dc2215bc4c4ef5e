//! The `.sit` on-disk format: magic + version + JSON tensor manifest +
//! 64-byte-aligned tensor blobs.
//!
//! Layout:
//! ```text
//! [0..8)    Magic = b"SAEITOSI"
//! [8..12)   Format version (u32 LE)
//! [12..16)  Header length H (u32 LE)
//! [16..16+H)  JSON header (UTF-8)
//! [pad to 64-byte boundary]
//! [tensor section]   one blob per manifest entry, each 64-byte aligned
//! ```
//!
//! Tensors are single precision only. The manifest reserves dtype and
//! scale_tensor slots for quantized weights.

use vstd::arithmetic::div_mod::*;
use vstd::arithmetic::mul::*;
use vstd::prelude::*;

use crate::io::bytes::{word_run, write_words};
use crate::kernels::gemm::pack::{unpack_w_enc, unpacked};
use crate::sae::{EncoderWeights, Sae, WeightLayout};
use crate::sit::header::{SitHeader, SparsifierKind, TensorEntry};
use crate::sparsify::Sparsifier;

pub mod container;
pub mod header;
pub mod layout;
pub mod reader;
pub mod roundtrip;

verus! {

/// Magic bytes at the start of every `.sit` file: `SAEITOSI`.
pub const MAGIC: [u8; 8] = [0x53, 0x41, 0x45, 0x49, 0x54, 0x4f, 0x53, 0x49];

/// Current `.sit` format version.
pub const FORMAT_VERSION: u32 = 1;

/// The alignment of tensors.
pub const ALIGN: usize = 64;

/// The number of bytes from `current` to the next multiple of `target`.
pub open spec fn gap(target: int, current: int) -> int {
    (target - current % target) % target
}

/// The number of bytes from `current` to the next multiple of the alignment.
pub open spec fn padding(current: int) -> int {
    gap(ALIGN as int, current)
}

/// The number of bytes from `current` to the next multiple of `target`: the least
/// number that leads to one.
pub fn pad_to(target: usize, current: usize) -> (res: usize)
    requires
        target > 0,
    ensures
        res == gap(target as int, current as int),
        res < target,
        (current + res) % (target as int) == 0,
        forall|less: int| 0 <= less < res ==> #[trigger] ((current + less) % (target as int)) != 0,
{
    let res: usize = (target - current % target) % target;
    proof {
        let t = target as int;
        let c = current as int;
        let r = c % t;
        lemma_fundamental_div_mod(c, t);
        lemma_mod_bound(c, t);
        if r == 0 {
            lemma_mod_self_0(t);
        } else {
            lemma_small_mod((t - r) as nat, t as nat);
            lemma_mul_is_distributive_add(t, c / t, 1);
            lemma_mod_multiples_basic(c / t + 1, t);
            assert(c + res == (c / t + 1) * t) by {
                lemma_mul_is_commutative(t, c / t + 1);
            }
            assert forall|less: int| 0 <= less < res implies #[trigger] ((c + less) % t) != 0 by {
                assert(c + less == (c / t) * t + (r + less)) by {
                    lemma_mul_is_commutative(t, c / t);
                }
                lemma_fundamental_div_mod_converse_mod(c + less, t, c / t, r + less);
            }
        }
    }
    res
}

/// A tensor to be written: name, shape, elements.
pub type TensorSpec = (Seq<char>, Seq<usize>, Seq<u32>);

/// A run of zero bytes.
pub open spec fn zero_bytes(n: int) -> Seq<u8> {
    Seq::new(n as nat, |i: int| 0u8)
}

/// The tensor section: the tensors one after the other, each padded to the
/// alignment.
pub open spec fn section(ts: Seq<TensorSpec>) -> Seq<u8>
    decreases ts.len(),
{
    if ts.len() == 0 {
        Seq::empty()
    } else {
        let before = section(ts.drop_last());
        before + zero_bytes(padding(before.len() as int)) + word_run(ts.last().2)
    }
}

/// Where tensor `i` starts in the tensor section.
pub open spec fn offset_of(ts: Seq<TensorSpec>, i: int) -> int {
    let end = section(ts.take(i)).len() as int;
    end + padding(end)
}

/// `entry` is the manifest entry of tensor `i`.
pub open spec fn describes(entry: TensorEntry, ts: Seq<TensorSpec>, i: int) -> bool {
    &&& entry.name@ == ts[i].0
    &&& entry.dtype@ == "f32"@
    &&& entry.shape@ == ts[i].1
    &&& entry.offset == offset_of(ts, i)
    &&& entry.nbytes == 4 * ts[i].2.len()
    &&& entry.scale_tensor is None
}

/// `entries` is the manifest of the tensors.
pub open spec fn manifest(entries: Seq<TensorEntry>, ts: Seq<TensorSpec>) -> bool {
    &&& entries.len() == ts.len()
    &&& forall|i: int| 0 <= i < ts.len() ==> describes(#[trigger] entries[i], ts, i)
}

/// The encoder matrix in its row-major form, which is the form on disk.
pub open spec fn row_major(enc: EncoderWeights) -> Seq<u32> {
    match enc.layout {
        WeightLayout::RowMajor => enc.w_enc@,
        WeightLayout::PackedPanels { m_r } => unpacked(
            enc.w_enc@,
            enc.d_sae as int,
            enc.d_in as int,
            m_r as int,
        ),
    }
}

/// The tensors of an SAE, in the order in which they are written.
pub open spec fn tensors_of(sae: Sae) -> Seq<TensorSpec> {
    let d_sae = sae.cfg.d_sae;
    let d_in = sae.cfg.d_in;
    let weights: Seq<TensorSpec> = seq![
        ("W_enc"@, seq![d_sae, d_in], row_major(sae.enc)),
        ("b_enc"@, seq![d_sae], sae.enc.b_enc@),
        ("W_dec"@, seq![d_sae, d_in], sae.dec.w_dec@),
        ("b_dec"@, seq![d_in], sae.dec.b_dec@),
    ];
    match sae.sparsifier {
        Sparsifier::TopK { rescale: Some(r), .. } => weights.push(
            ("rescale"@, seq![d_sae], r@),
        ),
        Sparsifier::TopK { rescale: None, .. } => weights,
        Sparsifier::JumpReLU { thresholds } => weights.push(
            ("threshold"@, seq![d_sae], thresholds@),
        ),
        Sparsifier::Relu => weights,
    }
}

/// The shape of a sparsifier.
pub open spec fn kind_of(sparsifier: Sparsifier) -> SparsifierKind {
    match sparsifier {
        Sparsifier::TopK { k, post_relu, rescale } => SparsifierKind::Topk {
            k,
            post_relu,
            has_rescale: rescale is Some,
        },
        Sparsifier::JumpReLU { .. } => SparsifierKind::Jumprelu,
        Sparsifier::Relu => SparsifierKind::Relu,
    }
}

/// `header` is the header of an SAE.
pub open spec fn header_of(sae: Sae, header: SitHeader) -> bool {
    &&& header.config == sae.cfg
    &&& header.sparsifier == kind_of(sae.sparsifier)
    &&& manifest(header.tensors@, tensors_of(sae))
}

/// One more tensor leaves the entries of the others as they are.
proof fn lemma_manifest_push(
    entries: Seq<TensorEntry>,
    ts: Seq<TensorSpec>,
    entry: TensorEntry,
    t: TensorSpec,
)
    requires
        manifest(entries, ts),
        describes(entry, ts.push(t), ts.len() as int),
    ensures
        manifest(entries.push(entry), ts.push(t)),
{
    let more = ts.push(t);
    assert forall|i: int| 0 <= i < more.len() implies describes(
        #[trigger] entries.push(entry)[i],
        more,
        i,
    ) by {
        if i < ts.len() {
            assert(describes(entries[i], ts, i));
            assert(more.take(i) =~= ts.take(i));
        }
    }
}

/// Append a tensor to the section and to the manifest.
fn push(
    entries: &mut Vec<TensorEntry>,
    blob: &mut Vec<u8>,
    name: &str,
    shape: Vec<usize>,
    data: &[u32],
    Ghost(ts): Ghost<Seq<TensorSpec>>,
)
    requires
        manifest(old(entries)@, ts),
        old(blob)@ == section(ts),
    ensures
        manifest(final(entries)@, ts.push((name@, shape@, data@))),
        final(blob)@ == section(ts.push((name@, shape@, data@))),
{
    let ghost t: TensorSpec = (name@, shape@, data@);
    let pad: usize = pad_to(ALIGN, blob.len());
    let mut i: usize = 0;
    assert(blob@ =~= section(ts) + zero_bytes(0));
    while i < pad
        invariant
            i <= pad,
            blob@ == section(ts) + zero_bytes(i as int),
        decreases pad - i,
    {
        blob.push(0);
        i += 1;
        assert(blob@ =~= section(ts) + zero_bytes(i as int));
    }
    let mut bytes: Vec<u8> = write_words(data);
    let offset: u64 = blob.len() as u64;
    let nbytes: u64 = bytes.len() as u64;
    let ghost before = entries@;
    entries.push(
        TensorEntry {
            name: name.to_owned(),
            dtype: "f32".to_owned(),
            shape,
            offset,
            nbytes,
            scale_tensor: None,
        },
    );
    blob.append(&mut bytes);
    proof {
        let more = ts.push(t);
        assert(more.drop_last() =~= ts);
        assert(more.take(ts.len() as int) =~= ts);
        lemma_manifest_push(before, ts, entries@.last(), t);
        assert(entries@ =~= before.push(entries@.last()));
    }
}

/// The shape of a vector.
fn vector_shape(n: usize) -> (shape: Vec<usize>)
    ensures
        shape@ == seq![n],
{
    let shape: Vec<usize> = vec![n];
    assert(shape@ =~= seq![n]);
    shape
}

/// The shape of a matrix.
fn matrix_shape(rows: usize, cols: usize) -> (shape: Vec<usize>)
    ensures
        shape@ == seq![rows, cols],
{
    let shape: Vec<usize> = vec![rows, cols];
    assert(shape@ =~= seq![rows, cols]);
    shape
}

/// The header and the tensor section of an SAE.
///
/// The encoder matrix on disk is always row-major `[d_sae, d_in]`. If the layout
/// in memory is packed, it is unpacked first. This keeps files independent of
/// the backend.
pub fn write(sae: &Sae) -> (res: (SitHeader, Vec<u8>))
    requires
        sae.wf(),
    ensures
        header_of(*sae, res.0),
        res.1@ == section(tensors_of(*sae)),
{
    let mut blob: Vec<u8> = Vec::new();
    let mut entries: Vec<TensorEntry> = Vec::new();
    let d_in: usize = sae.cfg.d_in;
    let d_sae: usize = sae.cfg.d_sae;
    let n_cells: usize = sae.dec.w_dec.len();
    let ghost mut ts: Seq<TensorSpec> = Seq::empty();
    match sae.enc.layout {
        WeightLayout::RowMajor => {
            push(
                &mut entries,
                &mut blob,
                "W_enc",
                matrix_shape(d_sae, d_in),
                sae.enc.w_enc.as_slice(),
                Ghost(ts),
            );
        },
        WeightLayout::PackedPanels { m_r } => {
            let w: Vec<u32> = unpack_w_enc(sae.enc.w_enc.as_slice(), d_sae, d_in, m_r);
            push(&mut entries, &mut blob, "W_enc", matrix_shape(d_sae, d_in), w.as_slice(), Ghost(ts));
        },
    }
    proof {
        ts = ts.push(("W_enc"@, seq![d_sae, d_in], row_major(sae.enc)));
    }
    push(&mut entries, &mut blob, "b_enc", vector_shape(d_sae), sae.enc.b_enc.as_slice(), Ghost(ts));
    proof {
        ts = ts.push(("b_enc"@, seq![d_sae], sae.enc.b_enc@));
    }
    push(
        &mut entries,
        &mut blob,
        "W_dec",
        matrix_shape(d_sae, d_in),
        sae.dec.w_dec.as_slice(),
        Ghost(ts),
    );
    proof {
        ts = ts.push(("W_dec"@, seq![d_sae, d_in], sae.dec.w_dec@));
    }
    push(&mut entries, &mut blob, "b_dec", vector_shape(d_in), sae.dec.b_dec.as_slice(), Ghost(ts));
    proof {
        ts = ts.push(("b_dec"@, seq![d_in], sae.dec.b_dec@));
    }
    let kind: SparsifierKind = match &sae.sparsifier {
        Sparsifier::TopK { k, post_relu, rescale } => {
            let has_rescale: bool = match rescale {
                Some(r) => {
                    push(
                        &mut entries,
                        &mut blob,
                        "rescale",
                        vector_shape(d_sae),
                        r.as_slice(),
                        Ghost(ts),
                    );
                    proof {
                        ts = ts.push(("rescale"@, seq![d_sae], r@));
                    }
                    true
                },
                None => false,
            };
            SparsifierKind::Topk { k: *k, post_relu: *post_relu, has_rescale }
        },
        Sparsifier::JumpReLU { thresholds } => {
            push(
                &mut entries,
                &mut blob,
                "threshold",
                vector_shape(d_sae),
                thresholds.as_slice(),
                Ghost(ts),
            );
            proof {
                ts = ts.push(("threshold"@, seq![d_sae], thresholds@));
            }
            SparsifierKind::Jumprelu
        },
        Sparsifier::Relu => SparsifierKind::Relu,
    };
    assert(ts =~= tensors_of(*sae));
    (SitHeader { config: sae.cfg, sparsifier: kind, tensors: entries }, blob)
}

} // verus!
