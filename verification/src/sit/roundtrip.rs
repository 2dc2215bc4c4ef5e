//! What a `.sit` file gives back: the laws of writing and reading.

use vstd::prelude::*;

use crate::bits::{deterministic, FloatOp};
use crate::equivalence::{same_decoders_decode_alike, same_models_encode_alike, same_parts};
use crate::error::ErrorView;
use crate::independence::same_output;
use crate::index::lemma_cell;
use crate::io::bytes::{word_run, words_read_back};
use crate::kernels::decoder::decodes;
use crate::kernels::gemm::pack::{packed, unpack_undoes_pack};
use crate::sae::{Sae, SparseOut, WeightLayout};
use crate::sit::container::{frame_then_split, framed, header_length, section_start};
use crate::sit::header::{SitHeader, TensorEntry};
use crate::sit::reader::{
    cells, find, first_error, inside, needed, read_error, readable, reads, tensor_at, wholes,
};
use crate::sit::{
    describes, header_of, offset_of, padding, row_major, section, tensors_of, TensorSpec,
};
use crate::sparsify::{same_sparsifier, Sparsifier};

verus! {

/// The section of the first `i` tensors is where the section of the first `j`
/// begins.
proof fn lemma_section_prefix(ts: Seq<TensorSpec>, i: int, j: int)
    requires
        0 <= i <= j <= ts.len(),
    ensures
        section(ts.take(i)).len() <= section(ts.take(j)).len(),
        section(ts.take(j)).subrange(0, section(ts.take(i)).len() as int) == section(ts.take(i)),
    decreases j - i,
{
    let a = section(ts.take(i));
    if i < j {
        lemma_section_prefix(ts, i, j - 1);
        assert(ts.take(j).drop_last() =~= ts.take(j - 1));
        let b = section(ts.take(j - 1));
        let c = section(ts.take(j));
        assert(c.subrange(0, a.len() as int) =~= b.subrange(0, a.len() as int));
    } else {
        assert(a.subrange(0, a.len() as int) =~= a);
    }
}

/// A tensor stands in the section where its entry says.
pub proof fn lemma_section_slice(ts: Seq<TensorSpec>, i: int)
    requires
        0 <= i < ts.len(),
    ensures
        0 <= offset_of(ts, i),
        offset_of(ts, i) + 4 * ts[i].2.len() == section(ts.take(i + 1)).len(),
        offset_of(ts, i) + 4 * ts[i].2.len() <= section(ts).len(),
        section(ts).subrange(offset_of(ts, i), offset_of(ts, i) + 4 * ts[i].2.len()) == word_run(
            ts[i].2,
        ),
{
    let before = section(ts.take(i));
    let upto = section(ts.take(i + 1));
    let all = section(ts);
    let lo = offset_of(ts, i);
    let hi = lo + 4 * ts[i].2.len();
    assert(ts.take(i + 1).drop_last() =~= ts.take(i));
    assert(ts.take(ts.len() as int) =~= ts);
    lemma_section_prefix(ts, i + 1, ts.len() as int);
    assert(upto.subrange(lo, hi) =~= word_run(ts[i].2));
    assert(all.subrange(lo, hi) =~= all.subrange(0, upto.len() as int).subrange(lo, hi));
}

/// The next multiple of the alignment.
proof fn lemma_padding(end: int)
    ensures
        0 <= padding(end) < 64,
        (end + padding(end)) % 64 == 0,
{
}

/// A tensor ends before the next begins, inside the section.
proof fn lemma_tensor_bounds(ts: Seq<TensorSpec>, i: int, j: int)
    requires
        0 <= i < j < ts.len(),
    ensures
        offset_of(ts, i) + 4 * ts[i].2.len() <= offset_of(ts, j),
        offset_of(ts, j) + 4 * ts[j].2.len() <= section(ts).len(),
{
    lemma_section_slice(ts, i);
    lemma_section_slice(ts, j);
    lemma_section_prefix(ts, i + 1, j);
    lemma_padding(section(ts.take(j)).len() as int);
}

/// Every tensor starts at a multiple of 64 bytes, lies inside the section, and
/// ends before the next begins.
pub proof fn tensors_are_aligned_and_apart(ts: Seq<TensorSpec>, i: int, j: int)
    requires
        0 <= i < j < ts.len(),
    ensures
        offset_of(ts, i) % 64 == 0,
        offset_of(ts, j) % 64 == 0,
        offset_of(ts, i) + 4 * ts[i].2.len() <= offset_of(ts, j),
        offset_of(ts, j) + 4 * ts[j].2.len() <= section(ts).len(),
{
    lemma_padding(section(ts.take(i)).len() as int);
    lemma_padding(section(ts.take(j)).len() as int);
    lemma_tensor_bounds(ts, i, j);
}

/// An entry whose name no earlier entry has is found by its name.
proof fn lemma_find(entries: Seq<TensorEntry>, name: Seq<char>, from: int, i: int)
    requires
        0 <= from <= i < entries.len(),
        forall|j: int| from <= j < i ==> (#[trigger] entries[j]).name@ != name,
        entries[i].name@ == name,
    ensures
        find(entries, name, from) == Some(entries[i]),
    decreases i - from,
{
    if from < i {
        lemma_find(entries, name, from + 1, i);
    }
}

/// The names of the tensors are different.
proof fn lemma_names_differ(sae: Sae, i: int, j: int)
    requires
        0 <= i < j < tensors_of(sae).len(),
    ensures
        tensors_of(sae)[i].0 != tensors_of(sae)[j].0,
{
    reveal_strlit("W_enc");
    reveal_strlit("b_enc");
    reveal_strlit("W_dec");
    reveal_strlit("b_dec");
    reveal_strlit("rescale");
    reveal_strlit("threshold");
    let a = tensors_of(sae)[i].0;
    let b = tensors_of(sae)[j].0;
    assert("W_enc"@[0] == 'W' && "W_enc"@[2] == 'e');
    assert("b_enc"@[0] == 'b' && "b_enc"@[2] == 'e');
    assert("W_dec"@[0] == 'W' && "W_dec"@[2] == 'd');
    assert("b_dec"@[0] == 'b' && "b_dec"@[2] == 'd');
    assert("rescale"@.len() == 7);
    assert("threshold"@.len() == 9);
}

/// A tensor that was written is read back.
proof fn lemma_tensor_reads_back(
    path: Seq<char>,
    sae: Sae,
    header: SitHeader,
    json: Seq<u8>,
    i: int,
)
    requires
        header_of(sae, header),
        json.len() <= u32::MAX,
        0 <= i < tensors_of(sae).len(),
    ensures
        ({
            let ts = tensors_of(sae);
            let bytes = framed(json, section(ts));
            let start = section_start(json.len() as int);
            &&& find(header.tensors@, ts[i].0, 0) == Some(header.tensors@[i])
            &&& describes(header.tensors@[i], ts, i)
            &&& inside(bytes.len() as int, start, header.tensors@[i])
            &&& tensor_at(path, bytes, start, header.tensors@, ts[i].0) == Ok::<_, ErrorView>(
                ts[i].2,
            )
        }),
{
    let ts = tensors_of(sae);
    let entries = header.tensors@;
    let blob = section(ts);
    let bytes = framed(json, blob);
    let start = section_start(json.len() as int);
    assert(describes(entries[i], ts, i));
    assert forall|j: int| 0 <= j < i implies (#[trigger] entries[j]).name@ != ts[i].0 by {
        assert(describes(entries[j], ts, j));
        lemma_names_differ(sae, j, i);
    }
    lemma_find(entries, ts[i].0, 0, i);
    frame_then_split(json, blob);
    lemma_section_slice(ts, i);
    let lo = offset_of(ts, i);
    let hi = lo + 4 * ts[i].2.len();
    assert(bytes.subrange(start + lo, start + hi) =~= bytes.skip(start).subrange(lo, hi));
    words_read_back(ts[i].2);
}

/// `b` is the SAE `a` with its encoder matrix in row-major form.
pub open spec fn same_model(a: Sae, b: Sae) -> bool {
    &&& b.cfg == a.cfg
    &&& b.enc.layout is RowMajor
    &&& b.enc.w_enc@ == row_major(a.enc)
    &&& b.enc.b_enc@ == a.enc.b_enc@
    &&& b.dec.w_dec@ == a.dec.w_dec@
    &&& b.dec.b_dec@ == a.dec.b_dec@
    &&& same_sparsifier(a.sparsifier, b.sparsifier)
}

/// The row-major form has the encoder directions of the SAE.
proof fn lemma_row_major_directions(a: Sae, b: Sae, f: int)
    requires
        a.wf(),
        b.wf(),
        same_model(a, b),
        0 <= f < a.cfg.d_sae,
    ensures
        b.enc.direction(f) == a.enc.direction(f),
{
    let d_in = a.enc.d_in as int;
    let d_sae = a.enc.d_sae as int;
    assert forall|k: int| 0 <= k < d_in implies b.enc.weight(f, k) == a.enc.weight(f, k) by {
        lemma_cell(d_sae, d_in, f, k);
    }
    assert(b.enc.direction(f) =~= a.enc.direction(f));
}

/// Every needed tensor of a written file, from the `i`-th on, is there and whole.
proof fn lemma_nothing_refused(
    path: Seq<char>,
    sae: Sae,
    header: SitHeader,
    json: Seq<u8>,
    i: int,
)
    requires
        header_of(sae, header),
        json.len() <= u32::MAX,
        0 <= i <= tensors_of(sae).len(),
    ensures
        ({
            let bytes = framed(json, section(tensors_of(sae)));
            let start = section_start(json.len() as int);
            &&& first_error(path, bytes, start, header, i) is None
            &&& wholes(path, bytes, start, header, i)
        }),
    decreases tensors_of(sae).len() - i,
{
    let ts = tensors_of(sae);
    let names = needed(header.sparsifier);
    assert(names.len() == ts.len());
    if i < ts.len() {
        assert(names[i] == ts[i].0);
        lemma_tensor_reads_back(path, sae, header, json, i);
        lemma_nothing_refused(path, sae, header, json, i + 1);
    }
}

/// The elements of the tensors of a written file.
proof fn lemma_cells(path: Seq<char>, sae: Sae, header: SitHeader, json: Seq<u8>)
    requires
        header_of(sae, header),
        json.len() <= u32::MAX,
    ensures
        ({
            let bytes = framed(json, section(tensors_of(sae)));
            let start = section_start(json.len() as int);
            &&& cells(path, bytes, start, header, "W_enc"@) == row_major(sae.enc)
            &&& cells(path, bytes, start, header, "b_enc"@) == sae.enc.b_enc@
            &&& cells(path, bytes, start, header, "W_dec"@) == sae.dec.w_dec@
            &&& cells(path, bytes, start, header, "b_dec"@) == sae.dec.b_dec@
            &&& match sae.sparsifier {
                Sparsifier::TopK { rescale: Some(r), .. } => cells(
                    path,
                    bytes,
                    start,
                    header,
                    "rescale"@,
                ) == r@,
                Sparsifier::JumpReLU { thresholds } => cells(
                    path,
                    bytes,
                    start,
                    header,
                    "threshold"@,
                ) == thresholds@,
                _ => true,
            }
        }),
{
    let ts = tensors_of(sae);
    assert(ts[0].0 == "W_enc"@ && ts[1].0 == "b_enc"@ && ts[2].0 == "W_dec"@ && ts[3].0
        == "b_dec"@);
    lemma_tensor_reads_back(path, sae, header, json, 0);
    lemma_tensor_reads_back(path, sae, header, json, 1);
    lemma_tensor_reads_back(path, sae, header, json, 2);
    lemma_tensor_reads_back(path, sae, header, json, 3);
    if ts.len() == 5 {
        lemma_tensor_reads_back(path, sae, header, json, 4);
    }
}

/// The size of the row-major form.
proof fn lemma_row_major_size(sae: Sae)
    requires
        sae.wf(),
    ensures
        row_major(sae.enc).len() == sae.cfg.d_sae * sae.cfg.d_in,
        sae.cfg.d_sae * sae.cfg.d_in <= usize::MAX,
{
    let n_cells: usize = sae.dec.w_dec.len();
    vstd::arithmetic::mul::lemma_mul_nonnegative(sae.cfg.d_sae as int, sae.cfg.d_in as int);
}

/// What is read from a written file is what was written.
proof fn lemma_copy(path: Seq<char>, sae: Sae, header: SitHeader, json: Seq<u8>, copy: Sae)
    requires
        sae.wf(),
        header_of(sae, header),
        json.len() <= u32::MAX,
        reads(path, framed(json, section(tensors_of(sae))), json.len() as int, header, copy),
    ensures
        same_model(sae, copy),
        forall|f: int|
            0 <= f < sae.cfg.d_sae ==> #[trigger] copy.enc.direction(f) == sae.enc.direction(f),
{
    lemma_cells(path, sae, header, json);
    assert(same_model(sae, copy));
    assert forall|f: int| 0 <= f < sae.cfg.d_sae implies #[trigger] copy.enc.direction(f)
        == sae.enc.direction(f) by {
        lemma_row_major_directions(sae, copy, f);
    }
}

/// What is written is what is read: the bytes that an SAE is written as are
/// accepted and never refused, whatever text its header takes, and what is read
/// from them (with that header) is the SAE, with the same encoder directions.
///
/// The configuration must claim single precision, which is what is stored: the
/// reader refuses a header that claims another dtype.
pub proof fn write_then_read(path: Seq<char>, sae: Sae, header: SitHeader, json: Seq<u8>)
    requires
        sae.wf(),
        sae.cfg.weight_dtype is F32,
        header_of(sae, header),
        json.len() <= u32::MAX,
        framed(json, section(tensors_of(sae))).len() <= usize::MAX,
    ensures
        ({
            let bytes = framed(json, section(tensors_of(sae)));
            let n = json.len() as int;
            &&& header_length(bytes) == Ok::<int, Seq<char>>(n)
            &&& bytes.subrange(16, 16 + n) == json
            &&& readable(path, bytes, n, header)
            &&& read_error(path, bytes, n, header) is None
            &&& forall|copy: Sae| #[trigger]
                reads(path, bytes, n, header, copy) ==> {
                    &&& same_model(sae, copy)
                    &&& forall|f: int|
                        0 <= f < sae.cfg.d_sae ==> #[trigger] copy.enc.direction(f)
                            == sae.enc.direction(f)
                }
        }),
{
    let blob = section(tensors_of(sae));
    let bytes = framed(json, blob);
    let n = json.len() as int;
    frame_then_split(json, blob);
    lemma_nothing_refused(path, sae, header, json, 0);
    lemma_cells(path, sae, header, json);
    lemma_row_major_size(sae);
    assert forall|copy: Sae| #[trigger] reads(path, bytes, n, header, copy) implies {
        &&& same_model(sae, copy)
        &&& forall|f: int|
            0 <= f < sae.cfg.d_sae ==> #[trigger] copy.enc.direction(f) == sae.enc.direction(f)
    } by {
        lemma_copy(path, sae, header, json, copy);
    }
}

/// `b` is the SAE `a`, in a layout and on kernels of its own (as
/// [`Sae::repacked`] leaves it, or as it is).
pub open spec fn relaid(a: Sae, b: Sae) -> bool {
    &&& b.wf()
    &&& b.cfg == a.cfg
    &&& b.enc.b_enc@ == a.enc.b_enc@
    &&& forall|f: int| 0 <= f < a.cfg.d_sae ==> #[trigger] b.enc.direction(f) == a.enc.direction(f)
    &&& b.dec == a.dec
    &&& b.sparsifier == a.sparsifier
}

/// A copy encodes as its original: what is read from a written file, brought to
/// the kernels of the SAE that was written, leaves in an output what that SAE may
/// leave there, and on a deterministic unit the two outputs are equal. It decodes
/// as the original does, too.
///
/// With scalar arithmetic the layouts need not agree. A vector backend groups its
/// operations by the layout, so there the copy must have the layout of the original
/// (which is row-major as it is read).
pub proof fn a_copy_encodes_alike<F: Fn(FloatOp) -> u32>(
    path: Seq<char>,
    sae: Sae,
    header: SitHeader,
    json: Seq<u8>,
    read: Sae,
    copy: Sae,
    unit: F,
    x: Seq<u32>,
    batch: int,
    za: SparseOut,
    zb: SparseOut,
    out: Seq<u32>,
)
    requires
        sae.wf(),
        sae.cfg.weight_dtype is F32,
        sae.cfg.d_sae <= u32::MAX,
        header_of(sae, header),
        json.len() <= u32::MAX,
        framed(json, section(tensors_of(sae))).len() <= usize::MAX,
        reads(path, framed(json, section(tensors_of(sae))), json.len() as int, header, read),
        relaid(read, copy),
        copy.enc.layout == sae.enc.layout || sae.backend is Scalar,
        copy.backend == sae.backend,
        copy.topk == sae.topk,
        0 <= batch,
        x.len() == batch * sae.cfg.d_in,
    ensures
        sae.features_of(unit, x, batch, za) <==> copy.features_of(unit, x, batch, za),
        deterministic(unit) && sae.features_of(unit, x, batch, za) && copy.features_of(
            unit,
            x,
            batch,
            zb,
        ) ==> same_output(za, zb),
        decodes(unit, sae.dec, za, out) <==> decodes(unit, copy.dec, za, out),
{
    write_then_read(path, sae, header, json);
    assert forall|f: int| 0 <= f < sae.enc.d_sae implies #[trigger] sae.enc.direction(f)
        == copy.enc.direction(f) by {
        assert(read.enc.direction(f) == sae.enc.direction(f));
        assert(copy.enc.direction(f) == read.enc.direction(f));
    }
    assert(same_parts(sae, copy));
    same_models_encode_alike(sae, copy, unit, x, batch, za, zb);
    same_decoders_decode_alike(sae.dec, copy.dec, unit, za, out);
}

/// Files do not depend on the layout in memory: an SAE whose encoder was packed
/// is written as the SAE that it was packed from.
pub proof fn files_do_not_depend_on_layout(a: Sae, b: Sae, m_r: usize)
    requires
        a.wf(),
        a.enc.layout is RowMajor,
        b.enc.layout == (WeightLayout::PackedPanels { m_r }),
        m_r > 0,
        b.enc.w_enc@ == packed(a.enc.w_enc@, a.enc.d_sae as int, a.enc.d_in as int, m_r as int),
        b.enc.d_sae == a.enc.d_sae,
        b.enc.d_in == a.enc.d_in,
        b.enc.b_enc@ == a.enc.b_enc@,
        b.cfg == a.cfg,
        b.dec == a.dec,
        b.sparsifier == a.sparsifier,
    ensures
        tensors_of(b) == tensors_of(a),
        section(tensors_of(b)) == section(tensors_of(a)),
{
    unpack_undoes_pack(a.enc.w_enc@, a.enc.d_sae as int, a.enc.d_in as int, m_r as int);
    assert(row_major(b.enc) == row_major(a.enc));
    assert(tensors_of(b) =~= tensors_of(a));
}

} // verus!
