//! Where every byte of a `.sit` file stands.

use vstd::prelude::*;

use crate::error::ErrorView;
use crate::index::lemma_position;
use crate::io::bytes::{word_bytes, word_run, words};
use crate::sae::{Sae, WeightLayout};
use crate::sit::container::{framed, header_length, section_start};
use crate::sit::header::{SitHeader, SparsifierKind, TensorEntry};
use crate::sit::reader::{find, first_error, needed, read_error, reads, tensor_at};
use crate::sit::roundtrip::lemma_section_slice;
use crate::sit::{
    describes, header_of, offset_of, padding, row_major, section, tensors_of, TensorSpec,
    FORMAT_VERSION, MAGIC,
};
use crate::sparsify::Sparsifier;
use crate::text::decimal;

verus! {

/// Byte `j` of a number, the lowest first.
pub open spec fn byte_of(w: u32, j: int) -> int {
    if j == 0 {
        w as int % 256
    } else if j == 1 {
        w as int / 256 % 256
    } else if j == 2 {
        w as int / 65536 % 256
    } else {
        w as int / 16777216
    }
}

/// The number at `at`, the lowest byte first.
pub open spec fn number_at(bytes: Seq<u8>, at: int) -> int {
    bytes[at] + 256 * bytes[at + 1] + 65536 * bytes[at + 2] + 16777216 * bytes[at + 3]
}

/// Numbers stand as four bytes each, the lowest first, and are read as they stand.
pub proof fn numbers_stand_lowest_byte_first(ws: Seq<u32>, bytes: Seq<u8>)
    ensures
        word_run(ws).len() == 4 * ws.len(),
        forall|i: int, j: int|
            0 <= i < ws.len() && 0 <= j < 4 ==> #[trigger] word_run(ws)[4 * i + j] == byte_of(
                ws[i],
                j,
            ),
        words(bytes).len() == bytes.len() / 4,
        forall|i: int|
            0 <= i < bytes.len() / 4 ==> #[trigger] words(bytes)[i] == number_at(bytes, 4 * i),
{
    assert forall|i: int, j: int| 0 <= i < ws.len() && 0 <= j < 4 implies #[trigger] word_run(
        ws,
    )[4 * i + j] == byte_of(ws[i], j) by {
        assert((4 * i + j) / 4 == i && (4 * i + j) % 4 == j);
    }
}

/// A file is the eight bytes `SAEITOSI`, the version 1, the length of the header text
/// (two numbers of four bytes, the lowest first), the text, zeros up to the next
/// multiple of 64, and the tensor section.
pub proof fn a_file_is_laid_out(json: Seq<u8>, blob: Seq<u8>)
    requires
        json.len() <= u32::MAX,
    ensures
        ({
            let bytes = framed(json, blob);
            let n = json.len() as int;
            let start = bytes.len() - blob.len();
            &&& bytes[0] == 0x53 && bytes[1] == 0x41 && bytes[2] == 0x45 && bytes[3] == 0x49
            &&& bytes[4] == 0x54 && bytes[5] == 0x4f && bytes[6] == 0x53 && bytes[7] == 0x49
            &&& bytes[8] == 1 && bytes[9] == 0 && bytes[10] == 0 && bytes[11] == 0
            &&& number_at(bytes, 12) == n
            &&& forall|i: int| 0 <= i < n ==> #[trigger] bytes[16 + i] == json[i]
            &&& forall|i: int| 16 + n <= i < start ==> #[trigger] bytes[i] == 0
            &&& 16 + n <= start < 16 + n + 64
            &&& start % 64 == 0
            &&& forall|i: int| 0 <= i < blob.len() ==> #[trigger] bytes[start + i] == blob[i]
        }),
{
    let bytes = framed(json, blob);
    let n = json.len() as int;
    assert(MAGIC@ =~= seq![0x53u8, 0x41, 0x45, 0x49, 0x54, 0x4f, 0x53, 0x49]);
    assert(word_bytes(FORMAT_VERSION) =~= seq![1u8, 0, 0, 0]);
    let len = word_bytes(n as u32);
    assert(bytes[12] == len[0] && bytes[13] == len[1] && bytes[14] == len[2] && bytes[15] == len[3]);
    assert(bytes.len() == 16 + n + padding(16 + n) + blob.len());
}

/// A file is taken apart if and only if it is long enough, starts with the magic bytes
/// and the version 1, and reaches as far as its header length says.
pub proof fn a_file_is_split_by_its_frame(bytes: Seq<u8>)
    ensures
        header_length(bytes) is Ok <==> {
            &&& bytes.len() >= 16
            &&& bytes[0] == 0x53 && bytes[1] == 0x41 && bytes[2] == 0x45 && bytes[3] == 0x49
            &&& bytes[4] == 0x54 && bytes[5] == 0x4f && bytes[6] == 0x53 && bytes[7] == 0x49
            &&& bytes[8] == 1 && bytes[9] == 0 && bytes[10] == 0 && bytes[11] == 0
            &&& bytes.len() >= 16 + number_at(bytes, 12)
        },
        header_length(bytes) matches Ok(n) ==> n == number_at(bytes, 12),
{
    if bytes.len() >= 16 {
        let magic = seq![0x53u8, 0x41, 0x45, 0x49, 0x54, 0x4f, 0x53, 0x49];
        assert(MAGIC@ =~= magic);
        let head = bytes.subrange(0, 8);
        assert(head == magic <==> {
            &&& bytes[0] == 0x53 && bytes[1] == 0x41 && bytes[2] == 0x45 && bytes[3] == 0x49
            &&& bytes[4] == 0x54 && bytes[5] == 0x4f && bytes[6] == 0x53 && bytes[7] == 0x49
        }) by {
            if head == magic {
                assert(head[0] == 0x53 && head[1] == 0x41 && head[2] == 0x45 && head[3] == 0x49);
                assert(head[4] == 0x54 && head[5] == 0x4f && head[6] == 0x53 && head[7] == 0x49);
            } else if {
                &&& bytes[0] == 0x53 && bytes[1] == 0x41 && bytes[2] == 0x45 && bytes[3] == 0x49
                &&& bytes[4] == 0x54 && bytes[5] == 0x4f && bytes[6] == 0x53 && bytes[7] == 0x49
            } {
                assert(head =~= magic);
            }
        }
        let v = bytes.subrange(8, 12);
        assert(v[0] == bytes[8] && v[1] == bytes[9] && v[2] == bytes[10] && v[3] == bytes[11]);
        let l = bytes.subrange(12, 16);
        assert(l[0] == bytes[12] && l[1] == bytes[13] && l[2] == bytes[14] && l[3] == bytes[15]);
    }
}

/// The weight of feature `f` on input `k` of an SAE, wherever its layout has it.
pub open spec fn weight_of(sae: Sae, f: int, k: int) -> u32 {
    match sae.enc.layout {
        WeightLayout::RowMajor => sae.enc.w_enc@[f * sae.cfg.d_in + k],
        WeightLayout::PackedPanels { m_r } => sae.enc.w_enc@[(f / m_r as int) * (m_r
            * sae.cfg.d_in) + k * m_r + f % (m_r as int)],
    }
}

/// The `n` numbers `cells(0)`, `cells(1)` and so on stand in a tensor section from
/// `offset` on.
pub open spec fn holds(section: Seq<u8>, offset: int, n: int, cells: spec_fn(int) -> u32) -> bool {
    &&& offset % 64 == 0
    &&& 0 <= offset
    &&& offset + 4 * n <= section.len()
    &&& forall|i: int, j: int|
        0 <= i < n && 0 <= j < 4 ==> #[trigger] section[offset + (4 * i + j)] == byte_of(cells(i), j)
}

/// `entry` is a single-precision tensor of the given name and shape, with its numbers
/// in the section.
pub open spec fn is_tensor(
    entry: TensorEntry,
    blob: Seq<u8>,
    name: Seq<char>,
    shape: Seq<usize>,
    n: int,
    cells: spec_fn(int) -> u32,
) -> bool {
    &&& entry.name@ == name
    &&& entry.dtype@ == "f32"@
    &&& entry.shape@ == shape
    &&& entry.nbytes == 4 * n
    &&& entry.scale_tensor is None
    &&& holds(blob, entry.offset as int, n, cells)
}

/// Tensor `i` of a section.
proof fn lemma_is_tensor(
    ts: Seq<TensorSpec>,
    entry: TensorEntry,
    i: int,
    cells: spec_fn(int) -> u32,
)
    requires
        0 <= i < ts.len(),
        describes(entry, ts, i),
        forall|p: int| 0 <= p < ts[i].2.len() ==> #[trigger] ts[i].2[p] == cells(p),
    ensures
        is_tensor(entry, section(ts), ts[i].0, ts[i].1, ts[i].2.len() as int, cells),
{
    lemma_section_slice(ts, i);
    let lo = offset_of(ts, i);
    let all = section(ts);
    let data = ts[i].2;
    numbers_stand_lowest_byte_first(data, Seq::empty());
    assert forall|p: int, j: int| 0 <= p < data.len() && 0 <= j < 4 implies #[trigger] all[lo + (4 * p
        + j)] == byte_of(cells(p), j) by {
        assert(data[p] == cells(p));
        assert(all.subrange(lo, lo + 4 * data.len())[4 * p + j] == word_run(data)[4 * p + j]);
    }
}

/// A written SAE is its configuration, the kind of its sparsifier, and its tensors: the
/// encoder's matrix row by row as `[d_sae, d_in]` (whatever layout it has in memory),
/// the encoder's bias, the decoder's matrix, the decoder's bias, and then the rescaling
/// factors of TopK or the thresholds of JumpReLU, where there are any.
pub proof fn a_written_model_is_laid_out(sae: Sae, header: SitHeader)
    requires
        sae.wf(),
        header_of(sae, header),
    ensures
        header.config == sae.cfg,
        ({
            let blob = section(tensors_of(sae));
            let es = header.tensors@;
            let d_sae = sae.cfg.d_sae;
            let d_in = sae.cfg.d_in;
            &&& es.len() >= 4
            &&& is_tensor(
                es[0],
                blob,
                "W_enc"@,
                seq![d_sae, d_in],
                d_sae * d_in,
                |p: int| weight_of(sae, p / d_in as int, p % (d_in as int)),
            )
            &&& is_tensor(
                es[1],
                blob,
                "b_enc"@,
                seq![d_sae],
                d_sae as int,
                |p: int| sae.enc.b_enc@[p],
            )
            &&& is_tensor(
                es[2],
                blob,
                "W_dec"@,
                seq![d_sae, d_in],
                d_sae * d_in,
                |p: int| sae.dec.w_dec@[p],
            )
            &&& is_tensor(
                es[3],
                blob,
                "b_dec"@,
                seq![d_in],
                d_in as int,
                |p: int| sae.dec.b_dec@[p],
            )
            &&& match sae.sparsifier {
                Sparsifier::TopK { k, post_relu, rescale } => {
                    &&& header.sparsifier == (SparsifierKind::Topk {
                        k,
                        post_relu,
                        has_rescale: rescale is Some,
                    })
                    &&& match rescale {
                        Some(r) => es.len() == 5 && is_tensor(
                            es[4],
                            blob,
                            "rescale"@,
                            seq![d_sae],
                            r@.len() as int,
                            |p: int| r@[p],
                        ),
                        None => es.len() == 4,
                    }
                },
                Sparsifier::JumpReLU { thresholds } => {
                    &&& header.sparsifier is Jumprelu
                    &&& es.len() == 5
                    &&& is_tensor(
                        es[4],
                        blob,
                        "threshold"@,
                        seq![d_sae],
                        thresholds@.len() as int,
                        |p: int| thresholds@[p],
                    )
                },
                Sparsifier::Relu => header.sparsifier is Relu && es.len() == 4,
            }
        }),
{
    let ts = tensors_of(sae);
    let es = header.tensors@;
    let d_sae = sae.cfg.d_sae as int;
    let d_in = sae.cfg.d_in as int;
    let cell = |p: int| weight_of(sae, p / d_in, p % d_in);
    let rm = row_major(sae.enc);
    vstd::arithmetic::mul::lemma_mul_nonnegative(d_sae, d_in);
    assert(describes(es[0], ts, 0) && describes(es[1], ts, 1) && describes(es[2], ts, 2)
        && describes(es[3], ts, 3));
    assert(ts[0].2 == rm && rm.len() == d_sae * d_in);
    assert forall|p: int| 0 <= p < rm.len() implies #[trigger] rm[p] == cell(p) by {
        lemma_position(d_sae, d_in, p);
    }
    lemma_is_tensor(ts, es[0], 0, cell);
    lemma_is_tensor(ts, es[1], 1, |p: int| sae.enc.b_enc@[p]);
    lemma_is_tensor(ts, es[2], 2, |p: int| sae.dec.w_dec@[p]);
    lemma_is_tensor(ts, es[3], 3, |p: int| sae.dec.b_dec@[p]);
    match sae.sparsifier {
        Sparsifier::TopK { rescale: Some(r), .. } => {
            assert(describes(es[4], ts, 4));
            lemma_is_tensor(ts, es[4], 4, |p: int| r@[p]);
        },
        Sparsifier::JumpReLU { thresholds } => {
            assert(describes(es[4], ts, 4));
            lemma_is_tensor(ts, es[4], 4, |p: int| thresholds@[p]);
        },
        _ => {},
    }
}

/// Entry `i` is the first of its name.
pub open spec fn is_first(entries: Seq<TensorEntry>, name: Seq<char>, i: int) -> bool {
    &&& 0 <= i < entries.len()
    &&& entries[i].name@ == name
    &&& forall|j: int| 0 <= j < i ==> (#[trigger] entries[j]).name@ != name
}

/// `v` are the numbers of the first entry of a name, which is single precision and lies
/// inside the file. Its offset counts from `start`.
pub open spec fn is_taken(
    bytes: Seq<u8>,
    start: int,
    entries: Seq<TensorEntry>,
    name: Seq<char>,
    i: int,
    v: Seq<u32>,
) -> bool {
    &&& is_first(entries, name, i)
    &&& entries[i].dtype@ == "f32"@
    &&& start + entries[i].offset + entries[i].nbytes <= bytes.len()
    &&& v.len() == entries[i].nbytes as int / 4
    &&& forall|p: int|
        0 <= p < v.len() ==> #[trigger] v[p] == number_at(bytes, start + entries[i].offset + 4 * p)
}

/// What is found by name is the first of its name.
proof fn lemma_found(entries: Seq<TensorEntry>, name: Seq<char>, from: int) -> (i: int)
    requires
        0 <= from,
        find(entries, name, from) is Some,
    ensures
        from <= i < entries.len(),
        entries[i].name@ == name,
        find(entries, name, from) == Some(entries[i]),
        forall|j: int| from <= j < i ==> (#[trigger] entries[j]).name@ != name,
    decreases entries.len() - from,
{
    if entries[from].name@ == name {
        from
    } else {
        lemma_found(entries, name, from + 1)
    }
}

/// A tensor that can be read is the first of its name.
proof fn lemma_taken(
    path: Seq<char>,
    bytes: Seq<u8>,
    start: int,
    entries: Seq<TensorEntry>,
    name: Seq<char>,
) -> (i: int)
    requires
        0 <= start,
        tensor_at(path, bytes, start, entries, name) is Ok,
    ensures
        is_taken(
            bytes,
            start,
            entries,
            name,
            i,
            tensor_at(path, bytes, start, entries, name)->Ok_0,
        ),
{
    let i = lemma_found(entries, name, 0);
    let e = entries[i];
    let lo = start + e.offset;
    let part = bytes.subrange(lo, lo + e.nbytes);
    numbers_stand_lowest_byte_first(Seq::empty(), part);
    assert forall|p: int| 0 <= p < words(part).len() implies #[trigger] words(part)[p] == number_at(
        bytes,
        lo + 4 * p,
    ) by {
        assert(part[4 * p] == bytes[lo + 4 * p]);
        assert(part[4 * p + 1] == bytes[lo + 4 * p + 1]);
        assert(part[4 * p + 2] == bytes[lo + 4 * p + 2]);
        assert(part[4 * p + 3] == bytes[lo + 4 * p + 3]);
    }
    i
}

/// Every needed tensor of a file that is read can be read.
proof fn lemma_all_read(
    path: Seq<char>,
    bytes: Seq<u8>,
    start: int,
    header: SitHeader,
    from: int,
    i: int,
)
    requires
        0 <= from <= i < needed(header.sparsifier).len(),
        first_error(path, bytes, start, header, from) is None,
    ensures
        tensor_at(path, bytes, start, header.tensors@, needed(header.sparsifier)[i]) is Ok,
    decreases i - from,
{
    if from < i {
        lemma_all_read(path, bytes, start, header, from + 1, i);
    }
}

/// A model that is read takes its configuration from the header and its tensors from
/// the entries of their names, the first of a name counting. The tensor section starts
/// at the first multiple of 64 behind the header text. The matrices are row-major, and
/// the sparsifier is the one that the header describes, with the factors or thresholds
/// of the tensor of that name.
pub proof fn a_read_model_takes_its_tensors(
    path: Seq<char>,
    bytes: Seq<u8>,
    header_len: int,
    header: SitHeader,
    sae: Sae,
)
    requires
        0 <= header_len,
        read_error(path, bytes, header_len, header) is None,
        reads(path, bytes, header_len, header, sae),
    ensures
        sae.wf(),
        sae.cfg == header.config,
        sae.cfg.weight_dtype is F32,
        sae.enc.layout is RowMajor,
        16 + header_len <= section_start(header_len) < 16 + header_len + 64,
        section_start(header_len) % 64 == 0,
        ({
            let start = section_start(header_len);
            let es = header.tensors@;
            &&& exists|i: int| #[trigger] is_taken(bytes, start, es, "W_enc"@, i, sae.enc.w_enc@)
            &&& exists|i: int| #[trigger] is_taken(bytes, start, es, "b_enc"@, i, sae.enc.b_enc@)
            &&& exists|i: int| #[trigger] is_taken(bytes, start, es, "W_dec"@, i, sae.dec.w_dec@)
            &&& exists|i: int| #[trigger] is_taken(bytes, start, es, "b_dec"@, i, sae.dec.b_dec@)
            &&& match sae.sparsifier {
                Sparsifier::TopK { k, post_relu, rescale } => {
                    &&& header.sparsifier == (SparsifierKind::Topk {
                        k,
                        post_relu,
                        has_rescale: rescale is Some,
                    })
                    &&& rescale matches Some(r) ==> exists|i: int| #[trigger]
                        is_taken(bytes, start, es, "rescale"@, i, r@)
                },
                Sparsifier::JumpReLU { thresholds } => {
                    &&& header.sparsifier is Jumprelu
                    &&& exists|i: int| #[trigger]
                        is_taken(bytes, start, es, "threshold"@, i, thresholds@)
                },
                Sparsifier::Relu => header.sparsifier is Relu,
            }
        }),
{
    let start = section_start(header_len);
    let es = header.tensors@;
    let names = needed(header.sparsifier);
    assert(names[0] == "W_enc"@ && names[1] == "b_enc"@ && names[2] == "W_dec"@ && names[3]
        == "b_dec"@);
    lemma_all_read(path, bytes, start, header, 0, 0);
    lemma_all_read(path, bytes, start, header, 0, 1);
    lemma_all_read(path, bytes, start, header, 0, 2);
    lemma_all_read(path, bytes, start, header, 0, 3);
    let a = lemma_taken(path, bytes, start, es, "W_enc"@);
    let b = lemma_taken(path, bytes, start, es, "b_enc"@);
    let c = lemma_taken(path, bytes, start, es, "W_dec"@);
    let d = lemma_taken(path, bytes, start, es, "b_dec"@);
    assert(is_taken(bytes, start, es, "W_enc"@, a, sae.enc.w_enc@));
    if names.len() == 5 {
        lemma_all_read(path, bytes, start, header, 0, 4);
        let e = lemma_taken(path, bytes, start, es, names[4]);
    }
}

/// The first entry of a name can be read: it is there, single precision, and inside the
/// file.
pub open spec fn can_be_taken(
    bytes: Seq<u8>,
    start: int,
    entries: Seq<TensorEntry>,
    name: Seq<char>,
    i: int,
) -> bool {
    &&& is_first(entries, name, i)
    &&& entries[i].dtype@ == "f32"@
    &&& start + entries[i].offset + entries[i].nbytes <= bytes.len()
}

/// A tensor can be read if and only if the first entry of its name can.
proof fn lemma_can_be_taken(
    path: Seq<char>,
    bytes: Seq<u8>,
    start: int,
    entries: Seq<TensorEntry>,
    name: Seq<char>,
)
    requires
        0 <= start,
    ensures
        tensor_at(path, bytes, start, entries, name) is Ok <==> exists|i: int| #[trigger]
            can_be_taken(bytes, start, entries, name, i),
        tensor_at(path, bytes, start, entries, name) matches Ok(v) ==> exists|i: int| #[trigger]
            can_be_taken(bytes, start, entries, name, i) && v.len() == entries[i].nbytes as int / 4,
        (forall|i: int| 0 <= i < entries.len() ==> (#[trigger] entries[i]).name@ != name)
            ==> tensor_at(path, bytes, start, entries, name) == Err::<Seq<u32>, _>(
            ErrorView::MissingTensor(name),
        ),
{
    if find(entries, name, 0) is Some {
        let i = lemma_found(entries, name, 0);
        if tensor_at(path, bytes, start, entries, name) is Ok {
            assert(can_be_taken(bytes, start, entries, name, i));
        }
        if exists|j: int| #[trigger] can_be_taken(bytes, start, entries, name, j) {
            let j = choose|j: int| #[trigger] can_be_taken(bytes, start, entries, name, j);
            assert(!(i < j)) by {
                if i < j {
                    assert(entries[i].name@ != name);
                }
            }
            assert(!(j < i)) by {
                if j < i {
                    assert(entries[j].name@ != name);
                }
            }
        }
        assert(entries[i].name@ == name);
    } else {
        assert forall|j: int| 0 <= j < entries.len() implies (#[trigger] entries[j]).name@ != name by {
            lemma_not_found(entries, name, 0, j);
        }
    }
}

/// What is not found by name has no entry.
proof fn lemma_not_found(entries: Seq<TensorEntry>, name: Seq<char>, from: int, j: int)
    requires
        0 <= from <= j < entries.len(),
        find(entries, name, from) is None,
    ensures
        entries[j].name@ != name,
    decreases j - from,
{
    if from < j {
        lemma_not_found(entries, name, from + 1, j);
    }
}

/// A tensor of a name can be read, and has `n` numbers.
pub open spec fn has_numbers(
    bytes: Seq<u8>,
    start: int,
    entries: Seq<TensorEntry>,
    name: Seq<char>,
    n: int,
) -> bool {
    exists|i: int| #[trigger]
        can_be_taken(bytes, start, entries, name, i) && entries[i].nbytes as int / 4 == n
}

/// A file is read if and only if its configuration claims single precision, the four weight
/// tensors can be read and have as many numbers as the configuration asks for, and the
/// factors or thresholds of its sparsifier can be read. A tensor that is missing is
/// reported by its name.
pub proof fn a_file_is_read_if_it_fits(
    path: Seq<char>,
    bytes: Seq<u8>,
    header_len: int,
    header: SitHeader,
)
    requires
        0 <= header_len,
    ensures
        ({
            let start = section_start(header_len);
            let es = header.tensors@;
            let d_sae = header.config.d_sae as int;
            let d_in = header.config.d_in as int;
            &&& read_error(path, bytes, header_len, header) is None <==> {
                &&& header.config.weight_dtype is F32
                &&& has_numbers(bytes, start, es, "W_enc"@, d_sae * d_in)
                &&& has_numbers(bytes, start, es, "b_enc"@, d_sae)
                &&& has_numbers(bytes, start, es, "W_dec"@, d_sae * d_in)
                &&& has_numbers(bytes, start, es, "b_dec"@, d_in)
                &&& match header.sparsifier {
                    SparsifierKind::Topk { has_rescale, .. } => has_rescale ==> exists|i: int|
                        #[trigger] can_be_taken(bytes, start, es, "rescale"@, i),
                    SparsifierKind::Jumprelu => exists|i: int| #[trigger]
                        can_be_taken(bytes, start, es, "threshold"@, i),
                    SparsifierKind::Relu => true,
                }
            }
            &&& header.config.weight_dtype is F32 && (forall|i: int|
                0 <= i < es.len() ==> (#[trigger] es[i]).name@ != "W_enc"@) ==> read_error(
                path,
                bytes,
                header_len,
                header,
            ) == Some(ErrorView::MissingTensor("W_enc"@))
        }),
{
    let start = section_start(header_len);
    let es = header.tensors@;
    reveal_with_fuel(first_error, 6);
    let names = needed(header.sparsifier);
    assert(names[0] == "W_enc"@ && names[1] == "b_enc"@ && names[2] == "W_dec"@ && names[3]
        == "b_dec"@);
    lemma_has_numbers(path, bytes, start, es, "W_enc"@);
    lemma_has_numbers(path, bytes, start, es, "b_enc"@);
    lemma_has_numbers(path, bytes, start, es, "W_dec"@);
    lemma_has_numbers(path, bytes, start, es, "b_dec"@);
    lemma_can_be_taken(path, bytes, start, es, "W_enc"@);
    lemma_can_be_taken(path, bytes, start, es, "rescale"@);
    lemma_can_be_taken(path, bytes, start, es, "threshold"@);
}

/// The numbers of a tensor that can be read.
proof fn lemma_has_numbers(
    path: Seq<char>,
    bytes: Seq<u8>,
    start: int,
    entries: Seq<TensorEntry>,
    name: Seq<char>,
)
    requires
        0 <= start,
    ensures
        forall|n: int| #[trigger]
            has_numbers(bytes, start, entries, name, n) <==> (tensor_at(
                path,
                bytes,
                start,
                entries,
                name,
            ) matches Ok(v) && v.len() == n),
{
    lemma_can_be_taken(path, bytes, start, entries, name);
    assert forall|n: int| #[trigger] has_numbers(bytes, start, entries, name, n) implies (tensor_at(
        path,
        bytes,
        start,
        entries,
        name,
    ) matches Ok(v) && v.len() == n) by {
        let i = choose|i: int| #[trigger]
            can_be_taken(bytes, start, entries, name, i) && entries[i].nbytes as int / 4 == n;
        let j = choose|j: int| #[trigger]
            can_be_taken(bytes, start, entries, name, j) && tensor_at(
                path,
                bytes,
                start,
                entries,
                name,
            )->Ok_0.len() == entries[j].nbytes as int / 4;
        assert(!(i < j)) by {
            if i < j {
                assert(entries[i].name@ != name);
            }
        }
        assert(!(j < i)) by {
            if j < i {
                assert(entries[j].name@ != name);
            }
        }
    }
}

/// What a frame is refused for, in order: a file of fewer than 16 bytes, other bytes than
/// the magic ones, another version, and a header that reaches past the end.
pub proof fn a_frame_is_refused_for(bytes: Seq<u8>)
    ensures
        header_length(bytes) matches Err(reason) ==> {
            let magic = seq![0x53u8, 0x41, 0x45, 0x49, 0x54, 0x4f, 0x53, 0x49];
            let version = number_at(bytes, 8);
            &&& bytes.len() < 16 ==> reason == "file too small for sit header"@
            &&& bytes.len() >= 16 && bytes.subrange(0, 8) != magic ==> reason
                == "missing SAEITOSI magic"@
            &&& bytes.len() >= 16 && bytes.subrange(0, 8) == magic && version != 1 ==> reason
                == "unsupported sit version "@ + decimal(version as nat) + " (expected "@ + decimal(
                1,
            ) + ")"@
            &&& bytes.len() >= 16 && bytes.subrange(0, 8) == magic && version == 1 ==> reason
                == "header_len exceeds file size"@
        },
{
    assert(MAGIC@ =~= seq![0x53u8, 0x41, 0x45, 0x49, 0x54, 0x4f, 0x53, 0x49]);
    if bytes.len() >= 16 {
        let v = bytes.subrange(8, 12);
        assert(v[0] == bytes[8] && v[1] == bytes[9] && v[2] == bytes[10] && v[3] == bytes[11]);
    }
}

/// What a tensor is refused for: there is none of its name, it is stored in another dtype,
/// or it reaches past the end of the file.
pub proof fn a_tensor_is_refused_for(
    path: Seq<char>,
    bytes: Seq<u8>,
    start: int,
    entries: Seq<TensorEntry>,
    name: Seq<char>,
    i: int,
)
    requires
        0 <= start,
    ensures
        (forall|j: int| 0 <= j < entries.len() ==> (#[trigger] entries[j]).name@ != name)
            ==> tensor_at(path, bytes, start, entries, name) == Err::<Seq<u32>, _>(
            ErrorView::MissingTensor(name),
        ),
        is_first(entries, name, i) && entries[i].dtype@ != "f32"@ ==> tensor_at(
            path,
            bytes,
            start,
            entries,
            name,
        ) == Err::<Seq<u32>, _>(ErrorView::UnsupportedDtype(entries[i].dtype@)),
        is_first(entries, name, i) && entries[i].dtype@ == "f32"@ && start + entries[i].offset
            + entries[i].nbytes > bytes.len() ==> tensor_at(path, bytes, start, entries, name)
            == Err::<Seq<u32>, _>(
            ErrorView::InvalidCheckpoint {
                path,
                reason: "tensor "@ + name + " extends past EOF"@,
            },
        ),
{
    lemma_can_be_taken(path, bytes, start, entries, name);
    if is_first(entries, name, i) {
        if find(entries, name, 0) is None {
            lemma_not_found(entries, name, 0, i);
        }
        let j = lemma_found(entries, name, 0);
        assert(!(i < j)) by {
            if i < j {
                assert(entries[i].name@ != name);
            }
        }
        assert(!(j < i)) by {
            if j < i {
                assert(entries[j].name@ != name);
            }
        }
    }
}

} // verus!
