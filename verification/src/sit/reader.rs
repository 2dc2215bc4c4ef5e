//! Reading an SAE from the bytes and the parsed header of a `.sit` file.

use vstd::prelude::*;
use vstd::string::*;

use crate::config::WeightDtype;
use crate::error::{ErrorView, SaeError};
use crate::io::bytes::{read_words, words};
use crate::kernels::Backend;
use crate::sae::{lengths_error, DecoderWeights, EncoderWeights, Sae, WeightLayout};
use crate::sit::container::section_start;
use crate::sit::header::{SitHeader, SparsifierKind, TensorEntry};
use crate::sit::{pad_to, ALIGN};
use crate::sparsify::Sparsifier;
use crate::text::same;

verus! {

/// The first entry of a name from position `i` on, if there is one.
pub open spec fn find(entries: Seq<TensorEntry>, name: Seq<char>, i: int) -> Option<TensorEntry>
    decreases entries.len() - i,
{
    if i < 0 || i >= entries.len() {
        None
    } else if entries[i].name@ == name {
        Some(entries[i])
    } else {
        find(entries, name, i + 1)
    }
}

/// The bytes of an entry lie inside a file whose tensor section starts at
/// `start`.
pub open spec fn inside(n_bytes: int, start: int, entry: TensorEntry) -> bool {
    start + entry.offset + entry.nbytes <= n_bytes
}

/// The tensor of a name in a file, or what is wrong with it.
pub open spec fn tensor_at(
    path: Seq<char>,
    bytes: Seq<u8>,
    start: int,
    entries: Seq<TensorEntry>,
    name: Seq<char>,
) -> Result<Seq<u32>, ErrorView> {
    match find(entries, name, 0) {
        None => Err(ErrorView::MissingTensor(name)),
        Some(entry) => if entry.dtype@ != "f32"@ {
            Err(ErrorView::UnsupportedDtype(entry.dtype@))
        } else if !inside(bytes.len() as int, start, entry) {
            Err(
                ErrorView::InvalidCheckpoint {
                    path,
                    reason: "tensor "@ + name + " extends past EOF"@,
                },
            )
        } else {
            Ok(
                words(
                    bytes.subrange(
                        start + entry.offset,
                        start + entry.offset + entry.nbytes,
                    ),
                ),
            )
        },
    }
}

/// The tensor of a name, if it can be read, is made of whole words.
pub open spec fn whole(bytes: Seq<u8>, start: int, entries: Seq<TensorEntry>, name: Seq<char>) -> bool {
    find(entries, name, 0) matches Some(entry) ==> entry.dtype@ == "f32"@ && inside(
        bytes.len() as int,
        start,
        entry,
    ) ==> entry.nbytes % 4 == 0
}

/// The names of the tensors that a file must have, in the order in which they
/// are read.
pub open spec fn needed(kind: SparsifierKind) -> Seq<Seq<char>> {
    let weights = seq!["W_enc"@, "b_enc"@, "W_dec"@, "b_dec"@];
    match kind {
        SparsifierKind::Topk { has_rescale: true, .. } => weights.push("rescale"@),
        SparsifierKind::Topk { has_rescale: false, .. } => weights,
        SparsifierKind::Jumprelu => weights.push("threshold"@),
        SparsifierKind::Relu => weights,
    }
}

/// The first error among the tensors from the `i`-th needed one on, if there is
/// one.
pub open spec fn first_error(
    path: Seq<char>,
    bytes: Seq<u8>,
    start: int,
    header: SitHeader,
    i: int,
) -> Option<ErrorView>
    decreases needed(header.sparsifier).len() - i,
{
    let names = needed(header.sparsifier);
    if i < 0 || i >= names.len() {
        None
    } else {
        match tensor_at(path, bytes, start, header.tensors@, names[i]) {
            Err(e) => Some(e),
            Ok(_) => first_error(path, bytes, start, header, i + 1),
        }
    }
}

/// Every needed tensor that is reached is made of whole words. (A tensor is
/// reached if those before it could be read.)
pub open spec fn wholes(
    path: Seq<char>,
    bytes: Seq<u8>,
    start: int,
    header: SitHeader,
    i: int,
) -> bool
    decreases needed(header.sparsifier).len() - i,
{
    let names = needed(header.sparsifier);
    0 <= i < names.len() ==> {
        &&& whole(bytes, start, header.tensors@, names[i])
        &&& tensor_at(path, bytes, start, header.tensors@, names[i]) is Ok ==> wholes(
            path,
            bytes,
            start,
            header,
            i + 1,
        )
    }
}

/// A file can be read, or refused: the tensor section starts at an address,
/// every tensor that is reached is made of whole words, and the size of a weight
/// matrix, if it is reached, can be held in a `usize`.
pub open spec fn readable(
    path: Seq<char>,
    bytes: Seq<u8>,
    header_len: int,
    header: SitHeader,
) -> bool {
    let start = section_start(header_len);
    &&& start <= usize::MAX
    &&& header.config.weight_dtype is F32 ==> {
        &&& wholes(path, bytes, start, header, 0)
        &&& first_error(path, bytes, start, header, 0) is None ==> header.config.d_sae
            * header.config.d_in <= usize::MAX
    }
}

/// The name of a dtype.
pub open spec fn dtype_name(d: WeightDtype) -> Seq<char> {
    match d {
        WeightDtype::F32 => "F32"@,
        WeightDtype::F16 => "F16"@,
        WeightDtype::Bf16 => "Bf16"@,
        WeightDtype::I8 => "I8"@,
    }
}

/// The elements of a needed tensor.
pub open spec fn cells(
    path: Seq<char>,
    bytes: Seq<u8>,
    start: int,
    header: SitHeader,
    name: Seq<char>,
) -> Seq<u32> {
    tensor_at(path, bytes, start, header.tensors@, name)->Ok_0
}

/// What keeps a file from being read, if anything does: its dtype, then a
/// tensor, then a length.
pub open spec fn read_error(
    path: Seq<char>,
    bytes: Seq<u8>,
    header_len: int,
    header: SitHeader,
) -> Option<ErrorView> {
    let start = section_start(header_len);
    let cfg = header.config;
    if cfg.weight_dtype !is F32 {
        Some(
            ErrorView::UnsupportedDtype(
                "v0 sit reader only handles f32, got "@ + dtype_name(cfg.weight_dtype),
            ),
        )
    } else if let Some(e) = first_error(path, bytes, start, header, 0) {
        Some(e)
    } else {
        lengths_error(
            cfg,
            cfg.d_sae * cfg.d_in,
            cells(path, bytes, start, header, "W_enc"@).len() as int,
            cells(path, bytes, start, header, "W_dec"@).len() as int,
            cells(path, bytes, start, header, "b_enc"@).len() as int,
            cells(path, bytes, start, header, "b_dec"@).len() as int,
        )
    }
}

/// `sae` is what a file holds.
pub open spec fn reads(
    path: Seq<char>,
    bytes: Seq<u8>,
    header_len: int,
    header: SitHeader,
    sae: Sae,
) -> bool {
    let start = section_start(header_len);
    &&& sae.wf()
    &&& sae.cfg == header.config
    &&& sae.enc.layout is RowMajor
    &&& sae.enc.w_enc@ == cells(path, bytes, start, header, "W_enc"@)
    &&& sae.enc.b_enc@ == cells(path, bytes, start, header, "b_enc"@)
    &&& sae.dec.w_dec@ == cells(path, bytes, start, header, "W_dec"@)
    &&& sae.dec.b_dec@ == cells(path, bytes, start, header, "b_dec"@)
    &&& match header.sparsifier {
        SparsifierKind::Topk { k, post_relu, has_rescale } => {
            &&& sae.sparsifier matches Sparsifier::TopK { k: sk, post_relu: sp, rescale }
            &&& sk == k
            &&& sp == post_relu
            &&& match rescale {
                Some(r) => has_rescale && r@ == cells(path, bytes, start, header, "rescale"@),
                None => !has_rescale,
            }
        },
        SparsifierKind::Jumprelu => {
            &&& sae.sparsifier matches Sparsifier::JumpReLU { thresholds }
            &&& thresholds@ == cells(path, bytes, start, header, "threshold"@)
        },
        SparsifierKind::Relu => sae.sparsifier is Relu,
    }
}

/// Find the first entry of a name.
fn find_entry<'a>(entries: &'a Vec<TensorEntry>, name: &str) -> (res: Option<&'a TensorEntry>)
    ensures
        match find(entries@, name@, 0) {
            Some(entry) => res matches Some(e) && *e == entry,
            None => res is None,
        },
{
    let mut i: usize = 0;
    while i < entries.len()
        invariant
            i <= entries@.len(),
            find(entries@, name@, 0) == find(entries@, name@, i as int),
        decreases entries@.len() - i,
    {
        if same(entries[i].name.as_str(), name) {
            return Some(&entries[i]);
        }
        i += 1;
    }
    None
}

/// Read the tensor of a name.
fn read_tensor(
    path: &str,
    bytes: &[u8],
    start: usize,
    entries: &Vec<TensorEntry>,
    name: &str,
) -> (res: Result<
    Vec<u32>,
    SaeError,
>)
    requires
        whole(bytes@, start as int, entries@, name@),
    ensures
        match tensor_at(path@, bytes@, start as int, entries@, name@) {
            Ok(cells) => res matches Ok(v) && v@ == cells,
            Err(err) => res matches Err(e) && e@ == err,
        },
{
    let n_bytes: usize = bytes.len();
    let entry: &TensorEntry = match find_entry(entries, name) {
        Some(e) => e,
        None => {
            return Err(SaeError::MissingTensor(name.to_owned()));
        },
    };
    if !same(entry.dtype.as_str(), "f32") {
        return Err(SaeError::UnsupportedDtype(entry.dtype.as_str().to_owned()));
    }
    if start > n_bytes || entry.offset > (n_bytes - start) as u64 || entry.nbytes > (n_bytes
        - start) as u64 - entry.offset {
        let mut reason: String = "tensor ".to_owned();
        reason.append(name);
        reason.append(" extends past EOF");
        return Err(SaeError::invalid(path, reason.as_str()));
    }
    let from: usize = start + entry.offset as usize;
    let to: usize = from + entry.nbytes as usize;
    let part: &[u8] = vstd::slice::slice_subrange(bytes, from, to);
    Ok(read_words(part).unwrap())
}

/// The text of a dtype.
fn dtype_text(d: WeightDtype) -> (res: &'static str)
    ensures
        res@ == dtype_name(d),
{
    match d {
        WeightDtype::F32 => "F32",
        WeightDtype::F16 => "F16",
        WeightDtype::Bf16 => "Bf16",
        WeightDtype::I8 => "I8",
    }
}

/// The names of the tensors that a file must have.
fn needed_names(kind: SparsifierKind) -> (names: Vec<&'static str>)
    ensures
        names@.len() == needed(kind).len(),
        forall|i: int| 0 <= i < names@.len() ==> (#[trigger] names@[i])@ == needed(kind)[i],
{
    let mut names: Vec<&'static str> = Vec::new();
    names.push("W_enc");
    names.push("b_enc");
    names.push("W_dec");
    names.push("b_dec");
    match kind {
        SparsifierKind::Topk { has_rescale, .. } => {
            if has_rescale {
                names.push("rescale");
            }
        },
        SparsifierKind::Jumprelu => names.push("threshold"),
        SparsifierKind::Relu => {},
    }
    names
}

/// Whether [`read`] accepts a file. It does not accept one with a tensor that is
/// not made of whole words, or with sizes that a `usize` cannot hold.
pub fn is_readable(path: &str, bytes: &[u8], header_len: usize, header: &SitHeader) -> (res: bool)
    ensures
        res == readable(path@, bytes@, header_len as int, *header),
{
    let ghost start_at = section_start(header_len as int);
    if header_len > usize::MAX - 16 {
        return false;
    }
    let pos: usize = 16 + header_len;
    let pad: usize = pad_to(ALIGN, pos);
    if pos > usize::MAX - pad {
        return false;
    }
    let start: usize = pos + pad;
    if !matches!(header.config.weight_dtype, WeightDtype::F32) {
        return true;
    }
    let n_bytes: usize = bytes.len();
    let names: Vec<&'static str> = needed_names(header.sparsifier);
    let ghost want = needed(header.sparsifier);
    let mut i: usize = 0;
    while i < names.len()
        invariant
            i <= names@.len(),
            n_bytes == bytes@.len(),
            start == section_start(header_len as int),
            header.config.weight_dtype is F32,
            want == needed(header.sparsifier),
            names@.len() == want.len(),
            forall|j: int| 0 <= j < names@.len() ==> (#[trigger] names@[j])@ == want[j],
            wholes(path@, bytes@, start as int, *header, 0) == wholes(
                path@,
                bytes@,
                start as int,
                *header,
                i as int,
            ),
            first_error(path@, bytes@, start as int, *header, 0) == first_error(
                path@,
                bytes@,
                start as int,
                *header,
                i as int,
            ),
        decreases names@.len() - i,
    {
        let name: &'static str = names[i];
        match find_entry(&header.tensors, name) {
            None => {
                return true;
            },
            Some(entry) => {
                if !same(entry.dtype.as_str(), "f32") {
                    return true;
                }
                if start > n_bytes || entry.offset > (n_bytes - start) as u64 || entry.nbytes > (
                n_bytes - start) as u64 - entry.offset {
                    return true;
                }
                if entry.nbytes % 4 != 0 {
                    return false;
                }
            },
        }
        i += 1;
    }
    match header.config.d_sae.checked_mul(header.config.d_in) {
        Some(_) => true,
        None => false,
    }
}

/// Read an SAE from the bytes of a `.sit` file (from `path`), the length of its
/// header text, and its parsed header.
pub fn read(
    path: &str,
    bytes: &[u8],
    header_len: usize,
    header: &SitHeader,
    backend: Backend,
) -> (res: Result<
    Sae,
    SaeError,
>)
    requires
        readable(path@, bytes@, header_len as int, *header),
    ensures
        match read_error(path@, bytes@, header_len as int, *header) {
            Some(err) => res matches Err(e) && e@ == err,
            None => {
                &&& res matches Ok(sae)
                &&& reads(path@, bytes@, header_len as int, *header, sae)
                &&& sae.backend == backend
                &&& sae.topk is Heap
            },
        },
{
    if !matches!(header.config.weight_dtype, WeightDtype::F32) {
        let mut msg: String = "v0 sit reader only handles f32, got ".to_owned();
        msg.append(dtype_text(header.config.weight_dtype));
        return Err(SaeError::UnsupportedDtype(msg));
    }
    let pos: usize = 16 + header_len;
    let start: usize = pos + pad_to(ALIGN, pos);
    proof {
        reveal_with_fuel(first_error, 6);
        reveal_with_fuel(wholes, 6);
    }
    let w_enc: Vec<u32> = match read_tensor(path, bytes, start, &header.tensors, "W_enc") {
        Ok(v) => v,
        Err(e) => {
            return Err(e);
        },
    };
    let b_enc: Vec<u32> = match read_tensor(path, bytes, start, &header.tensors, "b_enc") {
        Ok(v) => v,
        Err(e) => {
            return Err(e);
        },
    };
    let w_dec: Vec<u32> = match read_tensor(path, bytes, start, &header.tensors, "W_dec") {
        Ok(v) => v,
        Err(e) => {
            return Err(e);
        },
    };
    let b_dec: Vec<u32> = match read_tensor(path, bytes, start, &header.tensors, "b_dec") {
        Ok(v) => v,
        Err(e) => {
            return Err(e);
        },
    };
    let sparsifier: Sparsifier = match header.sparsifier {
        SparsifierKind::Topk { k, post_relu, has_rescale } => {
            let rescale: Option<Vec<u32>> = if has_rescale {
                match read_tensor(path, bytes, start, &header.tensors, "rescale") {
                    Ok(v) => Some(v),
                    Err(e) => {
                        return Err(e);
                    },
                }
            } else {
                None
            };
            Sparsifier::TopK { k, post_relu, rescale }
        },
        SparsifierKind::Jumprelu => {
            match read_tensor(path, bytes, start, &header.tensors, "threshold") {
                Ok(v) => Sparsifier::JumpReLU { thresholds: v },
                Err(e) => {
                    return Err(e);
                },
            }
        },
        SparsifierKind::Relu => Sparsifier::Relu,
    };
    let cfg = header.config;
    let enc = EncoderWeights {
        w_enc,
        b_enc,
        d_in: cfg.d_in,
        d_sae: cfg.d_sae,
        layout: WeightLayout::RowMajor,
    };
    let dec = DecoderWeights { w_dec, b_dec, d_in: cfg.d_in, d_sae: cfg.d_sae };
    Sae::from_parts(cfg, enc, dec, sparsifier, backend)
}

} // verus!
