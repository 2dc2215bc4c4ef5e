//! safetensors helpers: every read of a safetensors file goes through this
//! module, so that loaders share the validation of dtype and shape.

use vstd::arithmetic::mul::*;
use vstd::prelude::*;
use vstd::string::*;

use crate::error::{ErrorView, SaeError};
use crate::index::{lemma_cell, lemma_position};
use crate::io::bytes::{read_words, words};
use crate::io::header::{addable, is_addable};
use crate::text::{append_decimal, decimal, same};

verus! {

/// `safetensors::SafeTensors`, the parsed view of a safetensors file.
#[verifier::external_type_specification]
#[verifier::external_body]
pub struct ExSafeTensors<'data>(safetensors::SafeTensors<'data>);

/// What a safetensors file with offsets that a buffer can reach holds, if it is one:
/// by name, each tensor's dtype (in the spelling of the crate, such as `F32`), its
/// shape, and its bytes.
pub uninterp spec fn parsed(buf: Seq<u8>) -> Option<
    Map<Seq<char>, (Seq<char>, Seq<usize>, Seq<u8>)>,
>;

/// What a parsed safetensors file holds.
pub uninterp spec fn contents(st: safetensors::SafeTensors<'_>) -> Map<
    Seq<char>,
    (Seq<char>, Seq<usize>, Seq<u8>),
>;

/// The number of elements of a tensor.
pub open spec fn product(shape: Seq<usize>) -> int
    decreases shape.len(),
{
    if shape.len() == 0 {
        1
    } else {
        product(shape.drop_last()) * shape.last()
    }
}

/// What a safetensors file holds, if it is one. A file with an offset at the very
/// end of the address range is none: its bytes cannot all be there.
pub open spec fn archive(buf: Seq<u8>) -> Option<
    Map<Seq<char>, (Seq<char>, Seq<usize>, Seq<u8>)>,
> {
    if addable(buf) {
        parsed(buf)
    } else {
        None
    }
}

/// `safetensors::SafeTensors::deserialize`: whether it accepts a buffer, and what
/// the file holds if it does, depends on the buffer alone. Nothing is said of
/// which error it gives, which for a header with several faults depends on the
/// order in which a hash map is walked.
///
/// The crate adds the last offset of a header that it accepts, eight and the
/// header's length without a check, hence the precondition. (Where the sum wraps
/// round, it is less than the length of the buffer, and the file is refused.)
#[verifier::external_body]
fn deserialize(buf: &[u8]) -> (res: Result<
    safetensors::SafeTensors<'_>,
    safetensors::SafeTensorError,
>)
    requires
        addable(buf@),
    ensures
        res is Ok <==> parsed(buf@) is Some,
        res matches Ok(st) ==> parsed(buf@) == Some(contents(st)),
{
    safetensors::SafeTensors::deserialize(buf)
}

/// `safetensors::SafeTensorError::MetadataIncompleteBuffer`, the crate's error for
/// offsets that do not end where the buffer ends. Nothing is said of it: the type
/// is carried through unopened.
#[verifier::external_body]
fn incomplete_buffer() -> (res: safetensors::SafeTensorError) {
    safetensors::SafeTensorError::MetadataIncompleteBuffer
}

/// Parse a safetensors file.
pub fn parse(buf: &[u8]) -> (res: Result<safetensors::SafeTensors<'_>, SaeError>)
    ensures
        match res {
            Ok(st) => archive(buf@) == Some(contents(st)),
            Err(e) => archive(buf@) is None && e@ is Safetensors,
        },
{
    if !is_addable(buf) {
        return Err(SaeError::Safetensors(incomplete_buffer()));
    }
    match deserialize(buf) {
        Ok(st) => Ok(st),
        Err(e) => Err(SaeError::Safetensors(e)),
    }
}

/// `safetensors::SafeTensors::tensor`, copied out: the tensor of a name, if there
/// is one. Parsing has checked that a tensor's bytes are as many as its shape
/// and dtype ask for, which is four per element for `F32`.
#[verifier::external_body]
fn tensor(st: &safetensors::SafeTensors<'_>, name: &str) -> (res: Option<
    (String, Vec<usize>, Vec<u8>),
>)
    ensures
        res is Some <==> contents(*st).contains_key(name@),
        res matches Some(t) ==> contents(*st)[name@] == (t.0@, t.1@, t.2@),
        res matches Some(t) ==> (t.0@ == "F32"@ ==> t.2@.len() == 4 * product(t.1@)),
{
    let view = st.tensor(name).ok()?;
    Some((format!("{:?}", view.dtype()), view.shape().to_vec(), view.data().to_vec()))
}

/// Whether a file holds a tensor of a name.
pub fn holds_tensor(st: &safetensors::SafeTensors<'_>, name: &str) -> (res: bool)
    ensures
        res == contents(*st).contains_key(name@),
{
    tensor(st, name).is_some()
}

/// A safetensors file, read fully into memory.
#[derive(Debug)]
pub struct SafetensorsFile {
    buf: Vec<u8>,
}

impl SafetensorsFile {
    /// The bytes of the file.
    pub closed spec fn bytes(&self) -> Seq<u8> {
        self.buf@
    }

    /// Take the bytes of a file, which must parse.
    pub fn from_bytes(buf: Vec<u8>) -> (res: Result<Self, SaeError>)
        ensures
            match res {
                Ok(file) => archive(buf@) is Some && file.bytes() == buf@,
                Err(e) => archive(buf@) is None && e@ is Safetensors,
            },
    {
        match parse(buf.as_slice()) {
            Ok(_) => {},
            Err(e) => {
                return Err(e);
            },
        }
        Ok(SafetensorsFile { buf })
    }

    /// The parsed view of the file.
    pub fn view(&self) -> (res: Result<safetensors::SafeTensors<'_>, SaeError>)
        ensures
            match res {
                Ok(st) => archive(self.bytes()) == Some(contents(st)),
                Err(e) => archive(self.bytes()) is None && e@ is Safetensors,
            },
    {
        parse(self.buf.as_slice())
    }
}

/// A tensor as a file holds it: dtype, shape, and bytes.
pub type StoredView = (Seq<char>, Seq<usize>, Seq<u8>);

/// A tensor as it is read: elements and shape, or what is wrong with it.
pub type TensorView = Result<(Seq<u32>, Seq<usize>), ErrorView>;

/// A tensor as it is read: elements and shape, or what is wrong with it.
pub type TensorRead = Result<(Vec<u32>, Vec<usize>), SaeError>;

/// A read tensor as a specification sees it.
pub open spec fn read_view(res: TensorRead) -> TensorView {
    match res {
        Ok(t) => Ok((t.0@, t.1@)),
        Err(e) => Err(e@),
    }
}

/// A read tensor has as many elements as its shape asks for.
pub open spec fn sized(res: TensorRead) -> bool {
    res matches Ok(t) ==> t.0@.len() == product(t.1@)
}

/// What a stored tensor reads as, in single precision.
pub open spec fn as_f32(name: Seq<char>, stored: StoredView) -> TensorView {
    if stored.0 != "F32"@ {
        Err(ErrorView::UnsupportedDtype(name + ": expected f32, got "@ + stored.0))
    } else if stored.2.len() % 4 != 0 {
        Err(
            ErrorView::Other(
                name + ": byte length "@ + decimal(stored.2.len()) + " not divisible by 4"@,
            ),
        )
    } else {
        Ok((words(stored.2), stored.1))
    }
}

/// What the tensor of a name reads as, in single precision.
pub open spec fn f32_tensor(tensors: Map<Seq<char>, StoredView>, name: Seq<char>) -> TensorView {
    if tensors.contains_key(name) {
        as_f32(name, tensors[name])
    } else {
        Err(ErrorView::MissingTensor(name))
    }
}

/// Read a stored tensor (dtype, shape, bytes) in single precision, validating
/// its dtype.
pub fn decode_f32(name: &str, stored: (String, Vec<usize>, Vec<u8>)) -> (res: TensorRead)
    ensures
        read_view(res) == as_f32(name@, (stored.0@, stored.1@, stored.2@)),
{
    let (dtype, shape, bytes) = stored;
    if !same(dtype.as_str(), "F32") {
        let mut msg: String = name.to_owned();
        msg.append(": expected f32, got ");
        msg.append(dtype.as_str());
        return Err(SaeError::UnsupportedDtype(msg));
    }
    match read_words(bytes.as_slice()) {
        Some(cells) => Ok((cells, shape)),
        None => {
            let mut msg: String = name.to_owned();
            msg.append(": byte length ");
            append_decimal(&mut msg, bytes.len() as u64);
            msg.append(" not divisible by 4");
            Err(SaeError::Other(msg))
        },
    }
}

/// Read a named tensor in single precision, validating its dtype.
pub fn read_f32_tensor(st: &safetensors::SafeTensors<'_>, name: &str) -> (res: TensorRead)
    ensures
        read_view(res) == f32_tensor(contents(*st), name@),
        contents(*st).contains_key(name@) && contents(*st)[name@].0 == "F32"@ ==> res is Ok,
        !contents(*st).contains_key(name@) ==> (res matches Err(SaeError::MissingTensor(n)) && n@
            == name@),
        contents(*st).contains_key(name@) && contents(*st)[name@].0 != "F32"@ ==> (res matches Err(
            SaeError::UnsupportedDtype(m),
        ) && m@ == name@ + ": expected f32, got "@ + contents(*st)[name@].0),
        res matches Ok(t) ==> {
            let stored = contents(*st)[name@];
            &&& contents(*st).contains_key(name@) && stored.0 == "F32"@
            &&& t.1@ == stored.1
            &&& t.0@.len() == stored.2.len() / 4
            &&& forall|i: int|
                0 <= i < t.0@.len() ==> #[trigger] t.0@[i] == stored.2[4 * i] + 256 * stored.2[4 * i
                    + 1] + 65536 * stored.2[4 * i + 2] + 16777216 * stored.2[4 * i + 3]
        },
        sized(res),
{
    match tensor(st, name) {
        None => Err(SaeError::MissingTensor(name.to_owned())),
        Some(stored) => decode_f32(name, stored),
    }
}

/// The transpose of a row-major `[rows, cols]` matrix: `[cols, rows]`, row-major.
pub open spec fn transposed(w: Seq<u32>, rows: int, cols: int) -> Seq<u32> {
    Seq::new((rows * cols) as nat, |p: int| w[(p % rows) * cols + p / rows])
}

/// Transposing twice gives the matrix back.
pub proof fn transpose_is_an_involution(w: Seq<u32>, rows: int, cols: int)
    requires
        0 <= rows,
        0 <= cols,
        w.len() == rows * cols,
    ensures
        transposed(transposed(w, rows, cols), cols, rows) == w,
{
    let t = transposed(w, rows, cols);
    lemma_mul_is_commutative(rows, cols);
    assert forall|p: int| 0 <= p < rows * cols implies #[trigger] transposed(t, cols, rows)[p]
        == w[p] by {
        lemma_position(rows, cols, p);
        let r = p / cols;
        let c = p % cols;
        lemma_cell(cols, rows, c, r);
    }
    assert(transposed(t, cols, rows) =~= w);
}

/// Entry `(c, r)` of the transpose is entry `(r, c)` of the matrix.
pub proof fn transpose_swaps_indices(w: Seq<u32>, rows: int, cols: int, r: int, c: int)
    requires
        0 <= r < rows,
        0 <= c < cols,
    ensures
        0 <= c * rows + r < transposed(w, rows, cols).len(),
        transposed(w, rows, cols)[c * rows + r] == w[r * cols + c],
{
    lemma_cell(cols, rows, c, r);
    lemma_mul_is_commutative(rows, cols);
}

/// Transpose `[rows, cols]` row-major to `[cols, rows]` row-major.
pub fn transpose(input: &[u32], rows: usize, cols: usize) -> (out: Vec<u32>)
    requires
        rows * cols <= input@.len(),
    ensures
        out@ == transposed(input@, rows as int, cols as int),
{
    let n: usize = input.len();
    let ghost want = transposed(input@, rows as int, cols as int);
    let mut out: Vec<u32> = Vec::new();
    let mut c: usize = 0;
    proof {
        lemma_mul_nonnegative(rows as int, cols as int);
        lemma_mul_is_commutative(rows as int, cols as int);
        lemma_mul_basics(rows as int);
    }
    while c < cols
        invariant
            input@.len() == n,
            rows * cols <= n,
            want == transposed(input@, rows as int, cols as int),
            want.len() == rows * cols == cols * rows,
            c <= cols,
            out@.len() == c * rows,
            forall|p: int| 0 <= p < out@.len() ==> #[trigger] out@[p] == want[p],
        decreases cols - c,
    {
        let mut r: usize = 0;
        while r < rows
            invariant
                input@.len() == n,
                rows * cols <= n,
                want == transposed(input@, rows as int, cols as int),
                want.len() == rows * cols == cols * rows,
                c < cols,
                r <= rows,
                out@.len() == c * rows + r,
                forall|p: int| 0 <= p < out@.len() ==> #[trigger] out@[p] == want[p],
            decreases rows - r,
        {
            proof {
                lemma_cell(rows as int, cols as int, r as int, c as int);
                transpose_swaps_indices(input@, rows as int, cols as int, r as int, c as int);
            }
            out.push(input[r * cols + c]);
            r += 1;
        }
        proof {
            lemma_mul_is_distributive_add_other_way(rows as int, c as int, 1);
        }
        c += 1;
    }
    assert(out@ =~= want);
    out
}

} // verus!
