//! The header of a safetensors file, as far as its offsets go.
//!
//! The file starts with the length of its header in eight bytes, the lowest
//! first; the header, a JSON text, follows. It states where the bytes of each
//! tensor begin and end. A file with an offset so large that it cannot be added
//! to the header's length is recognized here: no buffer reaches there.

use vstd::prelude::*;

verus! {

/// The length of the header that the first eight bytes of a file declare.
pub open spec fn declared(buf: Seq<u8>) -> int {
    buf[0] + 0x100 * buf[1] + 0x1_0000 * buf[2] + 0x100_0000 * buf[3] + 0x1_0000_0000 * buf[4]
        + 0x100_0000_0000 * buf[5] + 0x1_0000_0000_0000 * buf[6] + 0x100_0000_0000_0000 * buf[7]
}

/// The header of a file, if the file is as long as the header's length demands.
pub open spec fn header_of(buf: Seq<u8>) -> Option<Seq<u8>> {
    if buf.len() >= 8 && 8 + declared(buf) <= buf.len() {
        Some(buf.subrange(8, 8 + declared(buf)))
    } else {
        None
    }
}

/// The offsets at which the tensors of a header end, if the text is a header.
pub uninterp spec fn offsets(text: Seq<u8>) -> Option<Set<usize>>;

/// Every offset can be added to the length `n` of a header and of what stands
/// before it.
pub open spec fn all_addable(ends: Set<usize>, n: int) -> bool {
    forall|end: usize| #[trigger] ends.contains(end) ==> end + 8 + n <= usize::MAX
}

/// Every offset of a file can be added to the length of its header and of what
/// stands before it.
pub open spec fn addable(buf: Seq<u8>) -> bool {
    match header_of(buf) {
        Some(text) => match offsets(text) {
            Some(ends) => all_addable(ends, text.len() as int),
            None => true,
        },
        None => true,
    }
}

/// `serde_json::from_slice` into a `safetensors::tensor::Metadata`, which is how
/// the `safetensors` crate parses a header: whether it accepts a text, and the
/// second of the `data_offsets` of each of its tensors, depend on the text alone.
/// The tensors come in no particular order.
#[verifier::external_body]
fn end_offsets(text: &[u8]) -> (res: Option<Vec<usize>>)
    ensures
        res is Some <==> offsets(text@) is Some,
        res matches Some(ends) ==> offsets(text@) == Some(ends@.to_set()),
{
    let header = serde_json::from_slice::<safetensors::tensor::Metadata>(text).ok()?;
    Some(header.tensors().values().map(|info| info.data_offsets.1).collect())
}

/// Whether every offset of a file can be added to the length of its header and of
/// what stands before it.
pub fn is_addable(buf: &[u8]) -> (res: bool)
    ensures
        res == addable(buf@),
{
    if buf.len() < 8 {
        return true;
    }
    let low: u64 = buf[0] as u64 + 0x100 * (buf[1] as u64) + 0x1_0000 * (buf[2] as u64) + 0x100_0000
        * (buf[3] as u64);
    let high: u64 = buf[4] as u64 + 0x100 * (buf[5] as u64) + 0x1_0000 * (buf[6] as u64)
        + 0x100_0000 * (buf[7] as u64);
    let n: u64 = low + 0x1_0000_0000 * high;
    assert(n == declared(buf@));
    if n > (buf.len() - 8) as u64 {
        return true;
    }
    let n: usize = n as usize;
    let text: &[u8] = vstd::slice::slice_subrange(buf, 8, 8 + n);
    assert(header_of(buf@) == Some(text@));
    let ends: Vec<usize> = match end_offsets(text) {
        Some(ends) => ends,
        None => {
            return true;
        },
    };
    let mut i: usize = 0;
    while i < ends.len()
        invariant
            i <= ends@.len(),
            8 + n <= usize::MAX,
            text@.len() == n,
            header_of(buf@) == Some(text@),
            offsets(text@) == Some(ends@.to_set()),
            forall|j: int| 0 <= j < i ==> #[trigger] ends@[j] + 8 + n <= usize::MAX,
        decreases ends@.len() - i,
    {
        if ends[i] > usize::MAX - 8 - n {
            assert(ends@.to_set().contains(ends@[i as int]));
            assert(!all_addable(ends@.to_set(), n as int));
            return false;
        }
        i += 1;
    }
    assert(all_addable(ends@.to_set(), n as int));
    true
}

} // verus!
