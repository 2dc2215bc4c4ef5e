//! The container of a `.sit` file: framing a header and a tensor section, and
//! taking the two apart again.

use vstd::prelude::*;
use vstd::string::*;

use crate::error::{ErrorView, SaeError};
use crate::io::bytes::{lemma_word, word, word_bytes};
use crate::sit::{pad_to, padding, zero_bytes, ALIGN, FORMAT_VERSION, MAGIC};
use crate::text::{append_decimal, decimal};

verus! {

/// The bytes of a file with the given header text and tensor section. The header
/// length is stored modulo 2^32.
pub open spec fn framed(json: Seq<u8>, blob: Seq<u8>) -> Seq<u8> {
    MAGIC@ + word_bytes(FORMAT_VERSION) + word_bytes(json.len() as u32) + json + zero_bytes(
        padding(16 + json.len() as int),
    ) + blob
}

/// Where the tensor section of a file starts.
pub open spec fn section_start(header_len: int) -> int {
    16 + header_len + padding(16 + header_len)
}

/// The header length of a file, or why it has none.
pub open spec fn header_length(bytes: Seq<u8>) -> Result<int, Seq<char>> {
    if bytes.len() < 16 {
        Err("file too small for sit header"@)
    } else if bytes.subrange(0, 8) != MAGIC@ {
        Err("missing SAEITOSI magic"@)
    } else if word(bytes.subrange(8, 12)) != FORMAT_VERSION {
        Err(
            "unsupported sit version "@ + decimal(word(bytes.subrange(8, 12)) as nat)
                + " (expected "@ + decimal(FORMAT_VERSION as nat) + ")"@,
        )
    } else if bytes.len() < 16 + word(bytes.subrange(12, 16)) {
        Err("header_len exceeds file size"@)
    } else {
        Ok(word(bytes.subrange(12, 16)) as int)
    }
}

/// Append bytes to bytes.
fn extend(out: &mut Vec<u8>, more: &[u8])
    ensures
        final(out)@ == old(out)@ + more@,
{
    let ghost before = out@;
    let mut i: usize = 0;
    assert(out@ =~= before + more@.take(0));
    while i < more.len()
        invariant
            i <= more@.len(),
            out@ == before + more@.take(i as int),
        decreases more@.len() - i,
    {
        out.push(more[i]);
        i += 1;
        assert(out@ =~= before + more@.take(i as int));
    }
    assert(more@.take(i as int) =~= more@);
}

/// Append a number as little-endian bytes.
fn extend_word(out: &mut Vec<u8>, w: u32)
    ensures
        final(out)@ == old(out)@ + word_bytes(w),
{
    let ghost before = out@;
    out.push((w % 0x100) as u8);
    out.push((w / 0x100 % 0x100) as u8);
    out.push((w / 0x1_0000 % 0x100) as u8);
    out.push((w / 0x100_0000) as u8);
    assert(out@ =~= before + word_bytes(w));
}

/// Frame a header text and a tensor section as the bytes of a file.
pub fn frame(json: &[u8], blob: &[u8]) -> (bytes: Vec<u8>)
    requires
        16 + json@.len() <= usize::MAX,
    ensures
        bytes@ == framed(json@, blob@),
{
    let magic: [u8; 8] = MAGIC;
    let mut bytes: Vec<u8> = Vec::new();
    extend(&mut bytes, &magic);
    extend_word(&mut bytes, FORMAT_VERSION);
    extend_word(&mut bytes, json.len() as u32);
    extend(&mut bytes, json);
    let ghost head = bytes@;
    let pad: usize = pad_to(ALIGN, 16 + json.len());
    let mut i: usize = 0;
    assert(bytes@ =~= head + zero_bytes(0));
    while i < pad
        invariant
            i <= pad,
            bytes@ == head + zero_bytes(i as int),
        decreases pad - i,
    {
        bytes.push(0);
        i += 1;
        assert(bytes@ =~= head + zero_bytes(i as int));
    }
    extend(&mut bytes, blob);
    assert(bytes@ =~= framed(json@, blob@));
    bytes
}

/// The little-endian number at `at`.
fn word_at(bytes: &[u8], at: usize) -> (w: u32)
    requires
        at + 4 <= bytes@.len(),
    ensures
        w == word(bytes@.subrange(at as int, at + 4)),
{
    bytes[at] as u32 + 0x100 * (bytes[at + 1] as u32) + 0x1_0000 * (bytes[at + 2] as u32)
        + 0x100_0000 * (bytes[at + 3] as u32)
}

/// Whether a file starts with the magic bytes.
fn has_magic(bytes: &[u8]) -> (res: bool)
    requires
        bytes@.len() >= 8,
    ensures
        res == (bytes@.subrange(0, 8) == MAGIC@),
{
    let magic: [u8; 8] = MAGIC;
    let mut i: usize = 0;
    while i < 8
        invariant
            i <= 8,
            bytes@.len() >= 8,
            magic@ == MAGIC@,
            forall|j: int| 0 <= j < i ==> #[trigger] bytes@[j] == MAGIC@[j],
        decreases 8 - i,
    {
        if bytes[i] != magic[i] {
            assert(bytes@.subrange(0, 8)[i as int] != MAGIC@[i as int]);
            return false;
        }
        i += 1;
    }
    assert(bytes@.subrange(0, 8) =~= MAGIC@);
    true
}

/// Check the frame of a file and give the length of its header text, which
/// stands at `16..16 + header_len`.
pub fn split(path: &str, bytes: &[u8]) -> (res: Result<usize, SaeError>)
    ensures
        match header_length(bytes@) {
            Ok(n) => res matches Ok(len) && len == n && 16 + n <= bytes@.len(),
            Err(reason) => res matches Err(e) && e@ == (ErrorView::InvalidCheckpoint {
                path: path@,
                reason,
            }),
        },
{
    let n_bytes: usize = bytes.len();
    if bytes.len() < 16 {
        return Err(SaeError::invalid(path, "file too small for sit header"));
    }
    if !has_magic(bytes) {
        return Err(SaeError::invalid(path, "missing SAEITOSI magic"));
    }
    let version: u32 = word_at(bytes, 8);
    if version != FORMAT_VERSION {
        let mut reason: String = "unsupported sit version ".to_owned();
        append_decimal(&mut reason, version as u64);
        reason.append(" (expected ");
        append_decimal(&mut reason, FORMAT_VERSION as u64);
        reason.append(")");
        return Err(SaeError::invalid(path, reason.as_str()));
    }
    let header_len: u32 = word_at(bytes, 12);
    if bytes.len() - 16 < header_len as usize {
        return Err(SaeError::invalid(path, "header_len exceeds file size"));
    }
    Ok(header_len as usize)
}

/// A framed file is taken apart again: the header text and the tensor section
/// stand where they should, if the header length can be held in a `u32`.
pub proof fn frame_then_split(json: Seq<u8>, blob: Seq<u8>)
    requires
        json.len() <= u32::MAX,
    ensures
        header_length(framed(json, blob)) == Ok::<int, Seq<char>>(json.len() as int),
        framed(json, blob).subrange(16, 16 + json.len() as int) == json,
        framed(json, blob).len() == section_start(json.len() as int) + blob.len(),
        framed(json, blob).skip(section_start(json.len() as int)) == blob,
        section_start(json.len() as int) % 64 == 0,
{
    let bytes = framed(json, blob);
    let n = json.len() as u32;
    lemma_word(FORMAT_VERSION, 0, 0, 0, 0);
    lemma_word(n, 0, 0, 0, 0);
    assert(bytes.subrange(0, 8) =~= MAGIC@);
    assert(bytes.subrange(8, 12) =~= word_bytes(FORMAT_VERSION));
    assert(bytes.subrange(12, 16) =~= word_bytes(n));
    assert(bytes.subrange(16, 16 + json.len() as int) =~= json);
    assert(bytes.skip(section_start(json.len() as int)) =~= blob);
}

} // verus!
