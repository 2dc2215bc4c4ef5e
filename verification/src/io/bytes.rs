//! Little-endian words.

use vstd::prelude::*;

verus! {

/// The number that four bytes encode, the lowest byte first.
pub open spec fn word(b: Seq<u8>) -> u32 {
    (b[0] + 0x100 * b[1] + 0x1_0000 * b[2] + 0x100_0000 * b[3]) as u32
}

/// The four bytes of a number, the lowest first.
pub open spec fn word_bytes(w: u32) -> Seq<u8> {
    seq![
        (w as int % 0x100) as u8,
        (w as int / 0x100 % 0x100) as u8,
        (w as int / 0x1_0000 % 0x100) as u8,
        (w as int / 0x100_0000) as u8,
    ]
}

/// The numbers that a run of bytes encodes, four bytes each.
pub open spec fn words(bytes: Seq<u8>) -> Seq<u32> {
    Seq::new(
        bytes.len() / 4,
        |i: int| word(seq![bytes[4 * i], bytes[4 * i + 1], bytes[4 * i + 2], bytes[4 * i + 3]]),
    )
}

/// The bytes of a run of numbers, four bytes each.
pub open spec fn word_run(ws: Seq<u32>) -> Seq<u8> {
    Seq::new(4 * ws.len(), |p: int| word_bytes(ws[p / 4])[p % 4])
}

/// A number is found again from its bytes, and bytes are found again from their
/// number.
pub proof fn lemma_word(w: u32, b0: u8, b1: u8, b2: u8, b3: u8)
    ensures
        word(word_bytes(w)) == w,
        word_bytes(word(seq![b0, b1, b2, b3])) == seq![b0, b1, b2, b3],
{
    let b = seq![b0, b1, b2, b3];
    let v = word(b);
    assert(v == b0 + 0x100 * b1 + 0x1_0000 * b2 + 0x100_0000 * b3);
    assert(v as int % 0x100 == b0);
    assert(v as int / 0x100 == b1 + 0x100 * b2 + 0x1_0000 * b3);
    assert(v as int / 0x1_0000 == b2 + 0x100 * b3);
    assert(v as int / 0x100_0000 == b3);
    assert(word_bytes(v) =~= b);
}

/// Numbers read back from the bytes that they were written as.
pub proof fn words_read_back(ws: Seq<u32>)
    ensures
        words(word_run(ws)) == ws,
{
    let bytes = word_run(ws);
    assert forall|i: int| 0 <= i < ws.len() implies #[trigger] words(bytes)[i] == ws[i] by {
        lemma_word(ws[i], 0, 0, 0, 0);
        let w = word_bytes(ws[i]);
        assert(seq![bytes[4 * i], bytes[4 * i + 1], bytes[4 * i + 2], bytes[4 * i + 3]] =~= w);
    }
    assert(words(bytes) =~= ws);
}

/// Whole words of bytes are written as they were read.
pub proof fn bytes_read_back(bytes: Seq<u8>)
    requires
        bytes.len() % 4 == 0,
    ensures
        word_run(words(bytes)) == bytes,
{
    let ws = words(bytes);
    assert forall|p: int| 0 <= p < bytes.len() implies #[trigger] word_run(ws)[p] == bytes[p] by {
        let i = p / 4;
        lemma_word(0, bytes[4 * i], bytes[4 * i + 1], bytes[4 * i + 2], bytes[4 * i + 3]);
    }
    assert(word_run(ws) =~= bytes);
}

/// `bytemuck::try_cast_slice` from bytes to groups of four, copied: it fails if
/// and only if the last group would be incomplete (groups of bytes need no
/// alignment), and it keeps the order of the bytes.
#[verifier::external_body]
fn groups(bytes: &[u8]) -> (res: Option<Vec<[u8; 4]>>)
    ensures
        res is Some <==> bytes@.len() % 4 == 0,
        res matches Some(g) ==> 4 * g@.len() == bytes@.len(),
        res matches Some(g) ==> forall|i: int, j: int|
            0 <= i < g@.len() && 0 <= j < 4 ==> #[trigger] g@[i]@[j] == bytes@[4 * i + j],
{
    bytemuck::try_cast_slice::<u8, [u8; 4]>(bytes).ok().map(|g| g.to_vec())
}

/// `bytemuck::cast_slice` from groups of four bytes to bytes, copied: it keeps
/// the order of the bytes. (Bytes need no alignment and every group is whole,
/// so it does not fail.)
#[verifier::external_body]
fn ungroup(groups: &[[u8; 4]]) -> (bytes: Vec<u8>)
    ensures
        bytes@.len() == 4 * groups@.len(),
        forall|i: int, j: int|
            0 <= i < groups@.len() && 0 <= j < 4 ==> #[trigger] groups@[i]@[j] == bytes@[4 * i + j],
{
    bytemuck::cast_slice::<[u8; 4], u8>(groups).to_vec()
}

/// Read a run of little-endian numbers, if the bytes are whole words.
pub fn read_words(bytes: &[u8]) -> (res: Option<Vec<u32>>)
    ensures
        res is Some <==> bytes@.len() % 4 == 0,
        res matches Some(ws) ==> ws@ == words(bytes@),
        res matches Some(ws) ==> 4 * ws@.len() == bytes@.len() && forall|i: int|
            0 <= i < ws@.len() ==> #[trigger] ws@[i] == bytes@[4 * i] + 256 * bytes@[4 * i + 1]
                + 65536 * bytes@[4 * i + 2] + 16777216 * bytes@[4 * i + 3],
{
    match groups(bytes) {
        None => None,
        Some(g) => {
            let mut ws: Vec<u32> = Vec::new();
            let mut i: usize = 0;
            while i < g.len()
                invariant
                    i <= g@.len(),
                    4 * g@.len() == bytes@.len(),
                    forall|a: int, j: int|
                        0 <= a < g@.len() && 0 <= j < 4 ==> #[trigger] g@[a]@[j] == bytes@[4 * a
                            + j],
                    ws@.len() == i,
                    forall|a: int| 0 <= a < i ==> #[trigger] ws@[a] == words(bytes@)[a],
                decreases g@.len() - i,
            {
                let b: [u8; 4] = g[i];
                assert(b@[0] == bytes@[4 * i + 0]);
                assert(b@[1] == bytes@[4 * i + 1]);
                assert(b@[2] == bytes@[4 * i + 2]);
                assert(b@[3] == bytes@[4 * i + 3]);
                let w: u32 = b[0] as u32 + 0x100 * (b[1] as u32) + 0x1_0000 * (b[2] as u32)
                    + 0x100_0000 * (b[3] as u32);
                ws.push(w);
                i += 1;
            }
            assert(ws@ =~= words(bytes@));
            Some(ws)
        },
    }
}

/// Write a run of numbers as little-endian bytes.
pub fn write_words(ws: &[u32]) -> (bytes: Vec<u8>)
    ensures
        bytes@ == word_run(ws@),
{
    let mut g: Vec<[u8; 4]> = Vec::new();
    let mut i: usize = 0;
    while i < ws.len()
        invariant
            i <= ws@.len(),
            g@.len() == i,
            forall|a: int, j: int|
                0 <= a < i && 0 <= j < 4 ==> #[trigger] g@[a]@[j] == word_bytes(ws@[a])[j],
        decreases ws@.len() - i,
    {
        let w: u32 = ws[i];
        let b: [u8; 4] = [
            (w % 0x100) as u8,
            (w / 0x100 % 0x100) as u8,
            (w / 0x1_0000 % 0x100) as u8,
            (w / 0x100_0000) as u8,
        ];
        assert(b@ =~= word_bytes(w));
        g.push(b);
        i += 1;
    }
    let bytes: Vec<u8> = ungroup(g.as_slice());
    assert forall|p: int| 0 <= p < bytes@.len() implies bytes@[p] == word_run(ws@)[p] by {
        let a = p / 4;
        let j = p % 4;
        assert(4 * a + j == p);
        assert(g@[a]@[j] == bytes@[4 * a + j]);
    }
    assert(bytes@ =~= word_run(ws@));
    bytes
}

} // verus!
