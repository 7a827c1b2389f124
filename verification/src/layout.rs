//! The fixed binary layout in front of the data blob.

use vstd::prelude::*;

verus! {

/// Bytes of outer framing in front of the size field. They are skipped.
pub const FRAMING_LEN: usize = 12;

/// Bytes of the size field.
pub const SIZE_LEN: usize = 4;

/// Bytes of filler between the header text and the data blob. They are skipped.
pub const PADDING_LEN: usize = 3;

/// The number that four bytes encode, least significant byte first.
pub open spec fn le_u32(b: Seq<u8>) -> nat
    recommends
        b.len() == 4,
{
    (b[0] as nat) + 256 * (b[1] as nat) + 65536 * (b[2] as nat) + 16777216 * (b[3] as nat)
}

/// Reads the four bytes at `at` as an unsigned number, least significant byte first.
pub fn read_le_u32(input: &[u8], at: usize) -> (n: u32)
    requires
        at + 4 <= input@.len(),
    ensures
        n == le_u32(input@.subrange(at as int, at + 4)),
{
    let b0: u32 = input[at] as u32;
    let b1: u32 = input[at + 1] as u32;
    let b2: u32 = input[at + 2] as u32;
    let b3: u32 = input[at + 3] as u32;
    b0 + 256 * b1 + 65536 * b2 + 16777216 * b3
}

/// The length of the header text that an archive announces: the number in
/// its size field.
pub open spec fn header_len(input: Seq<u8>) -> nat
    recommends
        input.len() >= 16,
{
    le_u32(input.subrange(12, 16))
}

/// Whether the archive holds its framing, its size field and as many bytes
/// of header text as the size field announces.
pub open spec fn has_header(input: Seq<u8>) -> bool {
    input.len() >= 16 && input.len() >= 16 + header_len(input)
}

/// The bytes of the header text.
pub open spec fn header_bytes(input: Seq<u8>) -> Seq<u8>
    recommends
        has_header(input),
{
    input.subrange(16, (16 + header_len(input)) as int)
}

/// Whether the archive also holds the filler behind the header text.
pub open spec fn has_padding(input: Seq<u8>) -> bool {
    input.len() >= 16 && input.len() >= 16 + header_len(input) + 3
}

/// The number of bytes in front of the data blob.
pub open spec fn blob_start(input: Seq<u8>) -> nat
    recommends
        has_padding(input),
{
    16 + header_len(input) + 3
}

/// The data blob: all that follows the filler.
pub open spec fn blob_of(input: Seq<u8>) -> Seq<u8>
    recommends
        has_padding(input),
{
    input.skip(blob_start(input) as int)
}

/// Where the header text of an archive lies.
pub struct HeaderSpan {
    /// The index of the first byte of the header text.
    pub start: usize,
    /// The index behind the last byte of the header text.
    pub end: usize,
}

/// Finds the header text of an archive: `None` where the archive is too
/// short to hold what its size field announces.
pub fn find_header(input: &[u8]) -> (r: Option<HeaderSpan>)
    ensures
        r is Some <==> has_header(input@),
        r matches Some(span) ==> span.start == 16 && span.end == 16 + header_len(input@),
{
    if input.len() < FRAMING_LEN + SIZE_LEN {
        return None;
    }
    let announced: u32 = read_le_u32(input, FRAMING_LEN);
    let left: usize = input.len() - (FRAMING_LEN + SIZE_LEN);
    if announced as u64 > left as u64 {
        return None;
    }
    Some(HeaderSpan { start: FRAMING_LEN + SIZE_LEN, end: FRAMING_LEN + SIZE_LEN + announced as usize })
}

/// Finds the data blob of an archive: the index at which it starts, or
/// `None` where the archive is too short to hold its header and the filler.
pub fn find_blob(input: &[u8]) -> (r: Option<usize>)
    ensures
        r is Some <==> has_padding(input@),
        r matches Some(start) ==> start == blob_start(input@),
{
    match find_header(input) {
        None => None,
        Some(span) => if input.len() - span.end < PADDING_LEN {
            None
        } else {
            Some(span.end + PADDING_LEN)
        },
    }
}

/// The four bytes that encode a number below 2^32, least significant byte
/// first.
pub open spec fn le_bytes(n: nat) -> Seq<u8>
    recommends
        n <= u32::MAX,
{
    seq![
        (n % 256) as u8,
        (n / 256 % 256) as u8,
        (n / 65536 % 256) as u8,
        (n / 16777216 % 256) as u8,
    ]
}

/// An archive put together from its parts: framing, size field, header
/// text, filler and data blob.
pub open spec fn assembled(framing: Seq<u8>, header: Seq<u8>, filler: Seq<u8>, blob: Seq<u8>) -> Seq<u8> {
    framing + le_bytes(header.len()) + header + filler + blob
}

/// Four bytes decode to the number that they encode.
pub proof fn lemma_le_bytes_decode(n: nat)
    requires
        n <= u32::MAX,
    ensures
        le_bytes(n).len() == 4,
        le_u32(le_bytes(n)) == n,
{
}

/// An archive that is put together from a header text and a data blob
/// holds that header text, and that data blob behind it.
pub proof fn lemma_assembled_splits(framing: Seq<u8>, header: Seq<u8>, filler: Seq<u8>, blob: Seq<u8>)
    requires
        framing.len() == 12,
        header.len() <= u32::MAX,
        filler.len() == 3,
    ensures
        has_header(assembled(framing, header, filler, blob)),
        header_bytes(assembled(framing, header, filler, blob)) == header,
        has_padding(assembled(framing, header, filler, blob)),
        blob_of(assembled(framing, header, filler, blob)) == blob,
{
    let whole = assembled(framing, header, filler, blob);
    lemma_le_bytes_decode(header.len());
    assert(whole.subrange(12, 16) =~= le_bytes(header.len()));
    assert(header_bytes(whole) =~= header);
    assert(blob_of(whole) =~= blob);
}

} // verus!
