//! Compressed blocks: sges streams.
use vstd::prelude::*;

use crate::bytes::{has_tag, law_tag, read_u32_le, tag_at, u32_le};
use crate::error::{Error, ErrorView};
use crate::patch::PAGE;
use crate::text::hex_row;

verus! {

/// Bytes of the header of an sges stream.
pub const SGES_HEADER_LEN: usize = 16;

/// The most bytes whose segments, of 64 KiB each, can be counted in an sges stream.
pub const SGES_LIMIT: u32 = 0xFFFF_0000;

/// `n` zero bytes.
pub open spec fn zeros(n: nat) -> Seq<u8> {
    Seq::new(n, |i: int| 0u8)
}

/// How many segments an sges stream announces.
pub open spec fn segment_count(stream: Seq<u8>) -> int {
    stream[6] + 0x100 * stream[7]
}

/// Why bytes are not an sges stream, if so.
pub open spec fn sges_refusal(stream: Seq<u8>) -> Option<Seq<char>> {
    if stream.len() < SGES_HEADER_LEN {
        Some("Block too small for sges header"@)
    } else if !has_tag(stream, 0, 's', 'g', 'e', 's') {
        Some("Bad sges magic: "@ + hex_row(stream.subrange(0, 4)))
    } else if stream.len() < SGES_HEADER_LEN + 8 * segment_count(stream) {
        Some("Block too small for segment table"@)
    } else {
        None
    }
}

/// A stream is refused, or announces a size that the machine can address, as it always does where
/// addresses have 64 bits.
pub open spec fn unpackable(stream: Seq<u8>) -> bool {
    sges_refusal(stream) is None ==> u32_le(stream, 8) <= isize::MAX
}

/// `stream`, made of `len` bytes, is one whose segments can be counted and addressed in it.
pub open spec fn within_sges(stream: Seq<u8>, len: nat) -> bool {
    len <= SGES_LIMIT && stream.len() <= u32::MAX
}

/// Decompressing `stream` gives `data`, also with zeros behind it that fill up a page.
pub open spec fn unpacks_to(stream: Seq<u8>, data: Seq<u8>) -> bool {
    forall|n: nat|
        n <= PAGE ==> {
            &&& sges_refusal(stream + zeros(n)) is None
            &&& #[trigger] sges_data(stream + zeros(n)) == data
        }
}

/// The stream that `mercs2_formats::sges::compress_sges` makes of bytes.
pub uninterp spec fn sges_stream(data: Seq<u8>) -> Seq<u8>;

/// The data that `mercs2_formats::sges::decompress_sges` reads from a stream.
pub uninterp spec fn sges_data(stream: Seq<u8>) -> Seq<u8>;

/// Calls `mercs2_formats::sges::compress_sges` and claims that it refuses empty data and nothing
/// else. Its result is named [`sges_stream`]: a deflate stream in segments, which depends on the
/// data alone and is not written out here. Claimed is that decompressing it gives the data back, as
/// its documentation says, for data whose segments can be counted and addressed in the stream.
#[verifier::external_body]
pub(crate) fn compress_sges(uncompressed: &[u8]) -> (stream: Result<Vec<u8>, String>)
    ensures
        match stream {
            Ok(s) => {
                &&& uncompressed@.len() > 0
                &&& s@ == sges_stream(uncompressed@)
                &&& within_sges(s@, uncompressed@.len()) ==> unpacks_to(s@, uncompressed@)
            },
            Err(e) => uncompressed@.len() == 0 && e@ == "Cannot compress empty data"@,
        },
{
    mercs2_formats::sges::compress_sges(uncompressed)
}

/// Calls `mercs2_formats::sges::decompress_sges` and claims that it refuses bytes as
/// [`sges_refusal`] says. What it reads from other bytes is named [`sges_data`]: it depends on the
/// stream alone and is not written out here. It panics where the announced size cannot be addressed.
#[verifier::external_body]
pub(crate) fn decompress_sges(stream: &[u8]) -> (data: Result<Vec<u8>, String>)
    requires
        unpackable(stream@),
    ensures
        match data {
            Ok(d) => sges_refusal(stream@) is None && d@ == sges_data(stream@),
            Err(e) => sges_refusal(stream@) == Some(e@),
        },
{
    mercs2_formats::sges::decompress_sges(stream)
}

/// Whether [`unpack_block`] can be asked for a stream on this machine.
pub fn can_unpack(stream: &[u8]) -> (possible: bool)
    ensures
        possible == unpackable(stream@),
{
    if stream.len() < SGES_HEADER_LEN || !tag_at(stream, 0, 's', 'g', 'e', 's') {
        return true;
    }
    let segments: usize = stream[6] as usize + 0x100 * stream[7] as usize;
    stream.len() < SGES_HEADER_LEN + 8 * segments || read_u32_le(stream, 8) as u64
        <= isize::MAX as u64
}

/// The block that is stored as an sges stream, as a patch stores its blocks.
pub fn unpack_block(stream: &[u8]) -> (block: Result<Vec<u8>, Error>)
    requires
        unpackable(stream@),
    ensures
        match block {
            Ok(b) => sges_refusal(stream@) is None && b@ == sges_data(stream@),
            Err(e) => sges_refusal(stream@) matches Some(text) && e@ == ErrorView::Sges(text),
        },
{
    match decompress_sges(stream) {
        Ok(block) => Ok(block),
        Err(text) => Err(Error::Sges(text)),
    }
}

/// What is an sges stream: at least sixteen bytes that start with `sges`, with room for a table of
/// eight bytes for each of as many segments as the two bytes at 6 say. Where addresses have 64 bits,
/// all bytes can be asked to be decompressed.
pub proof fn law_what_is_a_stream(stream: Seq<u8>)
    ensures
        sges_refusal(stream) is None <==> stream.len() >= 16 && stream.subrange(0, 4) == seq![
            0x73u8,
            0x67,
            0x65,
            0x73,
        ] && stream.len() >= 16 + 8 * (stream[6] + 256 * stream[7]),
        isize::MAX >= 0xFFFF_FFFF ==> unpackable(stream),
        sges_refusal(stream) is Some ==> unpackable(stream),
        stream.len() >= 16 && u32_le(stream, 8) <= isize::MAX ==> unpackable(stream),
        sges_refusal(stream) is None && u32_le(stream, 8) > isize::MAX ==> !unpackable(stream),
{
    if stream.len() >= 4 {
        law_tag(stream, 0, 's', 'g', 'e', 's');
    }
}

} // verus!
