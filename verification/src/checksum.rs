//! The checksum of a container's `CSUM` trailer and the hash that keys assets.
use vstd::prelude::*;
use vstd::utf8::encode_utf8;

verus! {

/// One bit step of the reflected CRC-32 with polynomial `0xEDB88320`.
pub open spec fn crc_step(crc: u32) -> u32 {
    if crc & 1 != 0 {
        (crc >> 1) ^ 0xEDB8_8320
    } else {
        crc >> 1
    }
}

/// `n` bit steps.
pub open spec fn crc_steps(crc: u32, n: nat) -> u32
    decreases n,
{
    if n == 0 {
        crc
    } else {
        crc_step(crc_steps(crc, (n - 1) as nat))
    }
}

/// CRC-32 with initial value 0 and no final inversion.
#[verifier::opaque]
pub open spec fn crc32(data: Seq<u8>) -> u32
    decreases data.len(),
{
    if data.len() == 0 {
        0
    } else {
        crc_steps(crc32(data.drop_last()) ^ (data.last() as u32), 8)
    }
}

/// One FNV-1a round: fold `value` into `hash` and multiply by the FNV prime.
pub open spec fn fnv_round(hash: u32, value: u32) -> u32 {
    ((hash ^ value) as nat * 0x0100_0193 % 0x1_0000_0000) as u32
}

/// FNV-1a over bytes with bit `0x20` set in each of them.
#[verifier::opaque]
pub open spec fn fnv_folded(data: Seq<u8>) -> u32
    decreases data.len(),
{
    if data.len() == 0 {
        0x811C_9DC5
    } else {
        fnv_round(fnv_folded(data.drop_last()), (data.last() | 0x20) as u32)
    }
}

/// The hash under which an asset name is listed: case-folded FNV-1a of its UTF-8 bytes with one
/// more round of `0x2A`, and 0 for the empty name.
pub open spec fn name_hash(name: Seq<char>) -> u32 {
    if name.len() == 0 {
        0
    } else {
        fnv_round(fnv_folded(encode_utf8(name)), 0x2A)
    }
}

/// Calls `mercs2_formats::crc32::crc32_mercs2` and claims that it computes [`crc32`], which its
/// documentation describes as CRC-32 with initial value 0, no final XOR and the reflected
/// polynomial `0xEDB88320`.
#[verifier::external_body]
pub(crate) fn crc32_mercs2(data: &[u8]) -> (sum: u32)
    ensures
        sum == crc32(data@),
{
    mercs2_formats::crc32::crc32_mercs2(data)
}

/// Calls `mercs2_formats::hash::pandemic_hash_m2` and claims that it computes [`name_hash`], which
/// its documentation describes as FNV-1a with each byte OR-ed with `0x20`, then `^0x2A` and one
/// more multiplication by the prime, with 0 for empty input.
#[verifier::external_body]
pub(crate) fn pandemic_hash_m2(text: &str) -> (hash: u32)
    ensures
        hash == name_hash(text@),
{
    mercs2_formats::hash::pandemic_hash_m2(text)
}

} // verus!
