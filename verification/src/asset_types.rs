//! The asset types that the game knows.
use vstd::prelude::*;

verus! {

/// The ASET type of a Scaleform movie (type hash `0xFE0E8320`).
pub const MOVIE_TYPE_ID: u32 = 23;

/// The ASET type of what a block lists under a type hash, where it is known.
pub open spec fn type_id_of(type_hash: u32) -> Option<u32> {
    match type_hash {
        0xF011_157A => Some(27u32),
        0xBCFE_6314 => Some(28u32),
        0x5B72_4250 => Some(19u32),
        0x1816_6555 => Some(16u32),
        0x600B_904E => Some(12u32),
        0xE6B8_1A54 => Some(9u32),
        0x4249_8680 => Some(35u32),
        0x6310_807F => Some(30u32),
        0x7C56_9307 => Some(32u32),
        0x1602_815C => Some(22u32),
        0x5608_BD5A => Some(29u32),
        0xF753_F6D0 => Some(6u32),
        0x665E_F13E => Some(5u32),
        0xE527_3C14 => Some(13u32),
        0x9F8B_CA10 => Some(21u32),
        0xFE0E_8320 => Some(23u32),
        0x1CF6_49BB => Some(34u32),
        0xFA0B_8DBC => Some(18u32),
        0x2073_59C7 => Some(11u32),
        0x8F0A_54E2 => Some(3u32),
        0x99E7_7ACE => Some(15u32),
        0xDE98_2D61 => Some(14u32),
        0x39E5_E978 => Some(7u32),
        0x59B9_DF6A => Some(0u32),
        0x4D7D_30C4 => Some(0u32),
        0x3461_2F86 => Some(0u32),
        0xACCE_47F2 => Some(33u32),
        0xC122_545A => Some(26u32),
        0xE8DF_4D87 => Some(4u32),
        0xECE7_0371 => Some(31u32),
        0xEA48_29D5 => Some(20u32),
        0x3B0A_ABF8 => Some(1u32),
        0x5647_C35D => Some(8u32),
        0x140E_8728 => Some(10u32),
        0xFA46_D8A8 => Some(25u32),
        _ => None,
    }
}

/// Calls `mercs2_formats::aset_type_ids::type_id_for_type_hash` and claims that it looks the type hash
/// up in the table of [`type_id_of`].
#[verifier::external_body]
pub(crate) fn type_id_for_type_hash(type_hash: u32) -> (type_id: Option<u32>)
    ensures
        type_id == type_id_of(type_hash),
{
    mercs2_formats::aset_type_ids::type_id_for_type_hash(type_hash)
}

/// A movie is what blocks list under the movie type hash.
pub proof fn law_movie_type(type_id: u32)
    ensures
        type_id_of(0xFE0E_8320) == Some(type_id) <==> type_id == MOVIE_TYPE_ID,
{
}

} // verus!
