//! Patch archives: overlays that replace single assets of a base archive.
use vstd::prelude::*;
use vstd::utf8::encode_utf8;

use crate::block::{block_bytes, build_block, law_built_bytes, MovieLoc, MovieLocView};
use crate::bytes::{
    has_tag, law_low_part, law_tag, lemma_low32, low32, read_u32_le, tag_at, truncate32, u32_le,
};
use crate::container::{header_covers_size, rebuild_container, rebuild_refusal, rebuilt};
use crate::error::{Error, ErrorView};
use crate::layout::{aset_chunk, chunk_among, csum_word, indx_chunk, laid_out, pths_chunk, reads_as};
use crate::sges::{compress_sges, sges_stream, unpacks_to, within_sges};

verus! {

/// Bytes of a page.
pub const PAGE: usize = 0x8000;

/// The page at which block data starts.
pub const DATA_PAGE: usize = 65;

/// Bytes that the path table of a patch needs besides the paths: a fixed trailer and its end.
pub const PATHS_TRAILER_LEN: usize = 259;

/// The lower half of the block reference of a patched asset: it has no finer blocks.
pub const PRIMARY_ONLY: u32 = 0x0000_FFFF;

/// The flags of a block in a patch.
pub const BLOCK_FLAGS: u16 = 0x8000;

/// One asset record of a patch.
#[derive(Clone, Copy, Debug, PartialEq, Eq)]
pub struct PatchAsetEntry {
    pub asset_hash: u32,
    pub u32_1: u32,
    pub u32_2: u32,
    pub u32_3: u32,
}

/// One block of a patch.
#[derive(Debug)]
pub struct PatchBlock {
    pub compressed_data: Vec<u8>,
    pub path_string: String,
    pub aset_entries: Vec<PatchAsetEntry>,
    pub packed_field: u32,
    pub flags: u16,
}

/// A [`PatchBlock`] with its contents as sequences.
pub struct PatchBlockView {
    pub compressed_data: Seq<u8>,
    pub path_string: Seq<char>,
    pub aset_entries: Seq<PatchAsetEntry>,
    pub packed_field: u32,
    pub flags: u16,
}

impl View for PatchBlock {
    type V = PatchBlockView;

    open spec fn view(&self) -> PatchBlockView {
        PatchBlockView {
            compressed_data: self.compressed_data@,
            path_string: self.path_string@,
            aset_entries: self.aset_entries@,
            packed_field: self.packed_field,
            flags: self.flags,
        }
    }
}

/// Pages that hold `len` bytes.
pub open spec fn pages(len: nat) -> nat {
    (len + PAGE - 1) as nat / PAGE as nat
}

/// The block in which the movie at `loc` is `movie`: the rebuilt container under its old entry.
pub open spec fn override_bytes(loc: MovieLocView, movie: Seq<u8>) -> Seq<u8> {
    block_bytes(loc.name_hash, loc.type_hash, loc.field_c, rebuilt(loc.container, movie))
}

/// The patch block for the asset at `loc` whose data, `len` bytes before compression, is
/// `compressed`: it keeps the block's path, has one asset record and gives the page count of the
/// uncompressed data.
pub open spec fn asset_block(loc: MovieLocView, len: nat, compressed: Seq<u8>) -> PatchBlockView {
    PatchBlockView {
        compressed_data: compressed,
        path_string: loc.block_path,
        aset_entries: seq![
            PatchAsetEntry {
                asset_hash: loc.name_hash,
                u32_1: loc.secondary_ref,
                u32_2: PRIMARY_ONLY,
                u32_3: loc.type_id,
            },
        ],
        packed_field: low32(pages(len)),
        flags: BLOCK_FLAGS,
    }
}

/// The patch block that overrides the movie at `loc` with `movie`.
pub open spec fn override_block(loc: MovieLocView, movie: Seq<u8>) -> PatchBlockView {
    asset_block(loc, override_bytes(loc, movie).len(), sges_stream(override_bytes(loc, movie)))
}

/// Bytes that a block takes in the tables of a patch: its index record, its asset records and its
/// path.
pub open spec fn block_table_len(block: PatchBlockView) -> nat {
    12 + 16 * block.aset_entries.len() + encode_utf8(block.path_string).len() + 1
}

/// Bytes that blocks take in the tables of a patch.
pub open spec fn tables_len(blocks: Seq<PatchBlockView>) -> nat
    decreases blocks.len(),
{
    if blocks.len() == 0 {
        0
    } else {
        tables_len(blocks.drop_last()) + block_table_len(blocks.last())
    }
}

/// Pages that the data of blocks takes.
pub open spec fn data_pages(blocks: Seq<PatchBlockView>) -> nat
    decreases blocks.len(),
{
    if blocks.len() == 0 {
        0
    } else {
        data_pages(blocks.drop_last()) + pages(blocks.last().compressed_data.len())
    }
}

/// Bytes of a patch.
pub open spec fn wad_len(blocks: Seq<PatchBlockView>) -> nat {
    (DATA_PAGE + data_pages(blocks)) as nat * PAGE as nat
}

/// The tables of a patch, which start at the second page, fit in it, and it fits in memory.
pub open spec fn wad_room(blocks: Seq<PatchBlockView>) -> bool {
    &&& PAGE + tables_len(blocks) + PATHS_TRAILER_LEN <= wad_len(blocks)
    &&& wad_len(blocks) <= isize::MAX
}

/// Block `i` is the first with this path.
pub open spec fn first_with_path(blocks: Seq<PatchBlockView>, path: Seq<char>, i: int) -> bool {
    &&& 0 <= i < blocks.len()
    &&& blocks[i].path_string == path
    &&& forall|j: int| 0 <= j < i ==> (#[trigger] blocks[j]).path_string != path
}

/// The blocks with `new` in place of the first that has its path, or behind them if none has.
pub open spec fn replaced(blocks: Seq<PatchBlockView>, new: PatchBlockView) -> Seq<PatchBlockView> {
    if exists|i: int| first_with_path(blocks, new.path_string, i) {
        blocks.update(choose|i: int| first_with_path(blocks, new.path_string, i), new)
    } else {
        blocks.push(new)
    }
}

/// Why bytes are not a patch archive, if so.
pub open spec fn wad_refusal(raw: Seq<u8>) -> Option<Seq<char>> {
    if raw.len() < 0x48 || !has_tag(raw, 0, 'F', 'F', 'C', 'S') {
        Some("Not an FFCS WAD"@)
    } else if indx_chunk(raw) is None {
        Some("missing INDX"@)
    } else if aset_chunk(raw) is None {
        Some("missing ASET"@)
    } else if pths_chunk(raw) is None {
        Some("missing PTHS"@)
    } else {
        None
    }
}

/// A table of `count` rows of `len` bytes lies in the archive.
pub open spec fn table_fits(raw: Seq<u8>, offset: u32, count: u32, len: int) -> bool {
    count == 0 || offset + count * len <= raw.len()
}

/// Bytes are refused, or the tables of the archive lie in it and point into it.
pub open spec fn readable(raw: Seq<u8>) -> bool {
    wad_refusal(raw) is None ==> {
        let (indx, blocks) = indx_chunk(raw)->0;
        let (aset, assets) = aset_chunk(raw)->0;
        &&& table_fits(raw, indx, blocks, 12)
        &&& table_fits(raw, aset, assets, 16)
        &&& (pths_chunk(raw)->0).0 <= raw.len()
        &&& forall|i: int|
            0 <= i < blocks ==> #[trigger] u32_le(raw, indx + i * 12) * PAGE <= raw.len()
    }
}

/// Bytes are refused, or can be read and have room for one more block.
pub open spec fn mergeable(raw: Seq<u8>, new: PatchBlockView) -> bool {
    &&& readable(raw)
    &&& wad_refusal(raw) is None ==> wad_room(replaced(wad_blocks(raw), new))
}

/// The archive that `mercs2_formats::patch_wad::build_patch_wad_multi` makes of blocks under the
/// certificate that the game knows.
pub uninterp spec fn patch_wad(
    blocks: Seq<PatchBlockView>,
    csum_value: u32,
    csum_meta: Option<u32>,
) -> Seq<u8>;

/// The blocks that `mercs2_formats::patch_wad::read_patch_wad` finds in an archive.
pub uninterp spec fn wad_blocks(raw: Seq<u8>) -> Seq<PatchBlockView>;

/// Calls `mercs2_formats::patch_wad::build_patch_wad_multi` with one block and the certificate
/// `FFCS_CERT_BLOB`. Its result is named [`patch_wad`]; of the layout what [`laid_out`] says is
/// claimed. It panics where the tables do not fit in the archive.
#[verifier::external_body]
pub(crate) fn build_patch_wad_multi(
    block: &PatchBlock,
    csum_value: u32,
    csum_meta: Option<u32>,
) -> (wad: Vec<u8>)
    requires
        wad_room(seq![block@]),
    ensures
        wad@ == patch_wad(seq![block@], csum_value, csum_meta),
        laid_out(wad@, seq![block@], csum_value, csum_meta),
{
    let outside = mercs2_formats::patch_wad::PatchBlock {
        compressed_data: block.compressed_data.clone(),
        path_string: block.path_string.clone(),
        aset_entries: block.aset_entries.iter().map(|e| {
            mercs2_formats::patch_wad::AsetEntry::new(e.asset_hash, e.u32_1, e.u32_2, e.u32_3)
        }).collect(),
        packed_field: block.packed_field,
        flags: block.flags,
    };
    let cert = &mercs2_formats::patch_wad::FFCS_CERT_BLOB;
    mercs2_formats::patch_wad::build_patch_wad_multi(&[outside], csum_value, csum_meta, cert)
}

/// Calls `mercs2_formats::patch_wad::read_patch_wad` and claims that it refuses bytes as
/// [`wad_refusal`] says. What it finds is named [`wad_blocks`]; claimed of it is what [`reads_as`]
/// says, which leaves open how many zeros are left at the end of a block's data and how a block
/// without a path is called. It panics where a table, or a block's start, lies outside the archive.
#[verifier::external_body]
pub(crate) fn read_patch_wad(raw: &[u8]) -> (blocks: Result<Vec<PatchBlock>, String>)
    requires
        readable(raw@),
    ensures
        match blocks {
            Ok(found) => {
                &&& wad_refusal(raw@) is None
                &&& found@.map_values(|block: PatchBlock| block@) == wad_blocks(raw@)
                &&& reads_as(raw@, found@.map_values(|block: PatchBlock| block@))
            },
            Err(e) => wad_refusal(raw@) == Some(e@),
        },
{
    Ok(mercs2_formats::patch_wad::read_patch_wad(raw)?.blocks.into_iter().map(|b| PatchBlock {
        compressed_data: b.compressed_data,
        path_string: b.path_string,
        aset_entries: b.aset_entries.iter().map(|e| PatchAsetEntry {
            asset_hash: e.asset_hash,
            u32_1: e.u32_1,
            u32_2: e.u32_2,
            u32_3: e.u32_3,
        }).collect(),
        packed_field: b.packed_field,
        flags: b.flags,
    }).collect())
}

/// Calls `mercs2_formats::patch_wad::merge_patch_wads` with one block that is to replace the block
/// of its path, and claims that it reads the archive, puts the block in as [`replaced`] says, and
/// builds an archive of the result, as [`laid_out`] says, under the old checksum word. It panics where
/// reading or building does.
#[verifier::external_body]
pub(crate) fn merge_patch_wads(existing: &[u8], block: &PatchBlock) -> (wad: Result<
    Vec<u8>,
    String,
>)
    requires
        mergeable(existing@, block@),
    ensures
        match wad {
            Ok(w) => {
                &&& wad_refusal(existing@) is None
                &&& w@ == patch_wad(
                    replaced(wad_blocks(existing@), block@),
                    csum_word(existing@),
                    None,
                )
                &&& laid_out(
                    w@,
                    replaced(wad_blocks(existing@), block@),
                    csum_word(existing@),
                    None,
                )
            },
            Err(e) => wad_refusal(existing@) == Some(e@),
        },
{
    let outside = mercs2_formats::patch_wad::PatchBlock {
        compressed_data: block.compressed_data.clone(),
        path_string: block.path_string.clone(),
        aset_entries: block.aset_entries.iter().map(|e| {
            mercs2_formats::patch_wad::AsetEntry::new(e.asset_hash, e.u32_1, e.u32_2, e.u32_3)
        }).collect(),
        packed_field: block.packed_field,
        flags: block.flags,
    };
    mercs2_formats::patch_wad::merge_patch_wads(existing, vec![outside], true)
}

/// The page count of `len` bytes.
fn page_count(len: usize) -> (count: u32)
    ensures
        count == low32(pages(len as nat)),
{
    let whole: usize = len / PAGE;
    let rest: usize = if len % PAGE == 0 {
        0
    } else {
        1
    };
    assert(whole + rest == pages(len as nat));
    truncate32(whole + rest)
}

/// The patch block for the asset at `loc`, given its compressed data and the length of the data
/// before compression.
pub fn wrap_block(loc: &MovieLoc, len: usize, compressed_data: Vec<u8>) -> (block: PatchBlock)
    ensures
        block@ == asset_block(loc@, len as nat, compressed_data@),
{
    let mut aset_entries: Vec<PatchAsetEntry> = Vec::new();
    aset_entries.push(
        PatchAsetEntry {
            asset_hash: loc.name_hash,
            u32_1: loc.secondary_ref,
            u32_2: PRIMARY_ONLY,
            u32_3: loc.type_id,
        },
    );
    assert(aset_entries@ =~= asset_block(loc@, len as nat, compressed_data@).aset_entries);
    PatchBlock {
        compressed_data,
        path_string: loc.block_path.clone(),
        aset_entries,
        packed_field: page_count(len),
        flags: BLOCK_FLAGS,
    }
}

/// The patch block that overrides the movie at `loc` with `new_movie`.
pub fn patch_block(loc: &MovieLoc, new_movie: &[u8]) -> (block: Result<PatchBlock, Error>)
    requires
        header_covers_size(loc.container@),
    ensures
        match block {
            Ok(b) => {
                &&& rebuild_refusal(loc.container@) is None
                &&& b@ == override_block(loc@, new_movie@)
                &&& within_sges(
                    b@.compressed_data,
                    override_bytes(loc@, new_movie@).len(),
                ) ==> unpacks_to(b@.compressed_data, override_bytes(loc@, new_movie@))
            },
            Err(e) => rebuild_refusal(loc.container@) == Some(e@),
        },
{
    let container: Vec<u8> = match rebuild_container(loc.container.as_slice(), new_movie) {
        Ok(container) => container,
        Err(e) => {
            return Err(e);
        },
    };
    let block: Vec<u8> = build_block(
        loc.name_hash,
        loc.type_hash,
        loc.field_c,
        container.as_slice(),
    );
    match compress_sges(block.as_slice()) {
        Ok(compressed_data) => Ok(wrap_block(loc, block.len(), compressed_data)),
        Err(e) => {
            assert(block@.len() > 0);
            Err(Error::Sges(e))
        },
    }
}

/// The page count of a patch block covers the uncompressed block, and not a page more, up to the
/// largest block whose pages can be counted.
pub proof fn law_page_count_covers_block(loc: MovieLocView, movie: Seq<u8>)
    requires
        pages(override_bytes(loc, movie).len()) <= u32::MAX,
    ensures
        ({
            let count = override_block(loc, movie).packed_field;
            (count - 1) * PAGE < override_bytes(loc, movie).len() <= count * PAGE
        }),
{
    lemma_low32(pages(override_bytes(loc, movie).len()));
    assert(override_bytes(loc, movie).len() >= 20);
}

/// Room for one block.
proof fn lemma_single_block(block: PatchBlockView)
    ensures
        tables_len(seq![block]) == block_table_len(block),
        data_pages(seq![block]) == pages(block.compressed_data.len()),
{
    let blocks = seq![block];
    assert(blocks.drop_last() =~= Seq::empty());
    assert(tables_len(blocks.drop_last()) == 0);
    assert(data_pages(blocks.drop_last()) == 0);
}

/// What a block takes in the tables, and in data pages.
fn block_room(block: &PatchBlock) -> (room: (u128, u128))
    ensures
        room.0 == block_table_len(block@),
        room.1 == pages(block@.compressed_data.len()),
        room.0 <= 0x20_0000_0000_0000_0000,
        room.1 <= 0x1_0000_0000_0000_0000,
{
    let path_len: u128 = block.path_string.as_str().as_bytes().len() as u128;
    let table: u128 = 12 + 16 * block.aset_entries.len() as u128 + path_len + 1;
    let len: u128 = block.compressed_data.len() as u128;
    (table, (len + PAGE as u128 - 1) / PAGE as u128)
}

/// Whether tables and data pages of these sizes make an archive.
fn sizes_fit(tables: u128, pages_taken: u128) -> (fit: bool)
    requires
        tables <= 0x40_0000_0000_0000_0000_0000_0000,
        pages_taken <= 0x2_0000_0000_0000_0000_0000_0000,
    ensures
        fit == (PAGE + tables + PATHS_TRAILER_LEN <= (DATA_PAGE + pages_taken) * PAGE && (DATA_PAGE
            + pages_taken) * PAGE <= isize::MAX),
{
    let total: u128 = (DATA_PAGE as u128 + pages_taken) * PAGE as u128;
    PAGE as u128 + tables + PATHS_TRAILER_LEN as u128 <= total && total <= isize::MAX as u128
}

/// Whether [`build_wad`] can be asked for a block: its path fits in the archive.
pub fn can_build_wad(block: &PatchBlock) -> (possible: bool)
    ensures
        possible == wad_room(seq![block@]),
{
    let (table, taken) = block_room(block);
    proof {
        lemma_single_block(block@);
    }
    sizes_fit(table, taken)
}

/// A fresh patch with one block, under the checksum words of the archive that it overlays.
pub fn build_wad(block: &PatchBlock, csum_value: u32, csum_meta: Option<u32>) -> (wad: Vec<u8>)
    requires
        wad_room(seq![block@]),
    ensures
        wad@ == patch_wad(seq![block@], csum_value, csum_meta),
        laid_out(wad@, seq![block@], csum_value, csum_meta),
{
    build_patch_wad_multi(block, csum_value, csum_meta)
}

/// An existing patch with a block put in, in place of the one that has its path if there is one.
pub fn merge_wad(existing: &[u8], block: &PatchBlock) -> (wad: Result<Vec<u8>, Error>)
    requires
        mergeable(existing@, block@),
    ensures
        match wad {
            Ok(w) => {
                &&& wad_refusal(existing@) is None
                &&& w@ == patch_wad(
                    replaced(wad_blocks(existing@), block@),
                    csum_word(existing@),
                    None,
                )
                &&& laid_out(
                    w@,
                    replaced(wad_blocks(existing@), block@),
                    csum_word(existing@),
                    None,
                )
            },
            Err(e) => wad_refusal(existing@) matches Some(text) && e@ == ErrorView::Merge(text),
        },
{
    match merge_patch_wads(existing, block) {
        Ok(wad) => Ok(wad),
        Err(text) => Err(Error::Merge(text)),
    }
}

/// The last of an archive's chunk rows that carries a tag.
fn last_chunk(raw: &[u8], a: char, b: char, c: char, d: char) -> (found: Option<(u32, u32)>)
    requires
        raw@.len() >= 0x48,
    ensures
        found == chunk_among(raw@, 5, a, b, c, d),
{
    let mut found: Option<(u32, u32)> = None;
    let mut i: usize = 0;
    while i < 5
        invariant
            i <= 5,
            raw@.len() >= 0x48,
            found == chunk_among(raw@, i as nat, a, b, c, d),
        decreases 5 - i,
    {
        let row: usize = 12 + 12 * i;
        if tag_at(raw, row, a, b, c, d) {
            found = Some((read_u32_le(raw, row + 4), read_u32_le(raw, row + 8)));
        }
        i = i + 1;
    }
    found
}

/// Whether an existing patch can be read.
fn can_read_wad(raw: &[u8]) -> (possible: bool)
    ensures
        possible == readable(raw@),
{
    let len: usize = raw.len();
    if len < 0x48 || !tag_at(raw, 0, 'F', 'F', 'C', 'S') {
        return true;
    }
    let indx: Option<(u32, u32)> = last_chunk(raw, 'I', 'N', 'D', 'X');
    let aset: Option<(u32, u32)> = last_chunk(raw, 'A', 'S', 'E', 'T');
    let pths: Option<(u32, u32)> = last_chunk(raw, 'P', 'T', 'H', 'S');
    let (indx_at, blocks) = match indx {
        Some(chunk) => chunk,
        None => {
            return true;
        },
    };
    let (aset_at, assets) = match aset {
        Some(chunk) => chunk,
        None => {
            return true;
        },
    };
    let (pths_at, _paths) = match pths {
        Some(chunk) => chunk,
        None => {
            return true;
        },
    };
    if blocks != 0 && indx_at as u64 + blocks as u64 * 12 > len as u64 {
        return false;
    }
    if assets != 0 && aset_at as u64 + assets as u64 * 16 > len as u64 {
        return false;
    }
    if pths_at as u64 > len as u64 {
        return false;
    }
    let mut i: u32 = 0;
    while i < blocks
        invariant
            i <= blocks,
            len == raw@.len(),
            blocks != 0 ==> indx_at + blocks * 12 <= len,
            wad_refusal(raw@) is None,
            indx_chunk(raw@) == Some((indx_at, blocks)),
            forall|k: int|
                0 <= k < i ==> #[trigger] u32_le(raw@, indx_at + k * 12) * PAGE <= raw@.len(),
        decreases blocks - i,
    {
        assert(indx_at + i * 12 + 12 <= len);
        let page: u32 = read_u32_le(raw, indx_at as usize + i as usize * 12);
        assert(page == u32_le(raw@, indx_at + i * 12));
        if page as u64 * PAGE as u64 > len as u64 {
            return false;
        }
        i = i + 1;
    }
    true
}

/// A known first block with the path of `new` is the one that it takes the place of.
proof fn lemma_replaced(blocks: Seq<PatchBlockView>, new: PatchBlockView, i: int)
    requires
        first_with_path(blocks, new.path_string, i),
    ensures
        replaced(blocks, new) == blocks.update(i, new),
{
    let j = choose|j: int| first_with_path(blocks, new.path_string, j);
    assert(first_with_path(blocks, new.path_string, j));
    assert(!(i < j) && !(j < i));
}

/// Putting a block in changes nothing but the block of its path: every other block stays what and
/// where it was. Where no block has the path, the new one comes last.
pub proof fn law_merge_replaces_by_path(blocks: Seq<PatchBlockView>, new: PatchBlockView)
    ensures
        replaced(blocks, new).contains(new),
        forall|i: int|
            0 <= i < blocks.len() && blocks[i].path_string != new.path_string ==> replaced(
                blocks,
                new,
            )[i] == #[trigger] blocks[i],
        (exists|i: int| 0 <= i < blocks.len() && (#[trigger] blocks[i]).path_string
            == new.path_string) ==> replaced(blocks, new).len() == blocks.len(),
        (forall|i: int| 0 <= i < blocks.len() ==> (#[trigger] blocks[i]).path_string
            != new.path_string) ==> replaced(blocks, new) == blocks.push(new),
{
    let path = new.path_string;
    if exists|i: int| first_with_path(blocks, path, i) {
        let i = choose|i: int| first_with_path(blocks, path, i);
        assert(first_with_path(blocks, path, i));
        lemma_replaced(blocks, new, i);
        assert(replaced(blocks, new)[i] == new);
    } else {
        assert(replaced(blocks, new)[blocks.len() as int] == new);
        if exists|i: int| 0 <= i < blocks.len() && (#[trigger] blocks[i]).path_string == path {
            let i = choose|i: int|
                0 <= i < blocks.len() && (#[trigger] blocks[i]).path_string == path;
            lemma_some_block_is_first(blocks, path, i);
        }
    }
}

/// Where a block has a path, some block is the first that has it.
proof fn lemma_some_block_is_first(blocks: Seq<PatchBlockView>, path: Seq<char>, i: int)
    requires
        0 <= i < blocks.len(),
        blocks[i].path_string == path,
    ensures
        exists|j: int| first_with_path(blocks, path, j),
    decreases i,
{
    if exists|j: int| 0 <= j < i && (#[trigger] blocks[j]).path_string == path {
        let j = choose|j: int| 0 <= j < i && (#[trigger] blocks[j]).path_string == path;
        lemma_some_block_is_first(blocks, path, j);
    } else {
        assert(first_with_path(blocks, path, i));
    }
}

/// Putting the same block in again changes nothing.
pub proof fn law_merge_again(blocks: Seq<PatchBlockView>, new: PatchBlockView)
    ensures
        replaced(replaced(blocks, new), new) == replaced(blocks, new),
{
    let path = new.path_string;
    let once = replaced(blocks, new);
    let slot = if exists|i: int| first_with_path(blocks, path, i) {
        choose|i: int| first_with_path(blocks, path, i)
    } else {
        blocks.len() as int
    };
    assert(first_with_path(once, path, slot)) by {
        if !exists|i: int| first_with_path(blocks, path, i) {
            assert forall|j: int| 0 <= j < slot implies (#[trigger] once[j]).path_string != path by {
                if blocks[j].path_string == path {
                    lemma_some_block_is_first(blocks, path, j);
                }
            }
        } else {
            assert(first_with_path(blocks, path, slot));
            assert forall|j: int| 0 <= j < slot implies (#[trigger] once[j]).path_string != path by {
                assert(once[j] == blocks[j]);
            }
        }
    }
    lemma_replaced(once, new, slot);
    assert(once.update(slot, new) =~= once);
}

/// Which block has the path of `new`.
fn path_position(blocks: &Vec<PatchBlock>, new: &PatchBlock) -> (found: Option<usize>)
    ensures
        ({
            let views = blocks@.map_values(|block: PatchBlock| block@);
            match found {
                Some(i) => first_with_path(views, new@.path_string, i as int),
                None => forall|i: int| !first_with_path(views, new@.path_string, i),
            }
        }),
{
    let ghost views = blocks@.map_values(|block: PatchBlock| block@);
    let mut i: usize = 0;
    while i < blocks.len()
        invariant
            views == blocks@.map_values(|block: PatchBlock| block@),
            i <= blocks@.len(),
            forall|j: int| 0 <= j < i ==> (#[trigger] views[j]).path_string != new@.path_string,
        decreases blocks@.len() - i,
    {
        assert(views[i as int] == blocks@[i as int]@);
        if blocks[i].path_string == new.path_string {
            return Some(i);
        }
        i = i + 1;
    }
    None
}

/// Whether blocks with `new` put in make an archive.
pub fn has_room_for(blocks: &Vec<PatchBlock>, new: &PatchBlock) -> (room: bool)
    requires
        blocks@.len() <= u32::MAX,
    ensures
        room == wad_room(replaced(blocks@.map_values(|block: PatchBlock| block@), new@)),
{
    let ghost views = blocks@.map_values(|block: PatchBlock| block@);
    let ghost all = replaced(views, new@);
    let slot: Option<usize> = path_position(blocks, new);
    proof {
        if let Some(i) = slot {
            lemma_replaced(views, new@, i as int);
        }
    }
    let mut tables: u128 = 0;
    let mut taken: u128 = 0;
    let mut i: usize = 0;
    assert(all.subrange(0, 0) =~= Seq::empty());
    while i < blocks.len()
        invariant
            blocks@.len() <= u32::MAX,
            views == blocks@.map_values(|block: PatchBlock| block@),
            all == match slot {
                Some(k) => views.update(k as int, new@),
                None => views.push(new@),
            },
            slot matches Some(k) ==> k < views.len(),
            i <= blocks@.len(),
            tables == tables_len(all.subrange(0, i as int)),
            taken == data_pages(all.subrange(0, i as int)),
            tables <= i * 0x20_0000_0000_0000_0000,
            taken <= i * 0x1_0000_0000_0000_0000,
        decreases blocks@.len() - i,
    {
        let ghost next = all.subrange(0, i + 1);
        assert(next.drop_last() =~= all.subrange(0, i as int));
        let is_slot: bool = match slot {
            Some(k) => k == i,
            None => false,
        };
        let (table, pages_taken) = if is_slot {
            block_room(new)
        } else {
            block_room(&blocks[i])
        };
        assert(next.last() == if is_slot {
            new@
        } else {
            blocks@[i as int]@
        });
        tables = tables + table;
        taken = taken + pages_taken;
        i = i + 1;
    }
    if slot.is_none() {
        let ghost next = all;
        assert(next.drop_last() =~= all.subrange(0, i as int));
        let (table, pages_taken) = block_room(new);
        tables = tables + table;
        taken = taken + pages_taken;
    } else {
        assert(all.subrange(0, i as int) =~= all);
    }
    sizes_fit(tables, taken)
}

/// An existing patch with a block put in, as [`merge_wad`] makes it, or nothing where the existing
/// patch is damaged or has no room for the block.
pub fn try_merge_wad(existing: &[u8], block: &PatchBlock) -> (wad: Option<Result<Vec<u8>, Error>>)
    ensures
        match wad {
            Some(Ok(w)) => {
                &&& mergeable(existing@, block@)
                &&& wad_refusal(existing@) is None
                &&& reads_as(existing@, wad_blocks(existing@))
                &&& w@ == patch_wad(
                    replaced(wad_blocks(existing@), block@),
                    csum_word(existing@),
                    None,
                )
                &&& laid_out(
                    w@,
                    replaced(wad_blocks(existing@), block@),
                    csum_word(existing@),
                    None,
                )
            },
            Some(Err(e)) => {
                &&& mergeable(existing@, block@)
                &&& wad_refusal(existing@) matches Some(text)
                &&& e@ == ErrorView::Merge(text)
            },
            None => !mergeable(existing@, block@),
        },
{
    if !can_read_wad(existing) {
        return None;
    }
    if let Ok(blocks) = read_patch_wad(existing) {
        if !has_room_for(&blocks, block) {
            return None;
        }
    }
    Some(merge_wad(existing, block))
}

/// Pages of 32 KiB hold so many bytes, and one page less does not.
pub proof fn law_pages(len: nat)
    ensures
        len <= pages(len) * 32768,
        pages(len) > 0 ==> (pages(len) - 1) * 32768 < len,
{
}

/// The patch block of an asset has the path of its block and the given data, and lists that asset and
/// no other, under its hash, secondary reference and type, with no finer blocks. Its page count is
/// that of the data before compression, in 32 bits.
pub proof fn law_asset_block(loc: MovieLocView, len: nat, compressed: Seq<u8>)
    ensures
        ({
            let block = asset_block(loc, len, compressed);
            &&& block.compressed_data == compressed
            &&& block.path_string == loc.block_path
            &&& block.aset_entries.len() == 1
            &&& block.aset_entries[0].asset_hash == loc.name_hash
            &&& block.aset_entries[0].u32_1 == loc.secondary_ref
            &&& block.aset_entries[0].u32_2 == 65535
            &&& block.aset_entries[0].u32_3 == loc.type_id
            &&& block.flags == 32768
            &&& len <= 0xFFFF_FFFF * 32768 ==> len <= block.packed_field * 32768 && (
            block.packed_field > 0 ==> (block.packed_field - 1) * 32768 < len)
            &&& (pages(len) - block.packed_field) % 0x1_0000_0000 == 0
        }),
{
    law_pages(len);
    law_low_part(pages(len));
}

/// An override is the compressed form of a block of one entry, with the name hash, type hash and third
/// word that the movie had, and of the rebuilt container.
pub proof fn law_override_block(loc: MovieLocView, movie: Seq<u8>)
    ensures
        ({
            let b = override_bytes(loc, movie);
            let r = rebuilt(loc.container, movie);
            let block = override_block(loc, movie);
            &&& block.compressed_data == sges_stream(b)
            &&& block == asset_block(loc, b.len(), sges_stream(b))
            &&& b.len() == 20 + r.len()
            &&& u32_le(b, 0) == 1
            &&& u32_le(b, 4) == loc.name_hash
            &&& u32_le(b, 8) == loc.type_hash
            &&& u32_le(b, 12) == loc.field_c
            &&& (r.len() - u32_le(b, 16)) % 0x1_0000_0000 == 0
            &&& forall|i: int| 0 <= i < r.len() ==> b[20 + i] == r[i]
        }),
{
    law_built_bytes(
        loc.name_hash,
        loc.type_hash,
        loc.field_c,
        rebuilt(loc.container, movie),
    );
}

/// What blocks take up: nothing where there are none; a block more takes twelve bytes, sixteen for
/// each asset record, and its path with a zero byte in the tables, and its pages of data. A patch has
/// room for the tables, which start at the second page, with 259 bytes behind the paths, in 65 pages
/// and those of the data.
pub proof fn law_room(blocks: Seq<PatchBlockView>, block: PatchBlockView)
    ensures
        tables_len(Seq::empty()) == 0,
        data_pages(Seq::empty()) == 0,
        tables_len(blocks.push(block)) == tables_len(blocks) + 12 + 16 * block.aset_entries.len()
            + encode_utf8(block.path_string).len() + 1,
        block.compressed_data.len() <= (data_pages(blocks.push(block)) - data_pages(blocks)) * 32768,
        (data_pages(blocks.push(block)) - data_pages(blocks) - 1) * 32768
            < block.compressed_data.len() || data_pages(blocks.push(block)) == data_pages(blocks),
        data_pages(blocks.push(block)) >= data_pages(blocks),
        wad_len(blocks) == (65 + data_pages(blocks)) * 32768,
        wad_room(blocks) <==> 32768 + tables_len(blocks) + 259 <= (65 + data_pages(blocks)) * 32768
            && (65 + data_pages(blocks)) * 32768 <= isize::MAX,
{
    assert(blocks.push(block).drop_last() =~= blocks);
    law_pages(block.compressed_data.len());
}

/// A fresh patch has room for every block whose path is shorter than two million bytes, as far as
/// memory goes.
pub proof fn law_fresh_patch_has_room(block: PatchBlockView)
    requires
        block.aset_entries.len() == 1,
        encode_utf8(block.path_string).len() <= 2_000_000,
        block.compressed_data.len() + 66 * 32768 <= isize::MAX,
    ensures
        wad_room(seq![block]),
{
    let none = Seq::<PatchBlockView>::empty();
    law_room(none, block);
    law_room(seq![block], block);
    assert(none.push(block) =~= seq![block]);
}

/// The block that is put in takes the place of the first that has its path, and of no other.
pub proof fn law_first_of_path_is_replaced(
    blocks: Seq<PatchBlockView>,
    new: PatchBlockView,
    i: int,
)
    requires
        0 <= i < blocks.len(),
        blocks[i].path_string == new.path_string,
        forall|j: int| 0 <= j < i ==> (#[trigger] blocks[j]).path_string != new.path_string,
    ensures
        replaced(blocks, new).len() == blocks.len(),
        replaced(blocks, new)[i] == new,
        forall|j: int|
            0 <= j < blocks.len() && j != i ==> replaced(blocks, new)[j] == #[trigger] blocks[j],
{
    assert(first_with_path(blocks, new.path_string, i));
    lemma_replaced(blocks, new, i);
}

/// Row `k` of the five chunk rows of an archive carries a tag.
pub open spec fn row_tagged(raw: Seq<u8>, k: int, tag: Seq<char>) -> bool {
    raw.subrange(12 + 12 * k, 16 + 12 * k) == tag.map_values(|c: char| c as u8)
}

proof fn lemma_row_tagged(raw: Seq<u8>, k: int, a: char, b: char, c: char, d: char)
    requires
        raw.len() >= 72,
        0 <= k < 5,
    ensures
        row_tagged(raw, k, seq![a, b, c, d]) == has_tag(raw, 12 + 12 * k, a, b, c, d),
{
    law_tag(raw, 12 + 12 * k, a, b, c, d);
    assert(seq![a, b, c, d].map_values(|c: char| c as u8) =~= seq![
        a as u8,
        b as u8,
        c as u8,
        d as u8,
    ]);
}

/// A chunk of an archive is the last of its five rows that carries the tag, if one does, with the two
/// words behind the tag.
pub proof fn law_archive_chunk(
    raw: Seq<u8>,
    tag: Seq<char>,
    a: char,
    b: char,
    c: char,
    d: char,
)
    requires
        raw.len() >= 72,
        tag == seq![a, b, c, d],
    ensures
        chunk_among(raw, 5, a, b, c, d) is None <==> forall|k: int|
            0 <= k < 5 ==> !#[trigger] row_tagged(raw, k, tag),
        forall|k: int|
            {
                &&& 0 <= k < 5
                &&& #[trigger] row_tagged(raw, k, tag)
                &&& forall|j: int| k < j < 5 ==> !row_tagged(raw, j, tag)
            } ==> chunk_among(raw, 5, a, b, c, d) == Some(
                (u32_le(raw, 16 + 12 * k), u32_le(raw, 20 + 12 * k)),
            ),
{
    lemma_row_tagged(raw, 0, a, b, c, d);
    lemma_row_tagged(raw, 1, a, b, c, d);
    lemma_row_tagged(raw, 2, a, b, c, d);
    lemma_row_tagged(raw, 3, a, b, c, d);
    lemma_row_tagged(raw, 4, a, b, c, d);
    reveal_with_fuel(chunk_among, 6);
    assert forall|k: int|
        0 <= k < 5 && #[trigger] row_tagged(raw, k, tag) && (forall|j: int|
            k < j < 5 ==> !row_tagged(raw, j, tag)) implies chunk_among(raw, 5, a, b, c, d) == Some(
        (u32_le(raw, 16 + 12 * k), u32_le(raw, 20 + 12 * k)),
    ) by {
        assert(k < 1 ==> !row_tagged(raw, 1, tag));
        assert(k < 2 ==> !row_tagged(raw, 2, tag));
        assert(k < 3 ==> !row_tagged(raw, 3, tag));
        assert(k < 4 ==> !row_tagged(raw, 4, tag));
    }
    if chunk_among(raw, 5, a, b, c, d) is None {
        assert forall|k: int| 0 <= k < 5 implies !#[trigger] row_tagged(raw, k, tag) by {
            assert(k == 0 || k == 1 || k == 2 || k == 3 || k == 4);
        }
    }
}

/// Whether an archive has a chunk row with a tag.
pub open spec fn has_chunk(raw: Seq<u8>, tag: Seq<char>) -> bool {
    exists|k: int| 0 <= k < 5 && #[trigger] row_tagged(raw, k, tag)
}

/// What is a patch: at least 72 bytes that start with `FFCS` and have rows for the block table, the
/// asset table and the paths. The first of these that is missing is named.
pub proof fn law_what_is_a_patch(raw: Seq<u8>)
    ensures
        ({
            let named = raw.len() >= 72 && raw.subrange(0, 4) == seq![0x46u8, 0x46, 0x43, 0x53];
            let blocks = has_chunk(raw, seq!['I', 'N', 'D', 'X']);
            let assets = has_chunk(raw, seq!['A', 'S', 'E', 'T']);
            let paths = has_chunk(raw, seq!['P', 'T', 'H', 'S']);
            &&& !named ==> wad_refusal(raw) == Some("Not an FFCS WAD"@)
            &&& named && !blocks ==> wad_refusal(raw) == Some("missing INDX"@)
            &&& named && blocks && !assets ==> wad_refusal(raw) == Some("missing ASET"@)
            &&& named && blocks && assets && !paths ==> wad_refusal(raw) == Some("missing PTHS"@)
            &&& named && blocks && assets && paths ==> wad_refusal(raw) is None
        }),
{
    if raw.len() >= 72 {
        law_tag(raw, 0, 'F', 'F', 'C', 'S');
        law_archive_chunk(raw, seq!['I', 'N', 'D', 'X'], 'I', 'N', 'D', 'X');
        law_archive_chunk(raw, seq!['A', 'S', 'E', 'T'], 'A', 'S', 'E', 'T');
        law_archive_chunk(raw, seq!['P', 'T', 'H', 'S'], 'P', 'T', 'H', 'S');
    }
}

/// The checksum word of an archive is the first word of its last `CSUM` row, and 0 where it has none.
pub proof fn law_checksum_word(raw: Seq<u8>, tag: Seq<char>, k: int)
    requires
        raw.len() >= 72,
        tag == seq!['C', 'S', 'U', 'M'],
    ensures
        !has_chunk(raw, tag) ==> csum_word(raw) == 0,
        0 <= k < 5 && row_tagged(raw, k, tag) && (forall|j: int|
            k < j < 5 ==> !#[trigger] row_tagged(raw, j, tag)) ==> csum_word(raw) == u32_le(
            raw,
            16 + 12 * k,
        ),
{
    law_archive_chunk(raw, tag, 'C', 'S', 'U', 'M');
}

/// What can be read of an archive does not depend on how many blocks or assets it has, only on whether
/// its tables lie in it and the blocks start in it.
pub proof fn law_what_can_be_read(raw: Seq<u8>)
    ensures
        wad_refusal(raw) is Some ==> readable(raw),
        wad_refusal(raw) is None ==> {
            let (indx, blocks) = indx_chunk(raw)->0;
            let (aset, assets) = aset_chunk(raw)->0;
            let (pths, _) = pths_chunk(raw)->0;
            indx + 12 * blocks <= raw.len() && aset + 16 * assets <= raw.len() && pths <= raw.len()
                && (forall|i: int|
                0 <= i < blocks ==> #[trigger] u32_le(raw, indx + 12 * i) * 32768 <= raw.len())
                ==> readable(raw)
        },
        wad_refusal(raw) is None && readable(raw) ==> {
            let (indx, blocks) = indx_chunk(raw)->0;
            forall|i: int|
                0 <= i < blocks ==> #[trigger] u32_le(raw, indx + 12 * i) * 32768 <= raw.len()
        },
{
    if wad_refusal(raw) is None {
        let (indx, blocks) = indx_chunk(raw)->0;
        let (aset, assets) = aset_chunk(raw)->0;
        let (pths, _) = pths_chunk(raw)->0;
        if indx + 12 * blocks <= raw.len() && aset + 16 * assets <= raw.len() && pths <= raw.len()
            && (forall|i: int|
            0 <= i < blocks ==> #[trigger] u32_le(raw, indx + 12 * i) * 32768 <= raw.len()) {
            assert forall|i: int| 0 <= i < blocks implies #[trigger] u32_le(raw, indx + i * 12)
                * PAGE <= raw.len() by {
                assert(u32_le(raw, indx + 12 * i) * 32768 <= raw.len());
            }
        }
        if readable(raw) {
            assert forall|i: int| 0 <= i < blocks implies #[trigger] u32_le(raw, indx + 12 * i)
                * 32768 <= raw.len() by {
                assert(u32_le(raw, indx + i * 12) * PAGE <= raw.len());
            }
        }
    }
}

/// A patch block is told field by field.
pub proof fn law_patch_block_is_told_as_it_is(block: PatchBlock)
    ensures
        block@.compressed_data == block.compressed_data@,
        block@.path_string == block.path_string@,
        block@.aset_entries == block.aset_entries@,
        block@.packed_field == block.packed_field,
        block@.flags == block.flags,
{
}

/// What blocks take up with one of them exchanged.
proof fn lemma_exchanged(blocks: Seq<PatchBlockView>, new: PatchBlockView, i: int)
    requires
        0 <= i < blocks.len(),
    ensures
        tables_len(blocks.update(i, new)) <= tables_len(blocks) + block_table_len(new),
        data_pages(blocks.update(i, new)) <= data_pages(blocks) + pages(
            new.compressed_data.len(),
        ),
    decreases blocks.len(),
{
    let all = blocks.update(i, new);
    if i < blocks.len() - 1 {
        lemma_exchanged(blocks.drop_last(), new, i);
        assert(all.drop_last() =~= blocks.drop_last().update(i, new));
    } else {
        assert(all.drop_last() =~= blocks.drop_last());
    }
}

/// There is room for a block more where its path and record fit in the tables in front of the data, and
/// its pages in memory. It makes no difference how many blocks there are.
pub proof fn law_room_for_one_more(blocks: Seq<PatchBlockView>, new: PatchBlockView)
    requires
        32768 + tables_len(blocks) + 12 + 16 * new.aset_entries.len() + encode_utf8(
            new.path_string,
        ).len() + 1 + 259 <= 65 * 32768,
        (66 + data_pages(blocks)) * 32768 + new.compressed_data.len() <= isize::MAX,
    ensures
        wad_room(replaced(blocks, new)),
{
    law_pages(new.compressed_data.len());
    if exists|i: int| first_with_path(blocks, new.path_string, i) {
        let i = choose|i: int| first_with_path(blocks, new.path_string, i);
        lemma_exchanged(blocks, new, i);
    } else {
        assert(blocks.push(new).drop_last() =~= blocks);
    }
    law_room(replaced(blocks, new), new);
}

/// An archive that is refused is merged into to be told so; one that is damaged, or that has no room,
/// is not merged into.
pub proof fn law_what_is_not_merged_into(raw: Seq<u8>, new: PatchBlockView)
    ensures
        wad_refusal(raw) is Some ==> mergeable(raw, new),
        wad_refusal(raw) is None ==> {
            let (indx, blocks) = indx_chunk(raw)->0;
            let (aset, assets) = aset_chunk(raw)->0;
            let (pths, _) = pths_chunk(raw)->0;
            &&& blocks > 0 && indx + 12 * blocks > raw.len() ==> !mergeable(raw, new)
            &&& assets > 0 && aset + 16 * assets > raw.len() ==> !mergeable(raw, new)
            &&& pths > raw.len() ==> !mergeable(raw, new)
            &&& !wad_room(replaced(wad_blocks(raw), new)) ==> !mergeable(raw, new)
        },
        !readable(raw) ==> !mergeable(raw, new),
{
}

} // verus!
