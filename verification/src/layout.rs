//! How a patch archive lays out its blocks, and what comes back from it.
use vstd::prelude::*;
use vstd::utf8::{encode_utf8, encode_utf8_decode_utf8, encode_utf8_valid_utf8};

use crate::archive::{asset_listed, block_of, law_first_listing, AsetEntry};
use crate::block::{
    law_extract_after_build, law_locate_in_built_block, movie_in_block, MovieLocView,
};
use crate::bytes::{has_tag, law_low_part, lemma_low32, low32, u32_le};
use crate::container::{data_chunk, header_covers_size, rebuild_refusal, rebuilt, row_offset};
use crate::patch::{
    data_pages, law_merge_replaces_by_path, law_room_for_one_more, mergeable, override_block, override_bytes, pages,
    readable, replaced, tables_len, wad_blocks, wad_len, wad_refusal, wad_room, PatchAsetEntry,
    PatchBlockView, DATA_PAGE, PAGE, PATHS_TRAILER_LEN,
};
use crate::sges::{sges_data, sges_refusal, unpacks_to, zeros};
use crate::strings::{decoded_text, lower_case};

verus! {

/// Offset and meta word of the last of the first `n` chunk rows of an archive that carries a tag.
pub open spec fn chunk_among(raw: Seq<u8>, n: nat, a: char, b: char, c: char, d: char) -> Option<
    (u32, u32),
>
    decreases n,
{
    if n == 0 {
        None
    } else {
        let row = 12 + 12 * (n - 1);
        if has_tag(raw, row, a, b, c, d) {
            Some((u32_le(raw, row + 4), u32_le(raw, row + 8)))
        } else {
            chunk_among(raw, (n - 1) as nat, a, b, c, d)
        }
    }
}

/// Offset and block count of an archive's block table.
pub open spec fn indx_chunk(raw: Seq<u8>) -> Option<(u32, u32)> {
    chunk_among(raw, 5, 'I', 'N', 'D', 'X')
}

/// Offset and row count of an archive's asset table.
pub open spec fn aset_chunk(raw: Seq<u8>) -> Option<(u32, u32)> {
    chunk_among(raw, 5, 'A', 'S', 'E', 'T')
}

/// Offset and path count of an archive's path table.
pub open spec fn pths_chunk(raw: Seq<u8>) -> Option<(u32, u32)> {
    chunk_among(raw, 5, 'P', 'T', 'H', 'S')
}

/// The checksum word of an archive.
pub open spec fn csum_word(raw: Seq<u8>) -> u32 {
    match chunk_among(raw, 5, 'C', 'S', 'U', 'M') {
        Some((offset, _)) => offset,
        None => 0,
    }
}

/// The asset row that stands at `at`.
pub open spec fn asset_at(wad: Seq<u8>, at: int) -> AsetEntry {
    AsetEntry {
        asset_hash: u32_le(wad, at),
        secondary_ref: u32_le(wad, at + 4),
        packed_block_ref: u32_le(wad, at + 8),
        type_id: u32_le(wad, at + 12),
    }
}

/// Asset records of blocks.
pub open spec fn asset_count(blocks: Seq<PatchBlockView>) -> nat
    decreases blocks.len(),
{
    if blocks.len() == 0 {
        0
    } else {
        asset_count(blocks.drop_last()) + blocks.last().aset_entries.len()
    }
}

/// Bytes of the paths of blocks, with a zero byte behind each.
pub open spec fn paths_len(blocks: Seq<PatchBlockView>) -> nat
    decreases blocks.len(),
{
    if blocks.len() == 0 {
        0
    } else {
        paths_len(blocks.drop_last()) + encode_utf8(blocks.last().path_string).len() + 1
    }
}

/// Where the index record of block `i` stands in a patch.
pub open spec fn record_at(i: int) -> int {
    PAGE + 12 * i
}

/// Where the asset records of block `i` stand in a patch.
pub open spec fn assets_at(blocks: Seq<PatchBlockView>, i: int) -> int {
    PAGE + 12 * blocks.len() + 16 * asset_count(blocks.take(i))
}

/// Where the path of block `i` stands in a patch.
pub open spec fn path_at(blocks: Seq<PatchBlockView>, i: int) -> int {
    assets_at(blocks, blocks.len() as int) + paths_len(blocks.take(i))
}

/// The page at which the data of block `i` starts in a patch.
pub open spec fn block_page(blocks: Seq<PatchBlockView>, i: int) -> nat {
    DATA_PAGE as nat + data_pages(blocks.take(i))
}

/// The tables of a patch end before its data starts.
pub open spec fn tables_before_data(blocks: Seq<PatchBlockView>) -> bool {
    PAGE + tables_len(blocks) + PATHS_TRAILER_LEN <= DATA_PAGE * PAGE
}

/// The block with this path is the one whose assets are always loaded.
pub open spec fn resident_path(path: Seq<char>) -> bool {
    "\\resident_p000_q3.block"@.is_suffix_of(
        lower_case(path).map_values(
            |c: char|
                if c == '/' {
                    '\\'
                } else {
                    c
                },
        ),
    )
}

/// How many assets the first resident block has.
pub open spec fn resident_assets(blocks: Seq<PatchBlockView>) -> nat
    decreases blocks.len(),
{
    if blocks.len() == 0 {
        0
    } else if resident_path(blocks[0].path_string) {
        blocks[0].aset_entries.len()
    } else {
        resident_assets(blocks.drop_first())
    }
}

/// The header of a patch: its version and its five chunk rows.
#[verifier::opaque]
pub open spec fn header_laid_out(
    wad: Seq<u8>,
    blocks: Seq<PatchBlockView>,
    csum_value: u32,
    csum_meta: Option<u32>,
) -> bool {
    let n = blocks.len();
    &&& has_tag(wad, 0, 'F', 'F', 'C', 'S')
    &&& u32_le(wad, 4) == 2
    &&& u32_le(wad, 8) == 7
    &&& has_tag(wad, 0x0C, 'I', 'N', 'D', 'X')
    &&& u32_le(wad, 0x10) == PAGE
    &&& u32_le(wad, 0x14) == low32(n)
    &&& has_tag(wad, 0x18, 'D', 'A', 'T', 'A')
    &&& u32_le(wad, 0x1C) == DATA_PAGE * PAGE
    &&& has_tag(wad, 0x24, 'C', 'S', 'U', 'M')
    &&& u32_le(wad, 0x28) == csum_value
    &&& u32_le(wad, 0x2C) == match csum_meta {
        Some(meta) => meta,
        None => low32(resident_assets(blocks)),
    }
    &&& has_tag(wad, 0x30, 'A', 'S', 'E', 'T')
    &&& u32_le(wad, 0x34) == low32(assets_at(blocks, 0) as nat)
    &&& u32_le(wad, 0x38) == low32(asset_count(blocks))
    &&& has_tag(wad, 0x3C, 'P', 'T', 'H', 'S')
    &&& u32_le(wad, 0x40) == low32(path_at(blocks, 0) as nat)
    &&& u32_le(wad, 0x44) == low32(n)
}

/// Data with zeros behind it up to the end of its last page.
pub open spec fn padded(data: Seq<u8>) -> Seq<u8> {
    data + zeros((pages(data.len()) * PAGE - data.len()) as nat)
}

/// Block `i` of a patch: its index record, its asset records, which point to it, its path, and its
/// data, with zeros up to the end of the last page.
#[verifier::opaque]
pub open spec fn block_laid_out(wad: Seq<u8>, blocks: Seq<PatchBlockView>, i: int) -> bool {
    let block = blocks[i];
    let page = block_page(blocks, i);
    let taken = pages(block.compressed_data.len());
    let path = encode_utf8(block.path_string);
    &&& u32_le(wad, record_at(i)) == low32(page)
    &&& u32_le(wad, record_at(i) + 4) == block.packed_field
    &&& taken <= 0xFFFF ==> u32_le(wad, record_at(i) + 8) == block.flags * 0x1_0000 + taken
    &&& i <= 0xFFFF ==> forall|k: int|
        0 <= k < block.aset_entries.len() ==> #[trigger] asset_at(
            wad,
            assets_at(blocks, i) + 16 * k,
        ) == (AsetEntry {
            asset_hash: block.aset_entries[k].asset_hash,
            secondary_ref: block.aset_entries[k].u32_1,
            packed_block_ref: (i * 0x1_0000 + block.aset_entries[k].u32_2 % 0x1_0000) as u32,
            type_id: block.aset_entries[k].u32_3,
        })
    &&& wad.subrange(path_at(blocks, i), path_at(blocks, i) + path.len() + 1) == path + zeros(1)
    &&& wad.subrange((page * PAGE) as int, ((page + taken) * PAGE) as int) == padded(
        block.compressed_data,
    )
}

/// `wad` is a patch with these blocks. Of its blocks something is said where the tables end before
/// the data starts; the certificate and what follows the paths are left open.
pub open spec fn laid_out(
    wad: Seq<u8>,
    blocks: Seq<PatchBlockView>,
    csum_value: u32,
    csum_meta: Option<u32>,
) -> bool {
    &&& wad.len() == wad_len(blocks)
    &&& header_laid_out(wad, blocks, csum_value, csum_meta)
    &&& tables_before_data(blocks) ==> forall|i: int|
        0 <= i < blocks.len() ==> #[trigger] block_laid_out(wad, blocks, i)
}

/// The pages that the index record at `record` gives a block.
pub open spec fn stored_pages(wad: Seq<u8>, record: int) -> Seq<u8> {
    let start = u32_le(wad, record) * PAGE;
    wad.subrange(start, start + u32_le(wad, record + 8) % 0x1_0000 * PAGE)
}

/// The first zero byte at or behind `at` stands at `end`.
pub open spec fn ends_at(raw: Seq<u8>, at: int, end: int) -> bool {
    &&& at <= end < raw.len()
    &&& raw[end] == 0
    &&& forall|j: int| at <= j < end ==> raw[j] != 0
}

/// Where the first zero byte at or behind `at` stands.
pub open spec fn zero_from(raw: Seq<u8>, at: int) -> Option<int> {
    if exists|end: int| ends_at(raw, at, end) {
        Some(choose|end: int| ends_at(raw, at, end))
    } else {
        None
    }
}

/// Where path `i` of an archive starts: behind the zero bytes that end the paths before it.
pub open spec fn path_start(raw: Seq<u8>, i: nat) -> Option<int>
    decreases i,
{
    if i == 0 {
        Some((pths_chunk(raw)->0).0 as int)
    } else {
        match path_start(raw, (i - 1) as nat) {
            Some(at) => match zero_from(raw, at) {
                Some(end) => Some(end + 1),
                None => None,
            },
            None => None,
        }
    }
}

/// Where path `i` of an archive starts and where the zero byte stands that ends it.
pub open spec fn path_span(raw: Seq<u8>, i: nat) -> Option<(int, int)> {
    match path_start(raw, i) {
        Some(at) => match zero_from(raw, at) {
            Some(end) => Some((at, end)),
            None => None,
        },
        None => None,
    }
}

/// An asset row as the asset record of a block.
pub open spec fn record_of(row: AsetEntry) -> PatchAsetEntry {
    PatchAsetEntry {
        asset_hash: row.asset_hash,
        u32_1: row.secondary_ref,
        u32_2: row.packed_block_ref,
        u32_3: row.type_id,
    }
}

/// The records of those of the first `n` asset rows at `at` that point to block `i`.
pub open spec fn records_of(raw: Seq<u8>, at: int, n: nat, i: int) -> Seq<PatchAsetEntry>
    decreases n,
{
    if n == 0 {
        Seq::empty()
    } else {
        let before = records_of(raw, at, (n - 1) as nat, i);
        let row = asset_at(raw, at + 16 * (n - 1));
        if block_of(row) == i {
            before.push(record_of(row))
        } else {
            before
        }
    }
}

/// The pages that the index record at `record` gives a block, as far as the archive has them.
pub open spec fn pages_there(raw: Seq<u8>, record: int) -> Seq<u8> {
    let start = u32_le(raw, record) * PAGE;
    let end = start + u32_le(raw, record + 8) % 0x1_0000 * PAGE;
    raw.subrange(
        start,
        if end <= raw.len() {
            end
        } else {
            raw.len() as int
        },
    )
}

/// `block` is block `i` of an archive as it is read: with the words of its index record, with the
/// asset rows that point to it, under its path if it has one, and with its pages but for zeros at
/// their end.
#[verifier::opaque]
pub open spec fn block_read(raw: Seq<u8>, block: PatchBlockView, i: int) -> bool {
    let (indx, _) = indx_chunk(raw)->0;
    let (aset, assets) = aset_chunk(raw)->0;
    let (_, paths) = pths_chunk(raw)->0;
    let record = indx + 12 * i;
    let stored = pages_there(raw, record);
    &&& block.packed_field == u32_le(raw, record + 4)
    &&& block.flags == u32_le(raw, record + 8) / 0x1_0000
    &&& block.aset_entries == records_of(raw, aset as int, assets as nat, i)
    &&& i < paths ==> (path_span(raw, i as nat) matches Some((at, end)) ==> block.path_string
        == decoded_text(raw.subrange(at, end)))
    &&& block.compressed_data.len() <= stored.len()
    &&& stored == block.compressed_data + zeros(
        (stored.len() - block.compressed_data.len()) as nat,
    )
}

/// `found` are the blocks of an archive as they are read.
pub open spec fn reads_as(raw: Seq<u8>, found: Seq<PatchBlockView>) -> bool {
    &&& found.len() == (indx_chunk(raw)->0).1
    &&& forall|i: int| 0 <= i < found.len() ==> #[trigger] block_read(raw, found[i], i)
}

/// No zero byte stands in the path of one of the first `n` blocks, where it would end the path.
pub open spec fn paths_without_zeros(blocks: Seq<PatchBlockView>, n: int) -> bool {
    forall|j: int, k: int|
        0 <= j < n && 0 <= k < encode_utf8(blocks[j].path_string).len() ==> #[trigger] encode_utf8(
            blocks[j].path_string,
        )[k] != 0
}

/// The asset records of block `i`, pointing to block `i`.
pub open spec fn pointed(block: PatchBlockView, i: int) -> Seq<PatchAsetEntry> {
    Seq::new(
        block.aset_entries.len(),
        |k: int|
            PatchAsetEntry {
                u32_2: (i * 0x1_0000 + block.aset_entries[k].u32_2 % 0x1_0000) as u32,
                ..block.aset_entries[k]
            },
    )
}

/// The last page of some data is not all zeros.
pub open spec fn fills_last_page(data: Seq<u8>) -> bool {
    exists|q: int|
        (pages(data.len()) - 1) * PAGE <= q < data.len() && 0 <= q && #[trigger] data[q] != 0
}

/// Block `i` of a patch, `was`, is read as `is`: as it was, but for asset records that point to it
/// and zeros at the end of the data.
pub open spec fn read_back(was: PatchBlockView, is: PatchBlockView, i: int) -> bool {
    &&& is.packed_field == was.packed_field
    &&& is.flags == was.flags
    &&& is.path_string == was.path_string
    &&& is.aset_entries == pointed(was, i)
    &&& is.compressed_data.len() <= padded(was.compressed_data).len()
    &&& padded(was.compressed_data) == is.compressed_data + zeros(
        (padded(was.compressed_data).len() - is.compressed_data.len()) as nat,
    )
}

/// Block `i` of a patch, its pages and its assets can be numbered in the tables.
pub open spec fn numbered(blocks: Seq<PatchBlockView>, i: int) -> bool {
    &&& 0 <= i < blocks.len()
    &&& i <= 0xFFFF
    &&& pages(blocks[i].compressed_data.len()) <= 0xFFFF
    &&& block_page(blocks, i) <= u32::MAX
}

/// The container at `loc` takes `movie`: a movie container as the game has them, whose movie starts
/// the data area, and a movie with which its size can be written down.
pub open spec fn injectable(loc: MovieLocView, movie: Seq<u8>) -> bool {
    &&& rebuild_refusal(loc.container) is None
    &&& header_covers_size(loc.container)
    &&& row_offset(loc.container, 0) == 0
    &&& rebuilt(loc.container, movie).len() <= u32::MAX
}

/// The asset record at `row` lists the movie at `loc` as before, now in block `i`, and the pages that
/// the index record at `record` gives decompress to a block in which `movie` is located by that asset
/// record, under its old entry, and extracted byte for byte.
#[verifier::opaque]
pub open spec fn gives_movie(
    wad: Seq<u8>,
    record: int,
    row: int,
    i: int,
    loc: MovieLocView,
    movie: Seq<u8>,
    paths: Seq<String>,
) -> bool {
    let asset = asset_at(wad, row);
    let stored = stored_pages(wad, record);
    &&& asset.asset_hash == loc.name_hash
    &&& asset.secondary_ref == loc.secondary_ref
    &&& asset.type_id == loc.type_id
    &&& block_of(asset) == i
    &&& sges_refusal(stored) is None
    &&& sges_data(stored) == override_bytes(loc, movie)
    &&& movie_in_block(sges_data(stored), asset, paths) matches Ok(found)
    &&& found.type_hash == loc.type_hash
    &&& found.field_c == loc.field_c
    &&& data_chunk(found.container) == Some(movie)
}

/// The rows of an archive's asset table.
pub open spec fn archive_assets(wad: Seq<u8>) -> Seq<AsetEntry> {
    match aset_chunk(wad) {
        Some((at, count)) => Seq::new(count as nat, |k: int| asset_at(wad, at + 16 * k)),
        None => Seq::empty(),
    }
}

/// What extraction gives for a name hash from an archive whose blocks are sges streams: the `data`
/// chunk of the container that is located in the block of the first asset row with this hash.
pub open spec fn extracted(wad: Seq<u8>, hash: u32, paths: Seq<String>) -> Option<Seq<u8>> {
    match (asset_listed(archive_assets(wad), hash), indx_chunk(wad)) {
        (Some(asset), Some((indx, _))) => {
            let stored = stored_pages(wad, indx + 12 * block_of(asset));
            match movie_in_block(sges_data(stored), asset, paths) {
                Ok(found) => if sges_refusal(stored) is None {
                    data_chunk(found.container)
                } else {
                    None
                },
                Err(_) => None,
            }
        },
        _ => None,
    }
}

/// None of the first `i` blocks lists an asset under this hash.
pub open spec fn unlisted_before(blocks: Seq<PatchBlockView>, i: int, hash: u32) -> bool {
    forall|j: int, k: int|
        0 <= j < i && 0 <= k < blocks[j].aset_entries.len() ==> (
        #[trigger] blocks[j].aset_entries[k]).asset_hash != hash
}

/// What the tables take.
proof fn lemma_tables_len(blocks: Seq<PatchBlockView>)
    ensures
        tables_len(blocks) == 12 * blocks.len() + 16 * asset_count(blocks) + paths_len(blocks),
    decreases blocks.len(),
{
    if blocks.len() > 0 {
        lemma_tables_len(blocks.drop_last());
    }
}

/// Counts over the first blocks, with one block more.
proof fn lemma_one_more(blocks: Seq<PatchBlockView>, i: int)
    requires
        0 <= i < blocks.len(),
    ensures
        asset_count(blocks.take(i + 1)) == asset_count(blocks.take(i))
            + blocks[i].aset_entries.len(),
        paths_len(blocks.take(i + 1)) == paths_len(blocks.take(i)) + encode_utf8(
            blocks[i].path_string,
        ).len() + 1,
        data_pages(blocks.take(i + 1)) == data_pages(blocks.take(i)) + pages(
            blocks[i].compressed_data.len(),
        ),
{
    let next = blocks.take(i + 1);
    assert(next.drop_last() =~= blocks.take(i));
    assert(next.last() == blocks[i]);
}

/// Counts over the first blocks do not exceed those over all.
proof fn lemma_counts(blocks: Seq<PatchBlockView>, i: int)
    requires
        0 <= i <= blocks.len(),
    ensures
        asset_count(blocks.take(i)) <= asset_count(blocks),
        paths_len(blocks.take(i)) <= paths_len(blocks),
        data_pages(blocks.take(i)) <= data_pages(blocks),
    decreases blocks.len() - i,
{
    if i < blocks.len() {
        lemma_one_more(blocks, i);
        lemma_counts(blocks, i + 1);
    } else {
        assert(blocks.take(i) =~= blocks);
    }
}

/// Where the header of a patch says that its tables stand.
proof fn lemma_patch_chunks(
    wad: Seq<u8>,
    blocks: Seq<PatchBlockView>,
    csum_value: u32,
    csum_meta: Option<u32>,
)
    requires
        header_laid_out(wad, blocks, csum_value, csum_meta),
        tables_before_data(blocks),
    ensures
        indx_chunk(wad) == Some((PAGE as u32, blocks.len() as u32)),
        aset_chunk(wad) == Some((assets_at(blocks, 0) as u32, asset_count(blocks) as u32)),
        pths_chunk(wad) == Some((path_at(blocks, 0) as u32, blocks.len() as u32)),
        blocks.len() <= u32::MAX,
        asset_count(blocks) <= u32::MAX,
        0 <= assets_at(blocks, 0) <= u32::MAX,
        0 <= path_at(blocks, 0) <= u32::MAX,
{
    reveal(header_laid_out);
    reveal_with_fuel(chunk_among, 6);
    lemma_tables_len(blocks);
    assert(blocks.take(0) =~= Seq::empty());
    assert(blocks.take(blocks.len() as int) =~= blocks);
    lemma_low32(blocks.len());
    lemma_low32(asset_count(blocks));
    lemma_low32(assets_at(blocks, 0) as nat);
    lemma_low32(path_at(blocks, 0) as nat);
}

/// The asset record of a block that has one.
proof fn lemma_asset_record(wad: Seq<u8>, blocks: Seq<PatchBlockView>, i: int)
    requires
        block_laid_out(wad, blocks, i),
        0 <= i <= 0xFFFF,
        blocks[i].aset_entries.len() == 1,
    ensures
        ({
            let asset = asset_at(wad, assets_at(blocks, i));
            &&& asset.asset_hash == blocks[i].aset_entries[0].asset_hash
            &&& asset.secondary_ref == blocks[i].aset_entries[0].u32_1
            &&& asset.type_id == blocks[i].aset_entries[0].u32_3
            &&& block_of(asset) == i
        }),
{
    reveal(block_laid_out);
    let asset = asset_at(wad, assets_at(blocks, i) + 16 * 0);
    assert(asset == asset_at(wad, assets_at(blocks, i)));
    assert(asset.packed_block_ref == i * 0x1_0000 + blocks[i].aset_entries[0].u32_2 % 0x1_0000);
}

/// The pages that the index gives a block are its data with zeros behind it.
proof fn lemma_stored_pages(wad: Seq<u8>, blocks: Seq<PatchBlockView>, i: int)
    requires
        block_laid_out(wad, blocks, i),
        numbered(blocks, i),
    ensures
        u32_le(wad, record_at(i)) == block_page(blocks, i),
        u32_le(wad, record_at(i) + 8) % 0x1_0000 == pages(blocks[i].compressed_data.len()),
        u32_le(wad, record_at(i) + 8) / 0x1_0000 == blocks[i].flags,
        stored_pages(wad, record_at(i)) == padded(blocks[i].compressed_data),
{
    reveal(block_laid_out);
    let taken = pages(blocks[i].compressed_data.len());
    lemma_low32(block_page(blocks, i));
    let word = u32_le(wad, record_at(i) + 8);
    assert(word == blocks[i].flags * 0x1_0000 + taken);
    assert(word % 0x1_0000 == taken && word / 0x1_0000 == blocks[i].flags);
}

/// What stored pages give, where they decompress to the block of an override.
proof fn lemma_gives_movie(
    wad: Seq<u8>,
    blocks: Seq<PatchBlockView>,
    i: int,
    loc: MovieLocView,
    movie: Seq<u8>,
    paths: Seq<String>,
)
    requires
        injectable(loc, movie),
        sges_refusal(stored_pages(wad, record_at(i))) is None,
        sges_data(stored_pages(wad, record_at(i))) == override_bytes(loc, movie),
        ({
            let asset = asset_at(wad, assets_at(blocks, i));
            &&& asset.asset_hash == loc.name_hash
            &&& asset.secondary_ref == loc.secondary_ref
            &&& asset.type_id == loc.type_id
            &&& block_of(asset) == i
        }),
    ensures
        gives_movie(wad, record_at(i), assets_at(blocks, i), i, loc, movie, paths),
{
    reveal(gives_movie);
    let asset = asset_at(wad, assets_at(blocks, i));
    law_extract_after_build(asset, loc.type_hash, loc.field_c, loc.container, movie, paths);
    law_locate_in_built_block(
        asset,
        loc.type_hash,
        loc.field_c,
        rebuilt(loc.container, movie),
        paths,
    );
}

/// The pages that the index of a patch gives block `i` decompress to what the block's stream was made
/// of.
pub proof fn law_patch_stores_block(
    wad: Seq<u8>,
    blocks: Seq<PatchBlockView>,
    i: int,
    data: Seq<u8>,
    csum_value: u32,
    csum_meta: Option<u32>,
)
    requires
        laid_out(wad, blocks, csum_value, csum_meta),
        tables_before_data(blocks),
        numbered(blocks, i),
        unpacks_to(blocks[i].compressed_data, data),
    ensures
        sges_refusal(stored_pages(wad, record_at(i))) is None,
        sges_data(stored_pages(wad, record_at(i))) == data,
{
    assert(block_laid_out(wad, blocks, i));
    lemma_stored_pages(wad, blocks, i);
    lemma_padded(blocks[i].compressed_data, data);
}

/// An injected movie comes back from a patch, fresh or merged, byte for byte and whatever its size:
/// block `i` of the patch, made to override the movie at `loc`, gives the movie. Where no block
/// before it lists the same asset, as in a fresh patch, extraction by the asset's name gives it. What
/// has to be numbered in the tables can be, and the tables end before the data.
pub proof fn law_movie_comes_back_from_patch(
    wad: Seq<u8>,
    blocks: Seq<PatchBlockView>,
    i: int,
    loc: MovieLocView,
    movie: Seq<u8>,
    csum_value: u32,
    csum_meta: Option<u32>,
    paths: Seq<String>,
)
    requires
        laid_out(wad, blocks, csum_value, csum_meta),
        tables_before_data(blocks),
        numbered(blocks, i),
        injectable(loc, movie),
        blocks[i] == override_block(loc, movie),
        unpacks_to(blocks[i].compressed_data, override_bytes(loc, movie)),
    ensures
        gives_movie(wad, record_at(i), assets_at(blocks, i), i, loc, movie, paths),
        unlisted_before(blocks, i, loc.name_hash) ==> extracted(wad, loc.name_hash, paths) == Some(
            movie,
        ),
{
    assert(block_laid_out(wad, blocks, i));
    lemma_patch_chunks(wad, blocks, csum_value, csum_meta);
    lemma_override_record(wad, blocks, i, loc, movie);
    law_patch_stores_block(wad, blocks, i, override_bytes(loc, movie), csum_value, csum_meta);
    lemma_gives_movie(wad, blocks, i, loc, movie, paths);
    if unlisted_before(blocks, i, loc.name_hash) {
        lemma_extracted(wad, blocks, i, loc, movie, paths);
    }
}

/// A movie built into a fresh patch is extracted from it by the asset's name, byte for byte. The path
/// leaves the tables in front of the data, and the stream has pages that can be counted.
pub proof fn law_fresh_patch_gives_movie(
    wad: Seq<u8>,
    loc: MovieLocView,
    movie: Seq<u8>,
    csum_value: u32,
    csum_meta: Option<u32>,
    paths: Seq<String>,
)
    requires
        laid_out(wad, seq![override_block(loc, movie)], csum_value, csum_meta),
        injectable(loc, movie),
        unpacks_to(override_block(loc, movie).compressed_data, override_bytes(loc, movie)),
        pages(override_block(loc, movie).compressed_data.len()) <= 0xFFFF,
        PAGE + 12 + 16 + encode_utf8(loc.block_path).len() + 1 + PATHS_TRAILER_LEN <= DATA_PAGE
            * PAGE,
    ensures
        extracted(wad, loc.name_hash, paths) == Some(movie),
{
    let blocks = seq![override_block(loc, movie)];
    assert(blocks.drop_last() =~= Seq::empty());
    assert(tables_len(blocks.drop_last()) == 0);
    assert(blocks.take(0) =~= Seq::empty());
    assert(data_pages(blocks.take(0)) == 0);
    law_movie_comes_back_from_patch(
        wad,
        blocks,
        0,
        loc,
        movie,
        csum_value,
        csum_meta,
        paths,
    );
}

/// Data fills its pages, and less than a page of zeros is behind it, which decompression does not
/// mind.
proof fn lemma_padded(stream: Seq<u8>, data: Seq<u8>)
    requires
        unpacks_to(stream, data),
    ensures
        sges_refusal(padded(stream)) is None,
        sges_data(padded(stream)) == data,
{
    let rest = (pages(stream.len()) * PAGE - stream.len()) as nat;
    assert(rest <= PAGE);
    assert(sges_data(stream + zeros(rest)) == data);
}

/// The asset record of an override.
proof fn lemma_override_record(
    wad: Seq<u8>,
    blocks: Seq<PatchBlockView>,
    i: int,
    loc: MovieLocView,
    movie: Seq<u8>,
)
    requires
        block_laid_out(wad, blocks, i),
        0 <= i <= 0xFFFF,
        blocks[i] == override_block(loc, movie),
    ensures
        blocks[i].aset_entries.len() == 1,
        ({
            let asset = asset_at(wad, assets_at(blocks, i));
            &&& asset.asset_hash == loc.name_hash
            &&& asset.secondary_ref == loc.secondary_ref
            &&& asset.type_id == loc.type_id
            &&& block_of(asset) == i
        }),
{
    lemma_asset_record(wad, blocks, i);
}

/// No row before those of block `i` lists a hash that no block before it lists.
proof fn lemma_rows_before(wad: Seq<u8>, blocks: Seq<PatchBlockView>, i: int, hash: u32)
    requires
        forall|j: int| 0 <= j < blocks.len() ==> #[trigger] block_laid_out(wad, blocks, j),
        0 <= i <= blocks.len(),
        i <= 0x1_0000,
        unlisted_before(blocks, i, hash),
    ensures
        forall|r: int|
            0 <= r < asset_count(blocks.take(i)) ==> (#[trigger] asset_at(
                wad,
                assets_at(blocks, 0) + 16 * r,
            )).asset_hash != hash,
    decreases i,
{
    assert(blocks.take(0) =~= Seq::empty());
    if i > 0 {
        lemma_rows_before(wad, blocks, i - 1, hash);
        lemma_one_more(blocks, i - 1);
        assert(block_laid_out(wad, blocks, i - 1));
        reveal(block_laid_out);
        let before = asset_count(blocks.take(i - 1)) as int;
        assert forall|r: int| 0 <= r < asset_count(blocks.take(i)) implies (#[trigger] asset_at(
            wad,
            assets_at(blocks, 0) + 16 * r,
        )).asset_hash != hash by {
            if r >= before {
                let k = r - before;
                assert(assets_at(blocks, 0) + 16 * r == assets_at(blocks, i - 1) + 16 * k);
                let row = asset_at(wad, assets_at(blocks, i - 1) + 16 * k);
                assert(row.asset_hash == blocks[i - 1].aset_entries[k].asset_hash);
            }
        }
    }
}

/// Extraction by name finds the block of an override.
proof fn lemma_extracted(
    wad: Seq<u8>,
    blocks: Seq<PatchBlockView>,
    i: int,
    loc: MovieLocView,
    movie: Seq<u8>,
    paths: Seq<String>,
)
    requires
        forall|j: int| 0 <= j < blocks.len() ==> #[trigger] block_laid_out(wad, blocks, j),
        0 <= i < blocks.len(),
        i <= 0xFFFF,
        blocks[i].aset_entries.len() == 1,
        unlisted_before(blocks, i, loc.name_hash),
        gives_movie(wad, record_at(i), assets_at(blocks, i), i, loc, movie, paths),
        indx_chunk(wad) == Some((PAGE as u32, blocks.len() as u32)),
        aset_chunk(wad) == Some((assets_at(blocks, 0) as u32, asset_count(blocks) as u32)),
        asset_count(blocks) <= u32::MAX,
        0 <= assets_at(blocks, 0) <= u32::MAX,
    ensures
        extracted(wad, loc.name_hash, paths) == Some(movie),
{
    reveal(gives_movie);
    let rows = archive_assets(wad);
    let r = asset_count(blocks.take(i)) as int;
    lemma_one_more(blocks, i);
    lemma_counts(blocks, i + 1);
    lemma_rows_before(wad, blocks, i, loc.name_hash);
    assert(blocks.take(0) =~= Seq::empty());
    assert(assets_at(blocks, 0) + 16 * r == assets_at(blocks, i));
    assert forall|q: int| 0 <= q < r implies (#[trigger] rows[q]).asset_hash != loc.name_hash by {
        assert(rows[q] == asset_at(wad, assets_at(blocks, 0) + 16 * q));
    }
    law_first_listing(rows, loc.name_hash, r);
}

/// Where the path of a block stands is where it is read.
proof fn lemma_path_span(raw: Seq<u8>, blocks: Seq<PatchBlockView>, i: int)
    requires
        raw.len() == wad_len(blocks),
        tables_before_data(blocks),
        forall|j: int| 0 <= j < blocks.len() ==> #[trigger] block_laid_out(raw, blocks, j),
        pths_chunk(raw) == Some((path_at(blocks, 0) as u32, blocks.len() as u32)),
        0 <= path_at(blocks, 0) <= u32::MAX,
        0 <= i < blocks.len(),
        paths_without_zeros(blocks, i + 1),
    ensures
        ({
            let at = path_at(blocks, i);
            let path = encode_utf8(blocks[i].path_string);
            &&& path_span(raw, i as nat) == Some((at, at + path.len()))
            &&& raw.subrange(at, at + path.len()) == path
        }),
    decreases i,
{
    let at = path_at(blocks, i);
    let path = encode_utf8(blocks[i].path_string);
    let end = at + path.len();
    lemma_tables_len(blocks);
    lemma_one_more(blocks, i);
    lemma_counts(blocks, i + 1);
    assert(blocks.take(blocks.len() as int) =~= blocks);
    assert(end < raw.len());
    assert(block_laid_out(raw, blocks, i));
    assert(raw.subrange(at, end + 1) == path + zeros(1)) by {
        reveal(block_laid_out);
    }
    assert(raw.subrange(at, end) =~= raw.subrange(at, end + 1).subrange(0, path.len() as int));
    assert((path + zeros(1)).subrange(0, path.len() as int) =~= path);
    assert(raw[end] == raw.subrange(at, end + 1)[path.len() as int]);
    assert forall|j: int| at <= j < end implies raw[j] != 0 by {
        assert(raw[j] == raw.subrange(at, end)[j - at]);
        assert(encode_utf8(blocks[i].path_string)[j - at] != 0);
    }
    assert(ends_at(raw, at, end));
    assert(zero_from(raw, at) == Some(end)) by {
        let other = choose|e: int| ends_at(raw, at, e);
        assert(ends_at(raw, at, other));
        assert(!(end < other) && !(other < end));
    }
    if i == 0 {
        assert(blocks.take(0) =~= Seq::empty());
    } else {
        lemma_path_span(raw, blocks, i - 1);
        lemma_one_more(blocks, i - 1);
    }
}

/// The first `k` asset rows of block `j`, behind those of the blocks before it, point to block `j`.
proof fn lemma_records_of_block(raw: Seq<u8>, blocks: Seq<PatchBlockView>, j: int, k: nat, i: int)
    requires
        block_laid_out(raw, blocks, j),
        0 <= j <= 0xFFFF,
        k <= blocks[j].aset_entries.len(),
    ensures
        ({
            let at = assets_at(blocks, 0);
            let n = asset_count(blocks.take(j));
            records_of(raw, at, n + k, i) == records_of(raw, at, n, i) + if i == j {
                pointed(blocks[j], j).take(k as int)
            } else {
                Seq::empty()
            }
        }),
    decreases k,
{
    let at = assets_at(blocks, 0);
    let n = asset_count(blocks.take(j));
    assert(blocks.take(0) =~= Seq::empty());
    if k == 0 {
        assert(pointed(blocks[j], j).take(0) =~= Seq::empty());
    } else {
        let last = k - 1;
        lemma_records_of_block(raw, blocks, j, last as nat, i);
        reveal(block_laid_out);
        let row = asset_at(raw, assets_at(blocks, j) + 16 * last);
        assert(at + 16 * (n + last) == assets_at(blocks, j) + 16 * last);
        let low = blocks[j].aset_entries[last].u32_2 % 0x1_0000;
        assert(row.packed_block_ref == j * 0x1_0000 + low);
        assert(block_of(row) == j);
        assert(record_of(row) == pointed(blocks[j], j)[last]);
        assert(pointed(blocks[j], j).take(k as int) =~= pointed(blocks[j], j).take(last).push(
            record_of(row),
        ));
        assert(records_of(raw, at, n + k, i) =~= records_of(raw, at, n, i) + if i == j {
            pointed(blocks[j], j).take(k as int)
        } else {
            Seq::empty()
        });
    }
}

/// The asset rows of the first `j` blocks, as far as they point to block `i`.
proof fn lemma_records_of(raw: Seq<u8>, blocks: Seq<PatchBlockView>, j: int, i: int)
    requires
        forall|b: int| 0 <= b < blocks.len() ==> #[trigger] block_laid_out(raw, blocks, b),
        0 <= j <= blocks.len() <= 0x1_0000,
        0 <= i < blocks.len(),
    ensures
        records_of(raw, assets_at(blocks, 0), asset_count(blocks.take(j)), i) == if i < j {
            pointed(blocks[i], i)
        } else {
            Seq::empty()
        },
    decreases j,
{
    if j == 0 {
        assert(blocks.take(0) =~= Seq::empty());
    } else {
        let last = blocks[j - 1].aset_entries.len();
        lemma_records_of(raw, blocks, j - 1, i);
        lemma_one_more(blocks, j - 1);
        assert(block_laid_out(raw, blocks, j - 1));
        lemma_records_of_block(raw, blocks, j - 1, last, i);
        assert(pointed(blocks[j - 1], j - 1).take(last as int) =~= pointed(blocks[j - 1], j - 1));
    }
}

/// A patch is read as it was laid out: block `i` has its words, its path and its asset records, and
/// its data but for zeros at the end.
pub proof fn law_patch_reads_back(
    raw: Seq<u8>,
    blocks: Seq<PatchBlockView>,
    found: Seq<PatchBlockView>,
    i: int,
    csum_value: u32,
    csum_meta: Option<u32>,
)
    requires
        laid_out(raw, blocks, csum_value, csum_meta),
        tables_before_data(blocks),
        blocks.len() <= 0x1_0000,
        numbered(blocks, i),
        paths_without_zeros(blocks, i + 1),
        reads_as(raw, found),
    ensures
        found.len() == blocks.len(),
        read_back(blocks[i], found[i], i),
{
    lemma_patch_chunks(raw, blocks, csum_value, csum_meta);
    assert(block_laid_out(raw, blocks, i));
    assert(block_read(raw, found[i], i));
    lemma_path_span(raw, blocks, i);
    lemma_records_of(raw, blocks, blocks.len() as int, i);
    assert(blocks.take(blocks.len() as int) =~= blocks);
    encode_utf8_valid_utf8(blocks[i].path_string);
    encode_utf8_decode_utf8(blocks[i].path_string);
    lemma_stored_pages(raw, blocks, i);
    lemma_one_more(blocks, i);
    lemma_counts(blocks, i + 1);
    assert(pages_there(raw, record_at(i)) == stored_pages(raw, record_at(i)));
    assert(u32_le(raw, record_at(i) + 4) == blocks[i].packed_field) by {
        reveal(block_laid_out);
    }
    reveal(block_read);
}

/// Data that differs from other data only in zeros at the end, of which its last page is not all
/// made, fills the same pages in the same way.
proof fn lemma_same_pages(was: Seq<u8>, is: Seq<u8>)
    requires
        fills_last_page(was),
        is.len() <= padded(was).len(),
        padded(was) == is + zeros((padded(was).len() - is.len()) as nat),
    ensures
        pages(is.len()) == pages(was.len()),
        padded(is) == padded(was),
{
    let q = choose|q: int|
        (pages(was.len()) - 1) * PAGE <= q < was.len() && 0 <= q && #[trigger] was[q] != 0;
    assert(padded(was)[q] == was[q]);
    assert(q < is.len()) by {
        if q >= is.len() {
            assert((is + zeros((padded(was).len() - is.len()) as nat))[q] == 0);
        }
    }
    assert(padded(was).len() == pages(was.len()) * PAGE);
}

/// A movie that a patch holds still comes back after another block was merged in: merging reads the
/// patch, puts the block in, which has another path, and lays the blocks out again. The movie's stream
/// is one whose last page is not all zeros; reading takes such a page away.
pub proof fn law_movie_survives_merge(
    old_wad: Seq<u8>,
    blocks: Seq<PatchBlockView>,
    found: Seq<PatchBlockView>,
    new: PatchBlockView,
    wad: Seq<u8>,
    i: int,
    loc: MovieLocView,
    movie: Seq<u8>,
    csum_value: u32,
    csum_meta: Option<u32>,
    paths: Seq<String>,
)
    requires
        laid_out(old_wad, blocks, csum_value, csum_meta),
        tables_before_data(blocks),
        blocks.len() <= 0x1_0000,
        numbered(blocks, i),
        paths_without_zeros(blocks, i + 1),
        injectable(loc, movie),
        blocks[i] == override_block(loc, movie),
        unpacks_to(blocks[i].compressed_data, override_bytes(loc, movie)),
        fills_last_page(blocks[i].compressed_data),
        reads_as(old_wad, found),
        new.path_string != loc.block_path,
        laid_out(wad, replaced(found, new), csum_word(old_wad), None),
        tables_before_data(replaced(found, new)),
        block_page(replaced(found, new), i) <= u32::MAX,
    ensures
        ({
            let all = replaced(found, new);
            &&& gives_movie(wad, record_at(i), assets_at(all, i), i, loc, movie, paths)
            &&& unlisted_before(all, i, loc.name_hash) ==> extracted(wad, loc.name_hash, paths)
                == Some(movie)
        }),
{
    let all = replaced(found, new);
    law_patch_reads_back(old_wad, blocks, found, i, csum_value, csum_meta);
    law_merge_replaces_by_path(found, new);
    assert(all[i] == found[i]);
    lemma_same_pages(blocks[i].compressed_data, found[i].compressed_data);
    lemma_padded(blocks[i].compressed_data, override_bytes(loc, movie));
    assert(block_laid_out(wad, all, i));
    lemma_asset_record(wad, all, i);
    lemma_stored_pages(wad, all, i);
    lemma_gives_movie(wad, all, i, loc, movie, paths);
    if unlisted_before(all, i, loc.name_hash) {
        lemma_patch_chunks(wad, all, csum_word(old_wad), None);
        lemma_extracted(wad, all, i, loc, movie, paths);
    }
}

/// Every patch that is laid out can be read and merged into, however many blocks it has, where there is
/// room for what comes of it.
pub proof fn law_patch_can_be_merged_into(
    wad: Seq<u8>,
    blocks: Seq<PatchBlockView>,
    new: PatchBlockView,
    csum_value: u32,
    csum_meta: Option<u32>,
)
    requires
        laid_out(wad, blocks, csum_value, csum_meta),
        tables_before_data(blocks),
    ensures
        wad_refusal(wad) is None,
        csum_word(wad) == csum_value,
        readable(wad),
        wad_room(replaced(wad_blocks(wad), new)) ==> mergeable(wad, new),
{
    lemma_patch_chunks(wad, blocks, csum_value, csum_meta);
    lemma_tables_len(blocks);
    assert(blocks.take(0) =~= Seq::empty());
    assert(blocks.take(blocks.len() as int) =~= blocks);
    assert(wad_refusal(wad) is None && csum_word(wad) == csum_value) by {
        reveal(header_laid_out);
        reveal_with_fuel(chunk_among, 6);
    }
    assert forall|i: int| 0 <= i < blocks.len() implies #[trigger] u32_le(wad, PAGE + i * 12) * PAGE
        <= wad.len() by {
        assert(block_laid_out(wad, blocks, i));
        assert(u32_le(wad, record_at(i)) == low32(block_page(blocks, i))) by {
            reveal(block_laid_out);
        }
        law_low_part(block_page(blocks, i));
        lemma_counts(blocks, i);
    }
}

/// Blocks as they are read take up no more than the blocks that were laid out.
proof fn lemma_read_sizes(
    wad: Seq<u8>,
    blocks: Seq<PatchBlockView>,
    found: Seq<PatchBlockView>,
    n: int,
    csum_value: u32,
    csum_meta: Option<u32>,
)
    requires
        laid_out(wad, blocks, csum_value, csum_meta),
        tables_before_data(blocks),
        blocks.len() <= 0x1_0000,
        forall|i: int| 0 <= i < blocks.len() ==> #[trigger] numbered(blocks, i),
        paths_without_zeros(blocks, blocks.len() as int),
        reads_as(wad, found),
        0 <= n <= blocks.len(),
        found.len() == blocks.len(),
    ensures
        tables_len(found.take(n)) == tables_len(blocks.take(n)),
        data_pages(found.take(n)) <= data_pages(blocks.take(n)),
    decreases n,
{
    if n == 0 {
        assert(found.take(0) =~= Seq::empty());
        assert(blocks.take(0) =~= Seq::empty());
    } else {
        let i = n - 1;
        lemma_read_sizes(wad, blocks, found, i, csum_value, csum_meta);
        assert(numbered(blocks, i));
        law_patch_reads_back(wad, blocks, found, i, csum_value, csum_meta);
        assert(found.take(n).drop_last() =~= found.take(i));
        assert(blocks.take(n).drop_last() =~= blocks.take(i));
        assert(found.take(n).last() == found[i]);
        assert(blocks.take(n).last() == blocks[i]);
        assert(padded(blocks[i].compressed_data).len() == pages(blocks[i].compressed_data.len())
            * PAGE);
    }
}

/// Every patch that is laid out can be merged into where the tables with the new block end before the
/// data, and its pages fit in memory: an undamaged patch is never turned down for the number of its
/// blocks.
pub proof fn law_ordinary_patch_can_be_merged_into(
    wad: Seq<u8>,
    blocks: Seq<PatchBlockView>,
    new: PatchBlockView,
    csum_value: u32,
    csum_meta: Option<u32>,
)
    requires
        laid_out(wad, blocks, csum_value, csum_meta),
        blocks.len() <= 0x1_0000,
        forall|i: int| 0 <= i < blocks.len() ==> #[trigger] numbered(blocks, i),
        paths_without_zeros(blocks, blocks.len() as int),
        reads_as(wad, wad_blocks(wad)),
        32768 + tables_len(blocks) + 12 + 16 * new.aset_entries.len() + encode_utf8(
            new.path_string,
        ).len() + 1 + 259 <= 65 * 32768,
        (66 + data_pages(blocks)) * 32768 + new.compressed_data.len() <= isize::MAX,
    ensures
        mergeable(wad, new),
{
    let found = wad_blocks(wad);
    assert(tables_before_data(blocks));
    law_patch_can_be_merged_into(wad, blocks, new, csum_value, csum_meta);
    lemma_patch_chunks(wad, blocks, csum_value, csum_meta);
    lemma_read_sizes(wad, blocks, found, blocks.len() as int, csum_value, csum_meta);
    assert(found.take(blocks.len() as int) =~= found);
    assert(blocks.take(blocks.len() as int) =~= blocks);
    law_room_for_one_more(found, new);
}

} // verus!
