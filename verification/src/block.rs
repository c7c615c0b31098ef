//! Decompressed blocks: a count, a table of sixteen-byte entries and a container for each entry.
use vstd::prelude::*;
use vstd::slice::slice_subrange;

use crate::archive::{block_of, block_path, path_of, AsetEntry};
use crate::bytes::{
    law_low_part, law_tag, le_bytes, lemma_low32, lemma_u32_le_of_le_bytes, low32, push_bytes, push_u32_le, read_u32_le,
    tag_at, truncate32, u32_le,
};
use crate::container::{
    body_base, body_end, body_start, csum_trailer, data_chunk, has_rows, header_covers_size,
    is_ucfx, law_extract_after_rebuild, law_rebuilt_layout, law_what_takes_a_movie,
    starts_ucfx, lemma_rebuilt_words, n_desc,
    rebuild_refusal, rebuilt, row_at, row_offset, NO_BODY, ROW_LEN, TRAILER_LEN,
};
use crate::error::{Error, ErrorView};

verus! {

/// Bytes of the entry count.
pub const COUNT_LEN: usize = 4;

/// Bytes of an entry.
pub const ENTRY_LEN: usize = 16;

/// Animations do not keep a descriptor table where other containers do.
pub const ANIMATION_TYPE_HASH: u32 = 0x1816_6555;

/// Textures do not keep a descriptor table where other containers do.
pub const TEXTURE_TYPE_HASH: u32 = 0xF011_157A;

/// One entry of a block's table.
#[derive(Clone, Copy, Debug, PartialEq, Eq)]
pub struct BlockTableEntry {
    pub name_hash: u32,
    pub type_hash: u32,
    pub field_c: u32,
    pub chunk_size: u32,
}

/// A block taken apart.
#[derive(Debug)]
pub struct ParsedBlock {
    pub entry_count: u32,
    pub entries: Vec<BlockTableEntry>,
    pub containers: Vec<Vec<u8>>,
}

/// Something that looks wrong in a block.
#[derive(Debug)]
pub struct WalkIssue {
    pub context: String,
    pub detail: String,
}

impl View for WalkIssue {
    type V = (Seq<char>, Seq<char>);

    open spec fn view(&self) -> (Seq<char>, Seq<char>) {
        (self.context@, self.detail@)
    }
}

/// A movie in its archive: where it is listed, how its block lists it, and its container.
#[derive(Debug)]
pub struct MovieLoc {
    pub block_index: usize,
    pub name_hash: u32,
    pub type_hash: u32,
    pub field_c: u32,
    pub secondary_ref: u32,
    pub type_id: u32,
    pub container: Vec<u8>,
    pub block_path: String,
}

/// A [`MovieLoc`] with its container as bytes and its path as characters.
pub struct MovieLocView {
    pub block_index: int,
    pub name_hash: u32,
    pub type_hash: u32,
    pub field_c: u32,
    pub secondary_ref: u32,
    pub type_id: u32,
    pub container: Seq<u8>,
    pub block_path: Seq<char>,
}

impl View for MovieLoc {
    type V = MovieLocView;

    open spec fn view(&self) -> MovieLocView {
        MovieLocView {
            block_index: self.block_index as int,
            name_hash: self.name_hash,
            type_hash: self.type_hash,
            field_c: self.field_c,
            secondary_ref: self.secondary_ref,
            type_id: self.type_id,
            container: self.container@,
            block_path: self.block_path@,
        }
    }
}

/// How many entries the block announces.
pub open spec fn table_count(b: Seq<u8>) -> u32 {
    if b.len() >= COUNT_LEN {
        u32_le(b, 0)
    } else {
        0
    }
}

/// How many of the announced entries have room in the block.
pub open spec fn table_rows(b: Seq<u8>) -> int {
    if b.len() < COUNT_LEN {
        0
    } else if table_count(b) <= (b.len() - COUNT_LEN) / ENTRY_LEN as int {
        table_count(b) as int
    } else {
        (b.len() - COUNT_LEN) / ENTRY_LEN as int
    }
}

/// Where entry `i` stands.
pub open spec fn entry_at(i: int) -> int {
    COUNT_LEN + i * ENTRY_LEN
}

/// Entry `i`.
pub open spec fn table_entry(b: Seq<u8>, i: int) -> BlockTableEntry {
    BlockTableEntry {
        name_hash: u32_le(b, entry_at(i)),
        type_hash: u32_le(b, entry_at(i) + 4),
        field_c: u32_le(b, entry_at(i) + 8),
        chunk_size: u32_le(b, entry_at(i) + 12),
    }
}

/// Where the container of entry `i` starts: behind the announced table and the containers of the
/// entries before it.
pub open spec fn container_start(b: Seq<u8>, i: int) -> int
    decreases i,
{
    if i <= 0 {
        entry_at(table_count(b) as int)
    } else {
        container_start(b, i - 1) + table_entry(b, i - 1).chunk_size
    }
}

/// The container of entry `i` lies in the block.
pub open spec fn has_container(b: Seq<u8>, i: int) -> bool {
    0 <= i < table_rows(b) && container_start(b, i + 1) <= b.len()
}

/// The container of entry `i`.
pub open spec fn container_of(b: Seq<u8>, i: int) -> Seq<u8> {
    b.subrange(container_start(b, i), container_start(b, i + 1))
}

/// `parsed` is the block `b` taken apart: every entry that has room, and their containers up to the
/// first that runs over the end of the block.
pub open spec fn parses_to(b: Seq<u8>, parsed: ParsedBlock) -> bool {
    &&& parsed.entry_count == table_count(b)
    &&& parsed.entries@ == Seq::new(table_rows(b) as nat, |i: int| table_entry(b, i))
    &&& parsed.containers@.len() <= table_rows(b)
    &&& forall|i: int|
        0 <= i < parsed.containers@.len() ==> has_container(b, i) && (
        #[trigger] parsed.containers@[i])@ == container_of(b, i)
    &&& parsed.containers@.len() < table_rows(b) ==> !has_container(
        b,
        parsed.containers@.len() as int,
    )
}

/// Containers of this type have no descriptor table to check.
pub open spec fn skips_descriptors(type_hash: u32) -> bool {
    type_hash == ANIMATION_TYPE_HASH || type_hash == TEXTURE_TYPE_HASH
}

/// Nothing looks wrong in a container: it is a UCFX container, its `CSUM` trailer checks out if it
/// has one, and the bodies that its descriptors describe lie in it.
pub open spec fn container_sound(c: Seq<u8>, type_hash: u32) -> bool {
    &&& c.len() >= ROW_LEN
    &&& is_ucfx(c)
    &&& csum_trailer(c) matches Some((stored, computed)) ==> stored == computed
    &&& !skips_descriptors(type_hash) && has_rows(c) ==> forall|d: int|
        #![trigger row_offset(c, d)]
        0 <= d < n_desc(c) && row_offset(c, d) != NO_BODY ==> body_end(c, d) <= c.len()
}

/// Nothing looks wrong in a block.
pub open spec fn block_sound(b: Seq<u8>) -> bool {
    forall|i: int|
        #![trigger has_container(b, i)]
        0 <= i < table_rows(b) ==> has_container(b, i) && container_sound(
            container_of(b, i),
            table_entry(b, i).type_hash,
        )
}

/// The body offsets of a container are numbers that the machine can address.
pub open spec fn rows_addressable(c: Seq<u8>, type_hash: u32) -> bool {
    !skips_descriptors(type_hash) && has_rows(c) ==> forall|d: int|
        #![trigger row_offset(c, d)]
        0 <= d < n_desc(c) && row_offset(c, d) != NO_BODY ==> body_start(c, d) <= usize::MAX
}

/// Every offset that taking `b` apart comes across is a number that the machine can address, as it
/// always is where addresses have 64 bits.
pub open spec fn walk_addressable(b: Seq<u8>) -> bool {
    &&& entry_at(table_count(b) as int) <= usize::MAX
    &&& forall|i: int| #[trigger]
        has_container(b, i) ==> rows_addressable(container_of(b, i), table_entry(b, i).type_hash)
}

/// Entry `i` is the first with this name hash.
pub open spec fn first_entry(b: Seq<u8>, hash: u32, i: int) -> bool {
    &&& 0 <= i < table_rows(b)
    &&& table_entry(b, i).name_hash == hash
    &&& forall|j: int| 0 <= j < i ==> (#[trigger] table_entry(b, j)).name_hash != hash
}

/// The first entry with this name hash.
pub open spec fn entry_index(b: Seq<u8>, hash: u32) -> Option<int> {
    if exists|i: int| first_entry(b, hash, i) {
        Some(choose|i: int| first_entry(b, hash, i))
    } else {
        None
    }
}

/// Where the movie that `asset` lists is, given the block that `asset` names.
pub open spec fn movie_in_block(b: Seq<u8>, asset: AsetEntry, paths: Seq<String>) -> Result<
    MovieLocView,
    ErrorView,
> {
    match entry_index(b, asset.asset_hash) {
        Some(i) => Ok(
            MovieLocView {
                block_index: block_of(asset) as int,
                name_hash: asset.asset_hash,
                type_hash: table_entry(b, i).type_hash,
                field_c: table_entry(b, i).field_c,
                secondary_ref: asset.secondary_ref,
                type_id: asset.type_id,
                container: container_of(b, i),
                block_path: path_of(paths, block_of(asset) as int),
            },
        ),
        None => Err(
            ErrorView::NotInBlock {
                hash: asset.asset_hash,
                block_index: block_of(asset) as usize,
            },
        ),
    }
}

/// Taking the block apart is possible, and the entry that is looked for has its container.
pub open spec fn locatable(b: Seq<u8>, hash: u32) -> bool {
    &&& walk_addressable(b)
    &&& entry_index(b, hash) matches Some(i) ==> has_container(b, i)
}

/// The block that holds one container under one entry.
pub open spec fn block_bytes(name_hash: u32, type_hash: u32, field_c: u32, container: Seq<u8>) -> Seq<
    u8,
> {
    le_bytes(1) + le_bytes(name_hash) + le_bytes(type_hash) + le_bytes(field_c) + le_bytes(
        low32(container.len()),
    ) + container
}

/// The remarks that `mercs2_formats::ucfx::walk_decompressed_block` makes on a block.
pub uninterp spec fn walk_issues(b: Seq<u8>, label: Seq<char>) -> Seq<(Seq<char>, Seq<char>)>;

/// Calls `mercs2_formats::ucfx::walk_decompressed_block` and claims that it takes the block apart as
/// [`parses_to`] says and that its remarks depend on the block and the label alone; there are none
/// exactly where [`block_sound`] holds. The wording of the remarks is not written out here. It adds
/// up offsets as `usize`, which overflows where they cannot be addressed.
#[verifier::external_body]
pub(crate) fn walk_decompressed_block(decompressed: &[u8], label: &str) -> (walked: (
    ParsedBlock,
    Vec<WalkIssue>,
))
    requires
        walk_addressable(decompressed@),
    ensures
        parses_to(decompressed@, walked.0),
        walked.1@.map_values(|issue: WalkIssue| issue@) == walk_issues(decompressed@, label@),
        walked.1@.len() == 0 <==> block_sound(decompressed@),
{
    let (p, issues) = mercs2_formats::ucfx::walk_decompressed_block(decompressed, label);
    let entries = p.entries.iter().map(|e| BlockTableEntry {
        name_hash: e.name_hash,
        type_hash: e.type_hash,
        field_c: e.field_c,
        chunk_size: e.chunk_size,
    }).collect();
    (
        ParsedBlock { entry_count: p.entry_count, entries, containers: p.containers },
        issues.into_iter().map(|i| WalkIssue { context: i.context, detail: i.detail }).collect(),
    )
}

/// A known first entry is the one that [`entry_index`] speaks of.
pub proof fn lemma_entry_index(b: Seq<u8>, hash: u32, i: int)
    requires
        first_entry(b, hash, i),
    ensures
        entry_index(b, hash) == Some(i),
{
    let j = choose|j: int| first_entry(b, hash, j);
    assert(first_entry(b, hash, j));
    assert(!(i < j) && !(j < i));
}

/// Containers stand in the order of their entries.
pub proof fn lemma_starts_ascend(b: Seq<u8>, i: int, j: int)
    requires
        0 <= i <= j,
    ensures
        0 <= container_start(b, i) <= container_start(b, j),
    decreases j,
{
    if i < j {
        lemma_starts_ascend(b, i, j - 1);
    } else if i > 0 {
        lemma_starts_ascend(b, i - 1, j - 1);
    }
}

/// The position of the first entry with this name hash.
fn entry_position(entries: &Vec<BlockTableEntry>, hash: u32) -> (found: Option<usize>)
    ensures
        match found {
            Some(i) => {
                &&& i < entries@.len()
                &&& entries@[i as int].name_hash == hash
                &&& forall|j: int| 0 <= j < i ==> (#[trigger] entries@[j]).name_hash != hash
            },
            None => forall|j: int|
                0 <= j < entries@.len() ==> (#[trigger] entries@[j]).name_hash != hash,
        },
{
    let mut i: usize = 0;
    while i < entries.len()
        invariant
            i <= entries@.len(),
            forall|j: int| 0 <= j < i ==> (#[trigger] entries@[j]).name_hash != hash,
        decreases entries@.len() - i,
    {
        if entries[i].name_hash == hash {
            return Some(i);
        }
        i = i + 1;
    }
    None
}

/// What a position in a taken-apart table means for the block.
proof fn lemma_position(b: Seq<u8>, parsed: ParsedBlock, hash: u32, found: Option<usize>)
    requires
        parses_to(b, parsed),
        match found {
            Some(i) => {
                &&& i < parsed.entries@.len()
                &&& parsed.entries@[i as int].name_hash == hash
                &&& forall|j: int|
                    0 <= j < i ==> (#[trigger] parsed.entries@[j]).name_hash != hash
            },
            None => forall|j: int|
                0 <= j < parsed.entries@.len() ==> (#[trigger] parsed.entries@[j]).name_hash
                    != hash,
        },
    ensures
        match found {
            Some(i) => entry_index(b, hash) == Some(i as int),
            None => entry_index(b, hash) is None,
        },
{
    assert forall|j: int| 0 <= j < table_rows(b) implies #[trigger] table_entry(b, j)
        == parsed.entries@[j] by {}
    match found {
        Some(i) => {
            assert(first_entry(b, hash, i as int));
            lemma_entry_index(b, hash, i as int);
        },
        None => {
            assert forall|j: int| !first_entry(b, hash, j) by {
                if first_entry(b, hash, j) {
                    assert(table_entry(b, j) == parsed.entries@[j]);
                }
            }
        },
    }
}

/// Which of the entries have their container.
pub proof fn lemma_containers(b: Seq<u8>, parsed: ParsedBlock, i: int)
    requires
        parses_to(b, parsed),
        0 <= i < table_rows(b),
    ensures
        has_container(b, i) <==> i < parsed.containers@.len(),
{
    let n = parsed.containers@.len() as int;
    if i < n {
        let held = parsed.containers@[i]@;
        assert(has_container(b, i));
    } else {
        lemma_starts_ascend(b, n + 1, i + 1);
    }
}

/// Whether every body offset of a container can be addressed.
fn rows_possible(c: &[u8], type_hash: u32) -> (possible: bool)
    ensures
        possible == rows_addressable(c@, type_hash),
{
    let len: usize = c.len();
    if type_hash == ANIMATION_TYPE_HASH || type_hash == TEXTURE_TYPE_HASH || len < ROW_LEN
        || !tag_at(c, 0, 'U', 'C', 'F', 'X') {
        return true;
    }
    let count: u32 = read_u32_le(c, 16);
    if count as u64 > ((len - ROW_LEN) / ROW_LEN) as u64 {
        return true;
    }
    let base: u32 = if read_u32_le(c, 4) > 0 {
        read_u32_le(c, 4)
    } else {
        8
    };
    let mut d: u32 = 0;
    while d < count
        invariant
            len == c@.len(),
            has_rows(c@),
            count == n_desc(c@),
            base == body_base(c@),
            !skips_descriptors(type_hash),
            d <= count,
            forall|k: int|
                #![trigger row_offset(c@, k)]
                0 <= k < d && row_offset(c@, k) != NO_BODY ==> body_start(c@, k) <= usize::MAX,
        decreases count - d,
    {
        assert(row_at(d as int) + ROW_LEN <= len);
        assert(d as usize * ROW_LEN + ROW_LEN <= len);
        let offset: u32 = read_u32_le(c, ROW_LEN + d as usize * ROW_LEN + 4);
        assert(offset == row_offset(c@, d as int));
        if offset != NO_BODY && base as u64 + offset as u64 > usize::MAX as u64 {
            return false;
        }
        d = d + 1;
    }
    true
}

/// Whether a block can be taken apart on this machine.
pub fn can_walk(block: &[u8]) -> (possible: bool)
    ensures
        possible == walk_addressable(block@),
{
    let ghost b = block@;
    let len: usize = block.len();
    if len < COUNT_LEN {
        return true;
    }
    let count: u32 = read_u32_le(block, 0);
    let table: u64 = count as u64 * 16;
    assert(table == table_count(b) * ENTRY_LEN);
    let header: u64 = COUNT_LEN as u64 + table;
    if header > usize::MAX as u64 {
        return false;
    }
    let room: usize = (len - COUNT_LEN) / ENTRY_LEN;
    let rows: usize = if count as u64 <= room as u64 {
        count as usize
    } else {
        room
    };
    if header > len as u64 {
        assert forall|i: int| !has_container(b, i) by {
            if has_container(b, i) {
                lemma_starts_ascend(b, 0, i + 1);
            }
        }
        return true;
    }
    let mut pos: usize = header as usize;
    let mut i: usize = 0;
    while i < rows
        invariant
            b == block@,
            len == b.len(),
            len >= COUNT_LEN,
            rows == table_rows(b),
            entry_at(table_count(b) as int) <= usize::MAX,
            i <= rows,
            pos == container_start(b, i as int),
            pos <= len,
            forall|k: int| #[trigger]
                has_container(b, k) && k < i ==> rows_addressable(
                    container_of(b, k),
                    table_entry(b, k).type_hash,
                ),
        decreases rows - i,
    {
        assert(entry_at(i as int) + ENTRY_LEN <= len);
        assert(i * ENTRY_LEN + ENTRY_LEN <= len);
        let at: usize = COUNT_LEN + i * ENTRY_LEN;
        let type_hash: u32 = read_u32_le(block, at + 4);
        let size: u32 = read_u32_le(block, at + 12);
        assert(table_entry(b, i as int).type_hash == type_hash);
        assert(table_entry(b, i as int).chunk_size == size);
        assert(container_start(b, i + 1) == pos + size);
        if size as u64 > (len - pos) as u64 {
            assert forall|k: int| #[trigger] has_container(b, k) implies k < i by {
                if k >= i {
                    lemma_starts_ascend(b, i + 1, k + 1);
                }
            }
            return true;
        }
        let end: usize = pos + size as usize;
        let container: &[u8] = slice_subrange(block, pos, end);
        assert(has_container(b, i as int));
        assert(container@ == container_of(b, i as int));
        if !rows_possible(container, type_hash) {
            return false;
        }
        pos = end;
        i = i + 1;
    }
    true
}

/// Whether [`locate_movie`] can be asked for an asset: the block can be taken apart, and the entry
/// has its container.
pub fn can_locate(block: &[u8], hash: u32) -> (possible: bool)
    ensures
        possible == locatable(block@, hash),
{
    if !can_walk(block) {
        return false;
    }
    let (parsed, _issues) = walk_decompressed_block(block, "");
    let found: Option<usize> = entry_position(&parsed.entries, hash);
    proof {
        lemma_position(block@, parsed, hash, found);
    }
    match found {
        Some(i) => {
            proof {
                lemma_containers(block@, parsed, i as int);
            }
            i < parsed.containers.len()
        },
        None => true,
    }
}

/// Locate the movie that `asset` lists in the block that `asset` names.
pub fn locate_movie(block: &[u8], asset: &AsetEntry, paths: &[String]) -> (found: Result<
    MovieLoc,
    Error,
>)
    requires
        locatable(block@, asset.asset_hash),
    ensures
        match found {
            Ok(loc) => movie_in_block(block@, *asset, paths@) == Ok::<MovieLocView, ErrorView>(
                loc@,
            ),
            Err(e) => movie_in_block(block@, *asset, paths@) == Err::<MovieLocView, ErrorView>(e@),
        },
{
    let block_index: usize = asset.block_index() as usize;
    let (parsed, _issues) = walk_decompressed_block(block, "");
    let found: Option<usize> = entry_position(&parsed.entries, asset.asset_hash);
    proof {
        lemma_position(block@, parsed, asset.asset_hash, found);
    }
    match found {
        Some(i) => {
            proof {
                lemma_containers(block@, parsed, i as int);
            }
            let entry: BlockTableEntry = parsed.entries[i];
            let mut container: Vec<u8> = Vec::new();
            push_bytes(&mut container, parsed.containers[i].as_slice());
            assert(container@ =~= container_of(block@, i as int));
            Ok(
                MovieLoc {
                    block_index,
                    name_hash: asset.asset_hash,
                    type_hash: entry.type_hash,
                    field_c: entry.field_c,
                    secondary_ref: asset.secondary_ref,
                    type_id: asset.type_id,
                    container,
                    block_path: block_path(paths, block_index),
                },
            )
        },
        None => Err(Error::NotInBlock { hash: asset.asset_hash, block_index }),
    }
}

/// The block of a patch: one entry, taken over from where the movie was, and its container.
pub fn build_block(name_hash: u32, type_hash: u32, field_c: u32, container: &[u8]) -> (block: Vec<
    u8,
>)
    ensures
        block@ == block_bytes(name_hash, type_hash, field_c, container@),
{
    let mut block: Vec<u8> = Vec::new();
    push_u32_le(&mut block, 1);
    push_u32_le(&mut block, name_hash);
    push_u32_le(&mut block, type_hash);
    push_u32_le(&mut block, field_c);
    push_u32_le(&mut block, truncate32(container.len()));
    push_bytes(&mut block, container);
    assert(block@ =~= block_bytes(name_hash, type_hash, field_c, container@));
    block
}

/// A built block holds one entry with the given words, and its container.
pub proof fn law_built_block(name_hash: u32, type_hash: u32, field_c: u32, container: Seq<u8>)
    requires
        container.len() <= u32::MAX,
    ensures
        ({
            let b = block_bytes(name_hash, type_hash, field_c, container);
            &&& b.len() == COUNT_LEN + ENTRY_LEN + container.len()
            &&& table_count(b) == 1
            &&& table_rows(b) == 1
            &&& table_entry(b, 0) == BlockTableEntry {
                name_hash,
                type_hash,
                field_c,
                chunk_size: container.len() as u32,
            }
            &&& has_container(b, 0)
            &&& container_of(b, 0) == container
            &&& entry_index(b, name_hash) == Some(0int)
        }),
{
    let b = block_bytes(name_hash, type_hash, field_c, container);
    lemma_low32(container.len());
    assert(b.subrange(0, 4) =~= le_bytes(1));
    lemma_u32_le_of_le_bytes(b, 0, 1);
    assert(b.subrange(4, 8) =~= le_bytes(name_hash));
    lemma_u32_le_of_le_bytes(b, 4, name_hash);
    assert(b.subrange(8, 12) =~= le_bytes(type_hash));
    lemma_u32_le_of_le_bytes(b, 8, type_hash);
    assert(b.subrange(12, 16) =~= le_bytes(field_c));
    lemma_u32_le_of_le_bytes(b, 12, field_c);
    assert(b.subrange(16, 20) =~= le_bytes(low32(container.len())));
    lemma_u32_le_of_le_bytes(b, 16, low32(container.len()));
    assert(container_start(b, 0) == 20);
    assert(container_start(b, 1) == 20 + container.len());
    assert(container_of(b, 0) =~= container);
    assert(first_entry(b, name_hash, 0));
    lemma_entry_index(b, name_hash, 0);
}

/// What is located in a built block is what it was built from.
pub proof fn law_locate_in_built_block(
    asset: AsetEntry,
    type_hash: u32,
    field_c: u32,
    container: Seq<u8>,
    paths: Seq<String>,
)
    requires
        container.len() <= u32::MAX,
    ensures
        movie_in_block(
            block_bytes(asset.asset_hash, type_hash, field_c, container),
            asset,
            paths,
        ) == Ok::<MovieLocView, ErrorView>(
            MovieLocView {
                block_index: block_of(asset) as int,
                name_hash: asset.asset_hash,
                type_hash,
                field_c,
                secondary_ref: asset.secondary_ref,
                type_id: asset.type_id,
                container,
                block_path: path_of(paths, block_of(asset) as int),
            },
        ),
{
    law_built_block(asset.asset_hash, type_hash, field_c, container);
}

/// An injected movie comes back: locating it in the block that was built around the rebuilt
/// container, and extracting it there, gives the movie byte for byte, whatever its size. The movie
/// container is one whose movie starts the data area.
pub proof fn law_extract_after_build(
    asset: AsetEntry,
    type_hash: u32,
    field_c: u32,
    original: Seq<u8>,
    movie: Seq<u8>,
    paths: Seq<String>,
)
    requires
        rebuild_refusal(original) is None,
        header_covers_size(original),
        row_offset(original, 0) == 0,
        rebuilt(original, movie).len() <= u32::MAX,
    ensures
        ({
            let b = block_bytes(
                asset.asset_hash,
                type_hash,
                field_c,
                rebuilt(original, movie),
            );
            &&& movie_in_block(b, asset, paths) matches Ok(loc)
            &&& loc.container == rebuilt(original, movie)
            &&& data_chunk(loc.container) == Some(movie)
        }),
{
    law_rebuilt_layout(original, movie);
    law_locate_in_built_block(asset, type_hash, field_c, rebuilt(original, movie), paths);
    law_extract_after_rebuild(original, movie);
}

/// Nothing looks wrong in a block that was built around a rebuilt container: its checksum is right
/// and its movie lies in the container. The descriptor's offset may move the movie into the trailer
/// at most.
pub proof fn law_built_block_is_sound(
    name_hash: u32,
    type_hash: u32,
    field_c: u32,
    original: Seq<u8>,
    movie: Seq<u8>,
)
    requires
        rebuild_refusal(original) is None,
        header_covers_size(original),
        row_offset(original, 0) <= TRAILER_LEN || row_offset(original, 0) == NO_BODY,
        rebuilt(original, movie).len() <= u32::MAX,
    ensures
        block_sound(block_bytes(name_hash, type_hash, field_c, rebuilt(original, movie))),
{
    let r = rebuilt(original, movie);
    let b = block_bytes(name_hash, type_hash, field_c, r);
    law_built_block(name_hash, type_hash, field_c, r);
    law_rebuilt_layout(original, movie);
    lemma_rebuilt_words(original, movie);
    lemma_low32(movie.len());
    assert(container_sound(r, type_hash)) by {
        assert forall|d: int|
            #![trigger row_offset(r, d)]
            0 <= d < n_desc(r) && row_offset(r, d) != NO_BODY implies body_end(r, d)
            <= r.len() by {
            assert(d == 0);
        }
    }
    assert forall|i: int| #![trigger has_container(b, i)] 0 <= i < table_rows(b) implies
        has_container(b, i) && container_sound(container_of(b, i), table_entry(b, i).type_hash) by {
        assert(i == 0);
    }
}

/// The sizes that the first `i` entries of a block give their containers, added up.
pub open spec fn sizes_before(b: Seq<u8>, i: nat) -> int
    decreases i,
{
    if i == 0 {
        0
    } else {
        sizes_before(b, (i - 1) as nat) + u32_le(b, 4 + 16 * (i - 1) + 12)
    }
}

/// Where the container of entry `i` of a block starts: behind a table of as many entries of sixteen
/// bytes as the first word says, and behind the containers of the entries before it.
pub open spec fn place_of(b: Seq<u8>, i: nat) -> int {
    4 + 16 * u32_le(b, 0) + sizes_before(b, i)
}

/// Entry `i` is announced and stands in the block.
pub open spec fn has_entry(b: Seq<u8>, i: int) -> bool {
    0 <= i < u32_le(b, 0) && 4 + 16 * i + 16 <= b.len()
}

/// Entry `i` is the first that has this name hash in its first word.
pub open spec fn named_first(b: Seq<u8>, hash: u32, i: int) -> bool {
    &&& has_entry(b, i)
    &&& u32_le(b, 4 + 16 * i) == hash
    &&& forall|j: int| 0 <= j < i ==> #[trigger] u32_le(b, 4 + 16 * j) != hash
}

/// What the tables of a block say: the entries are those that are announced and stand in the block,
/// with their four words, and the container of each is where the sizes put it.
pub proof fn law_block_tables(b: Seq<u8>, i: int)
    requires
        i >= 0,
    ensures
        b.len() < 4 ==> table_count(b) == 0 && table_rows(b) == 0,
        b.len() >= 4 ==> table_count(b) == u32_le(b, 0) && (i < table_rows(b) <==> has_entry(b, i)),
        b.len() >= 4 ==> container_start(b, i) == place_of(b, i as nat),
        table_entry(b, i).name_hash == u32_le(b, 4 + 16 * i),
        table_entry(b, i).type_hash == u32_le(b, 4 + 16 * i + 4),
        table_entry(b, i).field_c == u32_le(b, 4 + 16 * i + 8),
        table_entry(b, i).chunk_size == u32_le(b, 4 + 16 * i + 12),
        b.len() >= 4 ==> (has_container(b, i) <==> has_entry(b, i) && place_of(b, (i + 1) as nat)
            <= b.len()),
        b.len() < 4 ==> !has_container(b, i),
        b.len() >= 4 ==> container_of(b, i) == b.subrange(
            place_of(b, i as nat),
            place_of(b, i as nat) + u32_le(b, 4 + 16 * i + 12),
        ),
    decreases i,
{
    if i > 0 {
        law_block_tables(b, i - 1);
    }
    assert(container_start(b, i + 1) == container_start(b, i) + table_entry(b, i).chunk_size);
    assert(sizes_before(b, (i + 1) as nat) == sizes_before(b, i as nat) + u32_le(
        b,
        4 + 16 * i + 12,
    ));
}

/// In a block of any number of entries, the movie of an asset is located in the first entry with its
/// name hash, with the words and the container of that very entry.
pub proof fn law_located_entry(b: Seq<u8>, asset: AsetEntry, paths: Seq<String>, i: int)
    requires
        b.len() >= 4,
        named_first(b, asset.asset_hash, i),
    ensures
        ({
            let at = place_of(b, i as nat);
            let block = asset.packed_block_ref as int / 65536;
            &&& movie_in_block(b, asset, paths) matches Ok(found)
            &&& found.name_hash == asset.asset_hash
            &&& found.type_hash == u32_le(b, 4 + 16 * i + 4)
            &&& found.field_c == u32_le(b, 4 + 16 * i + 8)
            &&& found.container == b.subrange(at, at + u32_le(b, 4 + 16 * i + 12))
            &&& found.secondary_ref == asset.secondary_ref
            &&& found.type_id == asset.type_id
            &&& found.block_index == block
            &&& block < paths.len() ==> found.block_path == paths[block]@
            &&& block >= paths.len() ==> found.block_path.len() == 0
        }),
{
    law_block_tables(b, i);
    assert(table_entry(b, i).name_hash == asset.asset_hash);
    assert forall|j: int| 0 <= j < i implies (#[trigger] table_entry(b, j)).name_hash
        != asset.asset_hash by {
        law_block_tables(b, j);
        assert(u32_le(b, 4 + 16 * j) != asset.asset_hash);
    }
    assert(first_entry(b, asset.asset_hash, i));
    lemma_entry_index(b, asset.asset_hash, i);
}

/// An asset is not located exactly where no entry of the block has its name hash.
pub proof fn law_no_entry(b: Seq<u8>, asset: AsetEntry, paths: Seq<String>)
    ensures
        (b.len() >= 4 && exists|i: int|
            has_entry(b, i) && #[trigger] u32_le(b, 4 + 16 * i) == asset.asset_hash)
            <==> movie_in_block(b, asset, paths) is Ok,
        movie_in_block(b, asset, paths) matches Err(e) ==> e == (ErrorView::NotInBlock {
            hash: asset.asset_hash,
            block_index: (asset.packed_block_ref as int / 65536) as usize,
        }),
{
    let hash = asset.asset_hash;
    if b.len() >= 4 && exists|i: int|
        has_entry(b, i) && #[trigger] u32_le(b, 4 + 16 * i) == hash {
        let i = choose|i: int| has_entry(b, i) && #[trigger] u32_le(b, 4 + 16 * i) == hash;
        lemma_some_entry_is_first(b, hash, i);
        let first = choose|j: int| named_first(b, hash, j);
        law_located_entry(b, asset, paths, first);
    } else if entry_index(b, hash) is Some {
        let i = choose|i: int| first_entry(b, hash, i);
        assert(first_entry(b, hash, i));
        law_block_tables(b, i);
        assert(has_entry(b, i) && u32_le(b, 4 + 16 * i) == hash);
    }
}

/// Where an entry has a name hash, some entry is the first that has it.
proof fn lemma_some_entry_is_first(b: Seq<u8>, hash: u32, i: int)
    requires
        has_entry(b, i),
        u32_le(b, 4 + 16 * i) == hash,
    ensures
        exists|j: int| named_first(b, hash, j),
    decreases i,
{
    if exists|j: int| 0 <= j < i && #[trigger] u32_le(b, 4 + 16 * j) == hash {
        let j = choose|j: int| 0 <= j < i && #[trigger] u32_le(b, 4 + 16 * j) == hash;
        lemma_some_entry_is_first(b, hash, j);
    } else {
        assert(named_first(b, hash, i));
    }
}

/// The table of a block with these entries.
pub open spec fn table_bytes(entries: Seq<BlockTableEntry>) -> Seq<u8>
    decreases entries.len(),
{
    if entries.len() == 0 {
        Seq::empty()
    } else {
        let e = entries.last();
        table_bytes(entries.drop_last()) + (le_bytes(e.name_hash) + le_bytes(e.type_hash)
            + le_bytes(e.field_c) + le_bytes(e.chunk_size))
    }
}

/// The containers of a block one behind the other.
pub open spec fn joined(containers: Seq<Seq<u8>>) -> Seq<u8>
    decreases containers.len(),
{
    if containers.len() == 0 {
        Seq::empty()
    } else {
        joined(containers.drop_last()) + containers.last()
    }
}

/// A block put together of entries and containers.
pub open spec fn assembled(entries: Seq<BlockTableEntry>, containers: Seq<Seq<u8>>) -> Seq<u8> {
    le_bytes(entries.len() as u32) + table_bytes(entries) + joined(containers)
}

proof fn lemma_table_bytes(entries: Seq<BlockTableEntry>, i: int)
    requires
        0 <= i < entries.len(),
    ensures
        table_bytes(entries).len() == 16 * entries.len(),
        ({
            let e = entries[i];
            table_bytes(entries).subrange(16 * i, 16 * i + 16) == le_bytes(e.name_hash) + le_bytes(
                e.type_hash,
            ) + le_bytes(e.field_c) + le_bytes(e.chunk_size)
        }),
    decreases entries.len(),
{
    let before = entries.drop_last();
    let n = entries.len() as int;
    lemma_table_len(before);
    if i < n - 1 {
        lemma_table_bytes(before, i);
        assert(table_bytes(entries).subrange(16 * i, 16 * i + 16) =~= table_bytes(before).subrange(
            16 * i,
            16 * i + 16,
        ));
    } else {
        let e = entries[i];
        assert(table_bytes(entries).subrange(16 * i, 16 * i + 16) =~= le_bytes(e.name_hash)
            + le_bytes(e.type_hash) + le_bytes(e.field_c) + le_bytes(e.chunk_size));
    }
}

proof fn lemma_table_len(entries: Seq<BlockTableEntry>)
    ensures
        table_bytes(entries).len() == 16 * entries.len(),
    decreases entries.len(),
{
    if entries.len() > 0 {
        lemma_table_len(entries.drop_last());
    }
}

proof fn lemma_joined(containers: Seq<Seq<u8>>, i: int)
    requires
        0 <= i < containers.len(),
    ensures
        joined(containers.take(i)).len() + containers[i].len() <= joined(containers).len(),
        joined(containers).subrange(
            joined(containers.take(i)).len() as int,
            (joined(containers.take(i)).len() + containers[i].len()) as int,
        ) == containers[i],
        joined(containers.take(i + 1)).len() == joined(containers.take(i)).len()
            + containers[i].len(),
    decreases containers.len(),
{
    let before = containers.drop_last();
    assert(containers.take(i + 1).drop_last() =~= containers.take(i));
    if i < containers.len() - 1 {
        lemma_joined(before, i);
        assert(before.take(i) =~= containers.take(i));
        let at = joined(containers.take(i)).len() as int;
        let end = at + containers[i].len();
        assert(joined(containers).subrange(at, end) =~= joined(before).subrange(at, end));
    } else {
        assert(containers.take(i) =~= before);
        let at = joined(before).len() as int;
        assert(joined(containers).subrange(at, at + containers[i].len()) =~= containers[i]);
    }
}

/// The words of entry `i` of a block that was put together.
proof fn lemma_assembled_entry(entries: Seq<BlockTableEntry>, containers: Seq<Seq<u8>>, i: int)
    requires
        0 <= i < entries.len() <= u32::MAX,
    ensures
        ({
            let b = assembled(entries, containers);
            &&& b.len() == 4 + 16 * entries.len() + joined(containers).len()
            &&& u32_le(b, 0) == entries.len()
            &&& u32_le(b, 4 + 16 * i) == entries[i].name_hash
            &&& u32_le(b, 4 + 16 * i + 4) == entries[i].type_hash
            &&& u32_le(b, 4 + 16 * i + 8) == entries[i].field_c
            &&& u32_le(b, 4 + 16 * i + 12) == entries[i].chunk_size
        }),
{
    let b = assembled(entries, containers);
    let at = 4 + 16 * i;
    let e = entries[i];
    let row = le_bytes(e.name_hash) + le_bytes(e.type_hash) + le_bytes(e.field_c) + le_bytes(
        e.chunk_size,
    );
    lemma_table_bytes(entries, i);
    assert(b.subrange(0, 4) =~= le_bytes(entries.len() as u32));
    lemma_u32_le_of_le_bytes(b, 0, entries.len() as u32);
    assert(b.subrange(at, at + 16) =~= row);
    assert(b.subrange(at, at + 4) =~= b.subrange(at, at + 16).subrange(0, 4));
    assert(row.subrange(0, 4) =~= le_bytes(e.name_hash));
    lemma_u32_le_of_le_bytes(b, at, e.name_hash);
    assert(b.subrange(at + 4, at + 8) =~= b.subrange(at, at + 16).subrange(4, 8));
    assert(row.subrange(4, 8) =~= le_bytes(e.type_hash));
    lemma_u32_le_of_le_bytes(b, at + 4, e.type_hash);
    assert(b.subrange(at + 8, at + 12) =~= b.subrange(at, at + 16).subrange(8, 12));
    assert(row.subrange(8, 12) =~= le_bytes(e.field_c));
    lemma_u32_le_of_le_bytes(b, at + 8, e.field_c);
    assert(b.subrange(at + 12, at + 16) =~= b.subrange(at, at + 16).subrange(12, 16));
    assert(row.subrange(12, 16) =~= le_bytes(e.chunk_size));
    lemma_u32_le_of_le_bytes(b, at + 12, e.chunk_size);
}

/// The sizes of a block that was put together add up to what stands before a container.
proof fn lemma_assembled_sizes(entries: Seq<BlockTableEntry>, containers: Seq<Seq<u8>>, i: int)
    requires
        0 <= i <= entries.len() <= u32::MAX,
        entries.len() == containers.len(),
        forall|k: int|
            0 <= k < entries.len() ==> (#[trigger] entries[k]).chunk_size == containers[k].len(),
    ensures
        sizes_before(assembled(entries, containers), i as nat) == joined(containers.take(i)).len(),
    decreases i,
{
    if i == 0 {
        assert(containers.take(0) =~= Seq::empty());
    } else {
        lemma_assembled_sizes(entries, containers, i - 1);
        lemma_assembled_entry(entries, containers, i - 1);
        lemma_joined(containers, i - 1);
    }
}

/// Of a block that was put together of any number of entries and containers, the container that comes
/// back for the name of an entry is the one that was put in for that entry, with its words, and it is
/// there to be located.
pub proof fn law_locate_in_assembled_block(
    entries: Seq<BlockTableEntry>,
    containers: Seq<Seq<u8>>,
    asset: AsetEntry,
    paths: Seq<String>,
    i: int,
)
    requires
        entries.len() == containers.len(),
        entries.len() <= u32::MAX,
        forall|k: int|
            0 <= k < entries.len() ==> (#[trigger] entries[k]).chunk_size == containers[k].len(),
        0 <= i < entries.len(),
        entries[i].name_hash == asset.asset_hash,
        forall|k: int| 0 <= k < i ==> (#[trigger] entries[k]).name_hash != asset.asset_hash,
    ensures
        ({
            let b = assembled(entries, containers);
            &&& has_container(b, i)
            &&& container_of(b, i) == containers[i]
            &&& movie_in_block(b, asset, paths) matches Ok(found)
            &&& found.container == containers[i]
            &&& found.type_hash == entries[i].type_hash
            &&& found.field_c == entries[i].field_c
        }),
{
    let b = assembled(entries, containers);
    lemma_assembled_container(entries, containers, i);
    lemma_assembled_entry(entries, containers, i);
    assert forall|j: int| 0 <= j < i implies #[trigger] u32_le(b, 4 + 16 * j)
        != asset.asset_hash by {
        lemma_assembled_entry(entries, containers, j);
        assert(entries[j].name_hash != asset.asset_hash);
    }
    law_located_entry(b, asset, paths, i);
}

/// The container of entry `i` of a block that was put together.
proof fn lemma_assembled_container(entries: Seq<BlockTableEntry>, containers: Seq<Seq<u8>>, i: int)
    requires
        entries.len() == containers.len(),
        0 <= i < entries.len() <= u32::MAX,
        forall|k: int|
            0 <= k < entries.len() ==> (#[trigger] entries[k]).chunk_size == containers[k].len(),
    ensures
        ({
            let b = assembled(entries, containers);
            let at = place_of(b, i as nat);
            &&& b.len() >= 4
            &&& has_entry(b, i)
            &&& has_container(b, i)
            &&& container_of(b, i) == containers[i]
            &&& b.subrange(at, at + u32_le(b, 4 + 16 * i + 12)) == containers[i]
        }),
{
    let b = assembled(entries, containers);
    lemma_assembled_entry(entries, containers, i);
    lemma_table_len(entries);
    lemma_assembled_sizes(entries, containers, i);
    lemma_assembled_sizes(entries, containers, i + 1);
    lemma_joined(containers, i);
    law_block_tables(b, i);
    assert(entries[i].chunk_size == containers[i].len());
    let at = place_of(b, i as nat);
    let end = at + containers[i].len();
    let skip = 4 + 16 * entries.len();
    assert(at - skip == joined(containers.take(i)).len());
    assert(b.subrange(at, end) =~= joined(containers).subrange(at - skip, end - skip));
}

/// A built block is the word 1, the three words, the size of the container and the container.
pub proof fn law_built_bytes(name_hash: u32, type_hash: u32, field_c: u32, container: Seq<u8>)
    ensures
        ({
            let b = block_bytes(name_hash, type_hash, field_c, container);
            &&& b.len() == 20 + container.len()
            &&& u32_le(b, 0) == 1
            &&& u32_le(b, 4) == name_hash
            &&& u32_le(b, 8) == type_hash
            &&& u32_le(b, 12) == field_c
            &&& u32_le(b, 16) <= container.len()
            &&& (container.len() - u32_le(b, 16)) % 0x1_0000_0000 == 0
            &&& forall|i: int| 0 <= i < container.len() ==> b[20 + i] == container[i]
        }),
{
    let b = block_bytes(name_hash, type_hash, field_c, container);
    law_low_part(container.len());
    assert(b.subrange(0, 4) =~= le_bytes(1));
    lemma_u32_le_of_le_bytes(b, 0, 1);
    assert(b.subrange(4, 8) =~= le_bytes(name_hash));
    lemma_u32_le_of_le_bytes(b, 4, name_hash);
    assert(b.subrange(8, 12) =~= le_bytes(type_hash));
    lemma_u32_le_of_le_bytes(b, 8, type_hash);
    assert(b.subrange(12, 16) =~= le_bytes(field_c));
    lemma_u32_le_of_le_bytes(b, 12, field_c);
    assert(b.subrange(16, 20) =~= le_bytes(low32(container.len())));
    lemma_u32_le_of_le_bytes(b, 16, low32(container.len()));
}

/// Where addresses have 64 bits, every block can be taken apart, and an asset can be located in every
/// block in which the container of its entry lies.
pub proof fn law_what_can_be_located(b: Seq<u8>, hash: u32)
    requires
        usize::MAX >= 0x10_0000_0000_0000,
    ensures
        walk_addressable(b),
        b.len() < 4 ==> locatable(b, hash),
        b.len() >= 4 ==> (locatable(b, hash) <==> forall|i: int| #[trigger]
            named_first(b, hash, i) ==> place_of(b, (i + 1) as nat) <= b.len()),
{
    assert forall|i: int| #[trigger] has_container(b, i) implies rows_addressable(
        container_of(b, i),
        table_entry(b, i).type_hash,
    ) by {
        let c = container_of(b, i);
        assert forall|d: int|
            #![trigger row_offset(c, d)]
            0 <= d < n_desc(c) && row_offset(c, d) != NO_BODY implies body_start(c, d)
            <= usize::MAX by {}
    }
    if b.len() >= 4 {
        assert forall|i: int| #[trigger] named_first(b, hash, i) implies entry_index(b, hash)
            == Some(i) by {
            law_block_tables(b, i);
            assert forall|j: int| 0 <= j < i implies (#[trigger] table_entry(b, j)).name_hash
                != hash by {
                law_block_tables(b, j);
                assert(u32_le(b, 4 + 16 * j) != hash);
            }
            assert(first_entry(b, hash, i));
            lemma_entry_index(b, hash, i);
        }
        if entry_index(b, hash) is Some {
            let i = choose|i: int| first_entry(b, hash, i);
            assert(first_entry(b, hash, i));
            lemma_entry_index(b, hash, i);
            law_block_tables(b, i);
            assert forall|j: int| 0 <= j < i implies #[trigger] u32_le(b, 4 + 16 * j) != hash by {
                law_block_tables(b, j);
                assert(table_entry(b, j).name_hash != hash);
            }
            assert(named_first(b, hash, i));
            assert forall|j: int| #[trigger] named_first(b, hash, j) implies j == i by {
                assert(entry_index(b, hash) == Some(j));
            }
        }
    } else if entry_index(b, hash) is Some {
        let i = choose|i: int| first_entry(b, hash, i);
        assert(first_entry(b, hash, i));
    }
}

/// A located movie and a remark are told field by field.
pub proof fn law_location_is_told_as_it_is(loc: MovieLoc, issue: WalkIssue)
    ensures
        loc@.block_index == loc.block_index,
        loc@.name_hash == loc.name_hash,
        loc@.type_hash == loc.type_hash,
        loc@.field_c == loc.field_c,
        loc@.secondary_ref == loc.secondary_ref,
        loc@.type_id == loc.type_id,
        loc@.container == loc.container@,
        loc@.block_path == loc.block_path@,
        issue@ == (issue.context@, issue.detail@),
{
}

/// A block whose table would end behind the largest address cannot be taken apart, nor can one with a
/// container whose descriptors point behind it.
pub proof fn law_what_cannot_be_taken_apart(b: Seq<u8>, i: int, d: int)
    requires
        b.len() >= 4,
    ensures
        4 + 16 * u32_le(b, 0) > usize::MAX ==> !walk_addressable(b),
        has_container(b, i) && !skips_descriptors(u32_le(b, 4 + 16 * i + 4)) && ({
            let c = container_of(b, i);
            &&& c.len() >= 20
            &&& starts_ucfx(c)
            &&& 20 + 20 * u32_le(c, 16) <= c.len()
            &&& 0 <= d < u32_le(c, 16)
            &&& u32_le(c, 20 + 20 * d + 4) != 0xFFFF_FFFF
            &&& if u32_le(c, 4) == 0 {
                8
            } else {
                u32_le(c, 4) as int
            } + u32_le(c, 20 + 20 * d + 4) > usize::MAX
        }) ==> !walk_addressable(b),
{
    if has_container(b, i) {
        let c = container_of(b, i);
        law_what_takes_a_movie(c);
        if c.len() >= 4 {
            law_tag(c, 0, 'U', 'C', 'F', 'X');
        }
        assert(row_offset(c, d) == u32_le(c, 20 + 20 * d + 4));
        law_block_tables(b, i);
    }
}

} // verus!
