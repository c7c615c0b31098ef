//! Reports on blocks: entries, container layout, movie headers and checksums.
use vstd::prelude::*;
use vstd::slice::slice_subrange;
use vstd::string::StringExecFns;

use crate::archive::{
    block_title, first_match, no_match, resolve_block, table_index, title_of,
};
use crate::asset_types::{type_id_for_type_hash, type_id_of};
use crate::block::{
    block_sound, can_walk, container_of, has_container, law_built_block, law_built_block_is_sound,
    law_what_can_be_located,
    lemma_containers, parses_to, table_count, table_entry, table_rows, walk_addressable,
    walk_decompressed_block, walk_issues, BlockTableEntry, MovieLocView, ParsedBlock, WalkIssue,
};
use crate::bytes::{law_low_part, law_tag, lemma_low32, low32, read_u32_le, tag_at, u32_le};
use crate::checksum::crc32_mercs2;
use crate::container::{
    body_base, can_extract, csum_trailer, data_area_off, data_chunk, data_chunk_addressable,
    extract_data_chunk, header_covers_size, is_ucfx, law_extract_after_rebuild, law_rebuilt_layout,
    law_what_can_be_extracted, law_what_takes_a_movie, starts_ucfx,
    lemma_rebuilt_words, max_desc, n_desc, rebuild_refusal, rebuilt, row_at, row_offset, row_size,
    NO_BODY, ROW_LEN, TRAILER_LEN,
};
use crate::error::{Error, ErrorView};
use crate::layout::{
    laid_out, law_patch_stores_block, numbered, record_at, stored_pages, tables_before_data,
};
use crate::movie::{
    find_movie, header_view, kind_text, law_first_movie_is_found, looks_like_movie, movie_header,
    push_kind,
};
use crate::patch::{override_block, override_bytes, PatchBlockView};
use crate::sges::{sges_data, sges_refusal, unpacks_to};
use crate::strings::{decoded_text, from_utf8_lossy};
use crate::text::{head, hex, hex_row, law_upper_hex, push_upper_hex, spells, upper_hex};

verus! {

/// Bytes that a dump of the start of a container or chunk shows.
pub const DUMP_LEN: usize = 16;

/// Remarks that a report shows.
pub const SHOWN_ISSUES: usize = 8;

/// The block that is to be inspected.
#[derive(Debug)]
pub struct Target {
    pub index: usize,
    pub table_index: u16,
    pub title: String,
}

/// An entry of the block and the asset type of its type hash.
#[derive(Debug)]
pub struct EntryReport {
    pub entry: BlockTableEntry,
    pub type_id: Option<u32>,
}

/// A descriptor of a container.
#[derive(Debug)]
pub struct RowReport {
    pub tag: String,
    pub offset: u32,
    pub size: u32,
    pub body_start: u32,
    pub movie: Option<String>,
}

/// A [`RowReport`] with its strings as characters.
pub struct RowReportView {
    pub tag: Seq<char>,
    pub offset: u32,
    pub size: u32,
    pub body_start: u32,
    pub movie: Option<Seq<char>>,
}

/// The descriptor table of a container.
#[derive(Debug)]
pub struct TableReport {
    pub data_area_off: u32,
    pub n_desc: u32,
    pub rows: Vec<RowReport>,
}

/// A [`TableReport`] with its rows as a sequence.
pub struct TableReportView {
    pub data_area_off: u32,
    pub n_desc: u32,
    pub rows: Seq<RowReportView>,
}

/// The `data` chunk of a container.
#[derive(Debug)]
pub struct ChunkReport {
    pub len: usize,
    pub movie: Option<String>,
    pub dump: String,
}

/// A [`ChunkReport`] with its strings as characters.
pub struct ChunkReportView {
    pub len: nat,
    pub movie: Option<Seq<char>>,
    pub dump: Seq<char>,
}

/// The `CSUM` trailer of a container.
#[derive(Clone, Copy, Debug, PartialEq, Eq)]
pub struct CsumReport {
    pub stored: u32,
    pub computed: u32,
    pub matches: bool,
}

/// A container.
#[derive(Debug)]
pub struct ContainerReport {
    pub len: usize,
    pub dump: String,
    pub is_ucfx: bool,
    pub table: Option<TableReport>,
    pub movie: Option<(usize, String, u8, u32)>,
    pub chunk: Option<ChunkReport>,
    pub csum: Option<CsumReport>,
}

/// A [`ContainerReport`] with its contents as sequences.
pub struct ContainerReportView {
    pub len: nat,
    pub dump: Seq<char>,
    pub is_ucfx: bool,
    pub table: Option<TableReportView>,
    pub movie: Option<(int, Seq<char>, u8, u32)>,
    pub chunk: Option<ChunkReportView>,
    pub csum: Option<CsumReport>,
}

/// A block.
#[derive(Debug)]
pub struct BlockReport {
    pub entry_count: u32,
    pub entries: Vec<EntryReport>,
    pub issue_count: usize,
    pub issues: Vec<WalkIssue>,
    pub containers: Vec<ContainerReport>,
}

/// A string that may be there, as characters.
pub open spec fn text_view(text: Option<String>) -> Option<Seq<char>> {
    match text {
        Some(t) => Some(t@),
        None => None,
    }
}

impl View for RowReport {
    type V = RowReportView;

    open spec fn view(&self) -> RowReportView {
        RowReportView {
            tag: self.tag@,
            offset: self.offset,
            size: self.size,
            body_start: self.body_start,
            movie: text_view(self.movie),
        }
    }
}

impl View for TableReport {
    type V = TableReportView;

    open spec fn view(&self) -> TableReportView {
        TableReportView {
            data_area_off: self.data_area_off,
            n_desc: self.n_desc,
            rows: self.rows@.map_values(|row: RowReport| row@),
        }
    }
}

impl View for ChunkReport {
    type V = ChunkReportView;

    open spec fn view(&self) -> ChunkReportView {
        ChunkReportView {
            len: self.len as nat,
            movie: text_view(self.movie),
            dump: self.dump@,
        }
    }
}

impl View for ContainerReport {
    type V = ContainerReportView;

    open spec fn view(&self) -> ContainerReportView {
        ContainerReportView {
            len: self.len as nat,
            dump: self.dump@,
            is_ucfx: self.is_ucfx,
            table: match self.table {
                Some(table) => Some(table@),
                None => None,
            },
            movie: header_view(self.movie),
            chunk: match self.chunk {
                Some(chunk) => Some(chunk@),
                None => None,
            },
            csum: self.csum,
        }
    }
}

/// Where a descriptor says that its body starts, in 32-bit arithmetic.
pub open spec fn wrapped_start(c: Seq<u8>, d: int) -> u32 {
    low32((body_base(c) + row_offset(c, d)) as nat)
}

/// The eight bytes at `start`, or as many as there are.
pub open spec fn window(c: Seq<u8>, start: int) -> Seq<u8> {
    c.subrange(
        start,
        if start + 8 <= c.len() {
            start + 8
        } else {
            c.len() as int
        },
    )
}

/// The kind of movie whose header stands right where a descriptor's body starts.
pub open spec fn movie_at_row(c: Seq<u8>, d: int) -> Option<Seq<char>> {
    if row_offset(c, d) != NO_BODY && wrapped_start(c, d) < c.len() {
        match movie_header(window(c, wrapped_start(c, d) as int)) {
            Some((_, magic, version, _)) => Some(kind_text(magic, version)),
            None => None,
        }
    } else {
        None
    }
}

/// The report on descriptor `d`.
pub open spec fn row_report(c: Seq<u8>, d: int) -> RowReportView {
    RowReportView {
        tag: decoded_text(c.subrange(row_at(d), row_at(d) + 4)),
        offset: row_offset(c, d),
        size: row_size(c, d),
        body_start: wrapped_start(c, d),
        movie: movie_at_row(c, d),
    }
}

/// How many descriptors are reported: the announced ones that have room.
pub open spec fn reported_rows(c: Seq<u8>) -> int {
    if n_desc(c) <= max_desc(c) {
        n_desc(c) as int
    } else {
        max_desc(c)
    }
}

/// The report on a container's descriptors, where its header is that of a UCFX container.
pub open spec fn table_report(c: Seq<u8>) -> Option<TableReportView> {
    if c.len() >= ROW_LEN && is_ucfx(c) {
        Some(
            TableReportView {
                data_area_off: data_area_off(c),
                n_desc: n_desc(c),
                rows: Seq::new(reported_rows(c) as nat, |d: int| row_report(c, d)),
            },
        )
    } else {
        None
    }
}

/// Kind and offset of the first movie header in a chunk.
pub open spec fn chunk_movie(chunk: Seq<u8>) -> Option<Seq<char>> {
    match movie_header(chunk) {
        Some((offset, magic, version, _)) => Some(
            kind_text(magic, version) + " @0x"@ + upper_hex(offset as nat),
        ),
        None => None,
    }
}

/// The report on a container's `data` chunk.
pub open spec fn chunk_report(c: Seq<u8>) -> Option<ChunkReportView> {
    match data_chunk(c) {
        Some(chunk) => Some(
            ChunkReportView {
                len: chunk.len(),
                movie: chunk_movie(chunk),
                dump: hex_row(head(chunk, DUMP_LEN as nat)),
            },
        ),
        None => None,
    }
}

/// The report on a container's trailer.
pub open spec fn csum_report(c: Seq<u8>) -> Option<CsumReport> {
    match csum_trailer(c) {
        Some((stored, computed)) => Some(
            CsumReport { stored, computed, matches: stored == computed },
        ),
        None => None,
    }
}

/// The report on a container.
pub open spec fn container_report(c: Seq<u8>) -> ContainerReportView {
    ContainerReportView {
        len: c.len(),
        dump: hex_row(head(c, DUMP_LEN as nat)),
        is_ucfx: is_ucfx(c),
        table: table_report(c),
        movie: movie_header(c),
        chunk: chunk_report(c),
        csum: csum_report(c),
    }
}

/// The report on an entry.
pub open spec fn entry_report(entry: BlockTableEntry) -> EntryReport {
    EntryReport { entry, type_id: type_id_of(entry.type_hash) }
}

/// Every offset that a report on `b` comes across is a number that the machine can address.
pub open spec fn inspectable(b: Seq<u8>) -> bool {
    &&& walk_addressable(b)
    &&& forall|i: int| #[trigger]
        has_container(b, i) ==> data_chunk_addressable(container_of(b, i))
}

/// What a report says of a rebuilt container: the descriptors of the old one with the size of the
/// new movie, a checksum that matches, and, where the movie starts the data area, a `data` chunk that
/// is the new movie.
pub proof fn law_report_on_rebuilt_container(c: Seq<u8>, movie: Seq<u8>)
    requires
        rebuild_refusal(c) is None,
        header_covers_size(c),
        movie.len() <= u32::MAX,
    ensures
        ({
            let report = container_report(rebuilt(c, movie));
            &&& report.is_ucfx
            &&& report.table matches Some(table)
            &&& table.data_area_off == data_area_off(c)
            &&& table.n_desc == 1
            &&& table.rows.len() == 1
            &&& table.rows[0].offset == row_offset(c, 0)
            &&& table.rows[0].size == movie.len()
            &&& report.csum matches Some(csum)
            &&& csum.matches
            &&& row_offset(c, 0) == 0 ==> report.chunk == Some(
                ChunkReportView {
                    len: movie.len(),
                    movie: chunk_movie(movie),
                    dump: hex_row(head(movie, DUMP_LEN as nat)),
                },
            )
        }),
{
    law_rebuilt_layout(c, movie);
    lemma_rebuilt_words(c, movie);
    lemma_low32(movie.len());
    law_extract_after_rebuild(c, movie);
    assert(max_desc(rebuilt(c, movie)) >= 1);
}

/// What a report says of a block of a patch, fresh or merged, that overrides a movie: one entry, under
/// the movie's old words and with the size of the rebuilt container, nothing that looks wrong, and one
/// container, with one descriptor that gives the size of the new movie and a checksum that matches.
/// The descriptor's offset may move the movie into the trailer at most, what has to be numbered in the
/// tables can be, and the tables end before the data.
pub proof fn law_report_on_patch(
    wad: Seq<u8>,
    blocks: Seq<PatchBlockView>,
    i: int,
    loc: MovieLocView,
    movie: Seq<u8>,
    csum_value: u32,
    csum_meta: Option<u32>,
)
    requires
        laid_out(wad, blocks, csum_value, csum_meta),
        tables_before_data(blocks),
        numbered(blocks, i),
        blocks[i] == override_block(loc, movie),
        unpacks_to(blocks[i].compressed_data, override_bytes(loc, movie)),
        rebuild_refusal(loc.container) is None,
        header_covers_size(loc.container),
        row_offset(loc.container, 0) <= TRAILER_LEN || row_offset(loc.container, 0) == NO_BODY,
        rebuilt(loc.container, movie).len() <= u32::MAX,
    ensures
        sges_refusal(stored_pages(wad, record_at(i))) is None,
        ({
            let b = sges_data(stored_pages(wad, record_at(i)));
            let report = container_report(container_of(b, 0));
            &&& table_count(b) == 1
            &&& table_rows(b) == 1
            &&& table_entry(b, 0) == (BlockTableEntry {
                name_hash: loc.name_hash,
                type_hash: loc.type_hash,
                field_c: loc.field_c,
                chunk_size: (data_area_off(loc.container) + movie.len() + TRAILER_LEN) as u32,
            })
            &&& block_sound(b)
            &&& has_container(b, 0)
            &&& report.is_ucfx
            &&& report.table matches Some(table)
            &&& table.data_area_off == data_area_off(loc.container)
            &&& table.n_desc == 1
            &&& table.rows.len() == 1
            &&& table.rows[0].size == movie.len()
            &&& report.csum matches Some(csum)
            &&& csum.matches
        }),
{
    let r = rebuilt(loc.container, movie);
    law_patch_stores_block(wad, blocks, i, override_bytes(loc, movie), csum_value, csum_meta);
    law_rebuilt_layout(loc.container, movie);
    law_built_block(loc.name_hash, loc.type_hash, loc.field_c, r);
    law_built_block_is_sound(loc.name_hash, loc.type_hash, loc.field_c, loc.container, movie);
    law_report_on_rebuilt_container(loc.container, movie);
}

/// Choose the block to inspect.
pub fn inspect_target(paths: &[String], idx: Option<usize>, name: Option<&str>) -> (target: Result<
    Target,
    Error,
>)
    ensures
        match target {
            Ok(t) => {
                &&& t.table_index == t.index
                &&& t.title@ == title_of(paths@, t.index as int)
                &&& match (idx, name) {
                    (Some(i), _) => t.index == i,
                    (None, Some(n)) => first_match(paths@, n@, t.index as int),
                    (None, None) => false,
                }
            },
            Err(e) => match (idx, name) {
                (Some(i), _) => i > 0xFFFF && e@ == (ErrorView::NoSuchBlock { index: i }),
                (None, Some(n)) => {
                    ||| no_match(paths@, n@) && e@ == ErrorView::NoSuchPath(n@)
                    ||| exists|i: usize|
                        i > 0xFFFF && #[trigger] first_match(paths@, n@, i as int) && e@ == (
                        ErrorView::NoSuchBlock { index: i })
                },
                (None, None) => e@ == ErrorView::NoTarget,
            },
        },
{
    match resolve_block(paths, idx, name) {
        Ok(index) => match table_index(index) {
            Some(table_index) => Ok(
                Target { index, table_index, title: block_title(paths, index) },
            ),
            None => Err(Error::NoSuchBlock { index }),
        },
        Err(e) => Err(e),
    }
}

/// The kind of a movie whose header starts in `data`.
fn movie_kind(data: &[u8]) -> (kind: Option<String>)
    ensures
        text_view(kind) == match movie_header(data@) {
            Some((_, magic, version, _)) => Some(kind_text(magic, version)),
            None => None,
        },
{
    match find_movie(data) {
        Some((_offset, magic, version, _length)) => {
            let mut text = String::new();
            push_kind(&mut text, magic.as_str(), version);
            assert(text@ =~= kind_text(magic@, version));
            Some(text)
        },
        None => None,
    }
}

/// Report on descriptor `d`.
fn inspect_row(c: &[u8], d: usize) -> (report: RowReport)
    requires
        c@.len() >= ROW_LEN,
        d < reported_rows(c@),
    ensures
        report@ == row_report(c@, d as int),
{
    let len: usize = c.len();
    assert(row_at(d as int) + ROW_LEN <= len);
    assert(d * ROW_LEN + ROW_LEN <= len);
    let row: usize = ROW_LEN + d * ROW_LEN;
    let tag: String = from_utf8_lossy(slice_subrange(c, row, row + 4));
    let offset: u32 = read_u32_le(c, row + 4);
    let size: u32 = read_u32_le(c, row + 8);
    let area: u32 = read_u32_le(c, 4);
    let base: u32 = if area > 0 {
        area
    } else {
        8
    };
    let body_start: u32 = ((base as u64 + offset as u64) % 0x1_0000_0000) as u32;
    assert(body_start == wrapped_start(c@, d as int));
    let movie: Option<String> = if offset != NO_BODY && (body_start as u64) < len as u64 {
        let start: usize = body_start as usize;
        let end: usize = if len - start >= 8 {
            start + 8
        } else {
            len
        };
        assert(c@.subrange(start as int, end as int) == window(c@, start as int));
        movie_kind(slice_subrange(c, start, end))
    } else {
        None
    };
    RowReport { tag, offset, size, body_start, movie }
}

/// Report on a container's descriptors.
fn inspect_table(c: &[u8]) -> (report: Option<TableReport>)
    ensures
        match report {
            Some(table) => table_report(c@) == Some(table@),
            None => table_report(c@) is None,
        },
{
    let len: usize = c.len();
    if len < ROW_LEN || !tag_at(c, 0, 'U', 'C', 'F', 'X') {
        return None;
    }
    let count: u32 = read_u32_le(c, 16);
    let room: usize = (len - ROW_LEN) / ROW_LEN;
    let shown: usize = if count as u64 <= room as u64 {
        count as usize
    } else {
        room
    };
    let mut rows: Vec<RowReport> = Vec::new();
    let mut d: usize = 0;
    while d < shown
        invariant
            c@.len() >= ROW_LEN,
            shown == reported_rows(c@),
            d <= shown,
            rows@.len() == d,
            forall|k: int| 0 <= k < d ==> (#[trigger] rows@[k])@ == row_report(c@, k),
        decreases shown - d,
    {
        rows.push(inspect_row(c, d));
        d = d + 1;
    }
    let table = TableReport { data_area_off: read_u32_le(c, 4), n_desc: count, rows };
    assert(table@.rows =~= Seq::new(reported_rows(c@) as nat, |d: int| row_report(c@, d)));
    Some(table)
}

/// Report on a container's `data` chunk.
fn inspect_chunk(c: &[u8]) -> (report: Option<ChunkReport>)
    requires
        data_chunk_addressable(c@),
    ensures
        match report {
            Some(chunk) => chunk_report(c@) == Some(chunk@),
            None => chunk_report(c@) is None,
        },
{
    match extract_data_chunk(c) {
        Some(chunk) => {
            let movie: Option<String> = match find_movie(chunk.as_slice()) {
                Some((offset, magic, version, _length)) => {
                    let mut text = String::new();
                    push_kind(&mut text, magic.as_str(), version);
                    text.append(" @0x");
                    push_upper_hex(&mut text, offset as u64);
                    assert(text@ =~= kind_text(magic@, version) + " @0x"@ + upper_hex(
                        offset as nat,
                    ));
                    Some(text)
                },
                None => None,
            };
            Some(
                ChunkReport {
                    len: chunk.len(),
                    movie,
                    dump: hex(chunk.as_slice(), DUMP_LEN),
                },
            )
        },
        None => None,
    }
}

/// Report on a container's trailer.
fn inspect_csum(c: &[u8]) -> (report: Option<CsumReport>)
    ensures
        report == csum_report(c@),
{
    let len: usize = c.len();
    if len >= 8 && tag_at(c, len - 8, 'C', 'S', 'U', 'M') {
        let stored: u32 = read_u32_le(c, len - 4);
        let computed: u32 = crc32_mercs2(slice_subrange(c, 0, len - 8));
        Some(CsumReport { stored, computed, matches: stored == computed })
    } else {
        None
    }
}

/// Report on a container: its size and first bytes, its descriptors, the first movie header in it,
/// its `data` chunk and its checksum.
pub fn inspect_container(c: &[u8]) -> (report: ContainerReport)
    requires
        data_chunk_addressable(c@),
    ensures
        report@ == container_report(c@),
{
    ContainerReport {
        len: c.len(),
        dump: hex(c, DUMP_LEN),
        is_ucfx: c.len() >= 4 && tag_at(c, 0, 'U', 'C', 'F', 'X'),
        table: inspect_table(c),
        movie: find_movie(c),
        chunk: inspect_chunk(c),
        csum: inspect_csum(c),
    }
}

/// Report on a block that was taken apart, given the remarks on it.
pub fn report_block(parsed: &ParsedBlock, issues: Vec<WalkIssue>) -> (report: BlockReport)
    requires
        forall|i: int|
            0 <= i < parsed.containers@.len() ==> data_chunk_addressable(
                (#[trigger] parsed.containers@[i])@,
            ),
    ensures
        report.entry_count == parsed.entry_count,
        report.entries@ == parsed.entries@.map_values(|entry: BlockTableEntry| entry_report(entry)),
        report.issue_count == issues@.len(),
        report.issues@ == head(issues@, SHOWN_ISSUES as nat),
        report.issues@.len() == if issues@.len() < 8 {
            issues@.len()
        } else {
            8
        },
        report.containers@.map_values(|c: ContainerReport| c@) == parsed.containers@.map_values(
            |c: Vec<u8>| container_report(c@),
        ),
{
    let mut entries: Vec<EntryReport> = Vec::new();
    let mut i: usize = 0;
    while i < parsed.entries.len()
        invariant
            i <= parsed.entries@.len(),
            entries@.len() == i,
            forall|k: int|
                0 <= k < i ==> #[trigger] entries@[k] == entry_report(parsed.entries@[k]),
        decreases parsed.entries@.len() - i,
    {
        let entry: BlockTableEntry = parsed.entries[i];
        entries.push(EntryReport { entry, type_id: type_id_for_type_hash(entry.type_hash) });
        i = i + 1;
    }
    let issue_count: usize = issues.len();
    let ghost remarks = issues@;
    let mut shown: Vec<WalkIssue> = issues;
    shown.truncate(SHOWN_ISSUES);
    assert(shown@ =~= head(remarks, SHOWN_ISSUES as nat));
    let mut containers: Vec<ContainerReport> = Vec::new();
    let mut k: usize = 0;
    while k < parsed.containers.len()
        invariant
            forall|i: int|
                0 <= i < parsed.containers@.len() ==> data_chunk_addressable(
                    (#[trigger] parsed.containers@[i])@,
                ),
            k <= parsed.containers@.len(),
            containers@.len() == k,
            forall|j: int|
                0 <= j < k ==> (#[trigger] containers@[j])@ == container_report(
                    parsed.containers@[j]@,
                ),
        decreases parsed.containers@.len() - k,
    {
        containers.push(inspect_container(parsed.containers[k].as_slice()));
        k = k + 1;
    }
    assert(entries@ =~= parsed.entries@.map_values(|entry: BlockTableEntry| entry_report(entry)));
    assert(containers@.map_values(|c: ContainerReport| c@) =~= parsed.containers@.map_values(
        |c: Vec<u8>| container_report(c@),
    ));
    BlockReport { entry_count: parsed.entry_count, entries, issue_count, issues: shown, containers }
}

/// Report on a decompressed block: its entries, what looks wrong in it, and its containers.
pub fn inspect_block(block: &[u8], title: &str) -> (report: BlockReport)
    requires
        inspectable(block@),
    ensures
        report.entry_count == table_count(block@),
        report.entries@ == Seq::new(
            table_rows(block@) as nat,
            |i: int| entry_report(table_entry(block@, i)),
        ),
        report.issue_count == walk_issues(block@, title@).len(),
        report.issue_count == 0 <==> block_sound(block@),
        report.issues@.map_values(|issue: WalkIssue| issue@) == head(
            walk_issues(block@, title@),
            SHOWN_ISSUES as nat,
        ),
        report.containers@.len() <= table_rows(block@),
        forall|i: int|
            0 <= i < table_rows(block@) ==> (#[trigger] has_container(block@, i) <==> i
                < report.containers@.len()),
        forall|i: int|
            0 <= i < report.containers@.len() ==> (#[trigger] report.containers@[i])@
                == container_report(container_of(block@, i)),
{
    let (parsed, issues) = walk_decompressed_block(block, title);
    let ghost remarks = issues@;
    proof {
        assert forall|i: int| 0 <= i < parsed.containers@.len() implies data_chunk_addressable(
            (#[trigger] parsed.containers@[i])@,
        ) by {
            let held = parsed.containers@[i]@;
            assert(has_container(block@, i));
        }
        assert forall|j: int| 0 <= j < table_rows(block@) implies (#[trigger] has_container(
            block@,
            j,
        ) <==> j < parsed.containers@.len()) by {
            lemma_containers(block@, parsed, j);
        }
    }
    let report: BlockReport = report_block(&parsed, issues);
    proof {
        assert(report.entries@ =~= Seq::new(
            table_rows(block@) as nat,
            |i: int| entry_report(table_entry(block@, i)),
        ));
        assert(report.issues@.map_values(|issue: WalkIssue| issue@) =~= head(
            remarks.map_values(|issue: WalkIssue| issue@),
            SHOWN_ISSUES as nat,
        ));
        let views = report.containers@.map_values(|c: ContainerReport| c@);
        assert(views.len() == parsed.containers@.len());
        assert forall|i: int| 0 <= i < report.containers@.len() implies (
        #[trigger] report.containers@[i])@ == container_report(container_of(block@, i)) by {
            assert(views[i] == container_report(parsed.containers@[i]@));
        }
    }
    report
}

/// Whether [`inspect_block`] can be asked for a block on this machine.
pub fn can_inspect(block: &[u8]) -> (possible: bool)
    ensures
        possible == inspectable(block@),
{
    if !can_walk(block) {
        return false;
    }
    let (parsed, _issues) = walk_decompressed_block(block, "");
    let mut k: usize = 0;
    while k < parsed.containers.len()
        invariant
            parses_to(block@, parsed),
            walk_addressable(block@),
            k <= parsed.containers@.len(),
            forall|j: int| #[trigger]
                has_container(block@, j) && j < k ==> data_chunk_addressable(
                    container_of(block@, j),
                ),
        decreases parsed.containers@.len() - k,
    {
        let ghost held = parsed.containers@[k as int]@;
        assert(has_container(block@, k as int));
        if !can_extract(parsed.containers[k].as_slice()) {
            return false;
        }
        k = k + 1;
    }
    proof {
        assert forall|j: int| #[trigger] has_container(block@, j) implies data_chunk_addressable(
            container_of(block@, j),
        ) by {
            lemma_containers(block@, parsed, j);
        }
    }
    true
}

/// What is reported of descriptor `d`: the tag and the two words behind it that stand at `20 + 20 * d`,
/// where its body starts, counted in 32 bits from the word at 4 or from 8 where that is 0, and the
/// kind of the movie that starts right there.
pub proof fn law_reported_row(c: Seq<u8>, d: int)
    requires
        0 <= d,
        20 + 20 * d + 20 <= c.len(),
    ensures
        ({
            let row = row_report(c, d);
            let at = 20 + 20 * d;
            let base = if u32_le(c, 4) == 0 {
                8
            } else {
                u32_le(c, 4) as int
            };
            let start = row.body_start as int;
            &&& row.tag == decoded_text(c.subrange(at, at + 4))
            &&& row.offset == u32_le(c, at + 4)
            &&& row.size == u32_le(c, at + 8)
            &&& start == (base + u32_le(c, at + 4)) % 0x1_0000_0000
            &&& row.movie is Some <==> u32_le(c, at + 4) != 0xFFFF_FFFF && looks_like_movie(c, start)
            &&& row.movie matches Some(kind) ==> kind == kind_text(
                c.subrange(start, start + 3).map_values(|b: u8| b as char),
                c[start + 3],
            )
        }),
{
    let start = wrapped_start(c, d) as int;
    let w = window(c, start);
    law_low_part((body_base(c) + row_offset(c, d)) as nat);
    if start < c.len() {
        law_first_movie_is_found(w);
        lemma_window(c, start);
        if looks_like_movie(c, start) {
            assert(looks_like_movie(w, 0));
        }
        if let Some((offset, magic, version, _)) = movie_header(w) {
            assert(offset == 0);
            assert(magic =~= c.subrange(start, start + 3).map_values(|b: u8| b as char)) by {
                lemma_movie_magic(w);
                assert(w[0] == c[start] && w[1] == c[start + 1] && w[2] == c[start + 2]);
            }
        }
    }
}

/// The letters of a found movie are those that stand there.
proof fn lemma_movie_magic(data: Seq<u8>)
    ensures
        movie_header(data) matches Some((offset, magic, _, _)) ==> magic == data.subrange(
            offset,
            offset + 3,
        ).map_values(|b: u8| b as char),
{
    if let Some((offset, magic, _, _)) = movie_header(data) {
        law_first_movie_is_found(data);
        assert(magic =~= data.subrange(offset, offset + 3).map_values(|b: u8| b as char));
    }
}

/// A window shows a movie exactly where one starts.
proof fn lemma_window(c: Seq<u8>, start: int)
    requires
        0 <= start < c.len(),
    ensures
        looks_like_movie(window(c, start), 0) == looks_like_movie(c, start),
        forall|i: int| i != 0 ==> !#[trigger] looks_like_movie(window(c, start), i),
        looks_like_movie(c, start) ==> window(c, start)[3] == c[start + 3],
{
    let w = window(c, start);
    if start + 8 <= c.len() {
        assert(w.subrange(0, 3) =~= c.subrange(start, start + 3));
        assert(u32_le(w, 4) == u32_le(c, start + 4));
    }
}

/// The report on descriptors is there for UCFX containers with a whole header. It gives the words at 4
/// and 16, and each announced descriptor that has room, in order.
pub proof fn law_reported_table(c: Seq<u8>, d: int)
    requires
        d >= 0,
    ensures
        table_report(c) is Some <==> c.len() >= 20 && starts_ucfx(c),
        table_report(c) matches Some(table) ==> {
            &&& table.data_area_off == u32_le(c, 4)
            &&& table.n_desc == u32_le(c, 16)
            &&& d < table.rows.len() <==> d < u32_le(c, 16) && 20 + 20 * d + 20 <= c.len()
            &&& d < table.rows.len() ==> table.rows[d] == row_report(c, d)
        },
{
    law_what_takes_a_movie(c);
    if c.len() >= 4 {
        law_tag(c, 0, 'U', 'C', 'F', 'X');
    }
}

/// What is reported of a container: its length, its first sixteen bytes, whether it starts like a UCFX
/// container, the first movie in it, its `data` chunk with length, first sixteen bytes and first
/// movie, and its trailer, which matches where the stored checksum is the computed one.
pub proof fn law_reported_container(c: Seq<u8>)
    ensures
        ({
            let report = container_report(c);
            &&& report.len == c.len()
            &&& report.dump == hex_row(head(c, 16))
            &&& report.is_ucfx == starts_ucfx(c)
            &&& report.table == table_report(c)
            &&& report.movie == movie_header(c)
            &&& report.chunk is Some <==> data_chunk(c) is Some
            &&& report.csum is Some <==> csum_trailer(c) is Some
            &&& report.csum matches Some(csum) ==> csum_trailer(c) == Some(
                (csum.stored, csum.computed),
            ) && (csum.matches <==> csum.stored == csum.computed)
        }),
        container_report(c).chunk matches Some(chunk) ==> {
            let body = data_chunk(c)->0;
            &&& chunk.len == body.len()
            &&& chunk.dump == hex_row(head(body, 16))
            &&& chunk.movie is Some <==> movie_header(body) is Some
            &&& chunk.movie matches Some(text) ==> {
                let (offset, magic, version, _) = movie_header(body)->0;
                let kind = kind_text(magic, version);
                let n = kind.len() as int;
                &&& text.len() > n + 4
                &&& text.subrange(0, n) == kind
                &&& text.subrange(n, n + 4) == seq![' ', '@', '0', 'x']
                &&& spells(text.subrange(n + 4, text.len() as int), 16, offset as nat)
            }
        },
{
    if c.len() >= 4 {
        law_tag(c, 0, 'U', 'C', 'F', 'X');
    }
    if let Some(body) = data_chunk(c) {
        if let Some((offset, magic, version, _)) = movie_header(body) {
            reveal_strlit(" @0x");
            law_upper_hex(offset as nat);
            let kind = kind_text(magic, version);
            let n = kind.len() as int;
            let text = kind + " @0x"@ + upper_hex(offset as nat);
            assert(text.subrange(0, n) =~= kind);
            assert(text.subrange(n, n + 4) =~= seq![' ', '@', '0', 'x']);
            assert(text.subrange(n + 4, text.len() as int) =~= upper_hex(offset as nat));
        }
    }
}

/// What is reported of an entry: the entry and the type of its type hash.
pub proof fn law_reported_entry(entry: BlockTableEntry)
    ensures
        entry_report(entry).entry == entry,
        entry_report(entry).type_id == type_id_of(entry.type_hash),
{
}

/// Where addresses have 64 bits, every block can be inspected.
pub proof fn law_what_can_be_inspected(b: Seq<u8>)
    requires
        usize::MAX >= 0x10_0000_0000_0000,
    ensures
        inspectable(b),
{
    law_what_can_be_located(b, 0);
    assert forall|i: int| #[trigger] has_container(b, i) implies data_chunk_addressable(
        container_of(b, i),
    ) by {
        law_what_can_be_extracted(container_of(b, i));
    }
}

/// Reports are told field by field.
pub proof fn law_reports_are_told_as_they_are(
    row: RowReport,
    table: TableReport,
    chunk: ChunkReport,
    container: ContainerReport,
    text: Option<String>,
)
    ensures
        row@.tag == row.tag@,
        row@.offset == row.offset,
        row@.size == row.size,
        row@.body_start == row.body_start,
        row@.movie == text_view(row.movie),
        table@.data_area_off == table.data_area_off,
        table@.n_desc == table.n_desc,
        table@.rows.len() == table.rows@.len(),
        forall|d: int| 0 <= d < table.rows@.len() ==> table@.rows[d] == (#[trigger] table.rows@[d])@,
        chunk@.len == chunk.len,
        chunk@.movie == text_view(chunk.movie),
        chunk@.dump == chunk.dump@,
        container@.len == container.len,
        container@.dump == container.dump@,
        container@.is_ucfx == container.is_ucfx,
        container@.table is Some <==> container.table is Some,
        container.table matches Some(t) ==> container@.table == Some(t@),
        container@.movie == header_view(container.movie),
        container@.chunk is Some <==> container.chunk is Some,
        container.chunk matches Some(k) ==> container@.chunk == Some(k@),
        container@.csum == container.csum,
        text_view(text) is Some <==> text is Some,
        text matches Some(t) ==> text_view(text) == Some(t@),
{
}

} // verus!
