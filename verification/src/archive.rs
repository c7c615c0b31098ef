//! What the tables of an archive say: which assets it lists, which blocks it has.
use vstd::prelude::*;
use vstd::string::StringExecFns;

use crate::asset_types::MOVIE_TYPE_ID;
use crate::checksum::{name_hash, pandemic_hash_m2};
use crate::error::{Error, ErrorView};
use crate::strings::{
    contains, law_lower_case_of_same_text, lower_case, occurs_in, same_but_for_case, to_lowercase,
};
use crate::text::{decimal, law_decimal, push_decimal, spells};

verus! {

/// One row of an archive's asset table.
#[derive(Clone, Copy, Debug, PartialEq, Eq)]
pub struct AsetEntry {
    pub asset_hash: u32,
    pub secondary_ref: u32,
    pub packed_block_ref: u32,
    pub type_id: u32,
}

/// One row of an archive's chunk table.
#[derive(Clone, Copy, Debug, PartialEq, Eq)]
pub struct ChunkRow {
    pub tag: [u8; 4],
    pub offset: u32,
    pub meta: u32,
}

/// An asset that a name was found for.
#[derive(Debug)]
pub struct AssetHit {
    pub block_index: usize,
    pub type_id: u32,
    pub secondary_ref: u32,
    pub path: String,
}

/// A name, its hash and the assets that are listed under it.
#[derive(Debug)]
pub struct AssetQuery {
    pub name: String,
    pub hash: u32,
    pub hits: Vec<AssetHit>,
}

/// An [`AssetHit`] with its path as characters.
pub struct HitView {
    pub block_index: int,
    pub type_id: u32,
    pub secondary_ref: u32,
    pub path: Seq<char>,
}

impl View for AssetHit {
    type V = HitView;

    open spec fn view(&self) -> HitView {
        HitView {
            block_index: self.block_index as int,
            type_id: self.type_id,
            secondary_ref: self.secondary_ref,
            path: self.path@,
        }
    }
}

/// The block that a row points to: the upper half of its block reference.
pub open spec fn block_of(entry: AsetEntry) -> u16 {
    (entry.packed_block_ref / 0x1_0000) as u16
}

/// The first row that lists `hash`.
pub open spec fn asset_listed(aset: Seq<AsetEntry>, hash: u32) -> Option<AsetEntry>
    decreases aset.len(),
{
    if aset.len() == 0 {
        None
    } else if aset[0].asset_hash == hash {
        Some(aset[0])
    } else {
        asset_listed(aset.drop_first(), hash)
    }
}

/// The first chunk that carries `tag`.
pub open spec fn chunk_tagged(rows: Seq<ChunkRow>, tag: Seq<u8>) -> Option<ChunkRow>
    decreases rows.len(),
{
    if rows.len() == 0 {
        None
    } else if rows[0].tag@ == tag {
        Some(rows[0])
    } else {
        chunk_tagged(rows.drop_first(), tag)
    }
}

/// The path of block `index`, empty where none is listed.
pub open spec fn path_of(paths: Seq<String>, index: int) -> Seq<char> {
    if 0 <= index < paths.len() {
        paths[index]@
    } else {
        Seq::empty()
    }
}

/// What is reported of a row.
pub open spec fn hit_of(entry: AsetEntry, paths: Seq<String>) -> HitView {
    HitView {
        block_index: block_of(entry) as int,
        type_id: entry.type_id,
        secondary_ref: entry.secondary_ref,
        path: path_of(paths, block_of(entry) as int),
    }
}

/// What is reported of every row that lists `hash`, in the order of the table.
pub open spec fn hits_of(aset: Seq<AsetEntry>, paths: Seq<String>, hash: u32) -> Seq<HitView>
    decreases aset.len(),
{
    if aset.len() == 0 {
        Seq::empty()
    } else {
        let before = hits_of(aset.drop_last(), paths, hash);
        if aset.last().asset_hash == hash {
            before.push(hit_of(aset.last(), paths))
        } else {
            before
        }
    }
}

/// A block path contains a name, letter case aside.
pub open spec fn path_matches(path: Seq<char>, name: Seq<char>) -> bool {
    occurs_in(lower_case(path), lower_case(name))
}

/// Block `i` is the first whose path contains a name, letter case aside.
pub open spec fn first_match(paths: Seq<String>, name: Seq<char>, i: int) -> bool {
    &&& 0 <= i < paths.len()
    &&& path_matches(paths[i]@, name)
    &&& forall|j: int| 0 <= j < i ==> !path_matches((#[trigger] paths[j])@, name)
}

/// No block path contains a name.
pub open spec fn no_match(paths: Seq<String>, name: Seq<char>) -> bool {
    forall|j: int| 0 <= j < paths.len() ==> !path_matches((#[trigger] paths[j])@, name)
}

/// The title under which a block is shown: its path, or its number where it has no path.
pub open spec fn title_of(paths: Seq<String>, index: int) -> Seq<char> {
    if 0 <= index < paths.len() {
        paths[index]@
    } else {
        "block_"@ + decimal(index as nat)
    }
}

impl AsetEntry {
    /// The block that the row points to.
    pub fn block_index(&self) -> (index: u16)
        ensures
            index == block_of(*self),
    {
        (self.packed_block_ref / 0x1_0000) as u16
    }

    /// Whether the row lists a movie.
    pub fn is_movie(&self) -> (movie: bool)
        ensures
            movie == (self.type_id == MOVIE_TYPE_ID),
    {
        self.type_id == MOVIE_TYPE_ID
    }
}

/// The first chunk that carries `tag`.
pub fn find_chunk(rows: &[ChunkRow], tag: [u8; 4]) -> (found: Option<ChunkRow>)
    ensures
        found == chunk_tagged(rows@, tag@),
{
    let mut i: usize = 0;
    assert(rows@.subrange(0, rows@.len() as int) =~= rows@);
    while i < rows.len()
        invariant
            i <= rows@.len(),
            chunk_tagged(rows@, tag@) == chunk_tagged(
                rows@.subrange(i as int, rows@.len() as int),
                tag@,
            ),
        decreases rows@.len() - i,
    {
        let ghost rest = rows@.subrange(i as int, rows@.len() as int);
        let row: ChunkRow = rows[i];
        if row.tag[0] == tag[0] && row.tag[1] == tag[1] && row.tag[2] == tag[2] && row.tag[3]
            == tag[3] {
            assert(row.tag@ =~= tag@);
            return Some(row);
        }
        assert(rest.drop_first() =~= rows@.subrange(i + 1, rows@.len() as int));
        i = i + 1;
    }
    None
}

/// The checksum words that a patch takes over from the archive it overlays: the offset word of the
/// `CSUM` chunk (0 where it has none) and its meta word.
pub fn archive_csum(rows: &[ChunkRow]) -> (csum: (u32, Option<u32>))
    ensures
        csum == match chunk_tagged(rows@, seq!['C' as u8, 'S' as u8, 'U' as u8, 'M' as u8]) {
            Some(row) => (row.offset, Some(row.meta)),
            None => (0u32, None),
        },
{
    let tag: [u8; 4] = ['C' as u8, 'S' as u8, 'U' as u8, 'M' as u8];
    assert(tag@ =~= seq!['C' as u8, 'S' as u8, 'U' as u8, 'M' as u8]);
    match find_chunk(rows, tag) {
        Some(row) => (row.offset, Some(row.meta)),
        None => (0, None),
    }
}

/// The path of block `index`, empty where none is listed.
pub fn block_path(paths: &[String], index: usize) -> (path: String)
    ensures
        path@ == path_of(paths@, index as int),
{
    if index < paths.len() {
        paths[index].clone()
    } else {
        String::new()
    }
}

/// The title under which block `index` is shown.
pub fn block_title(paths: &[String], index: usize) -> (title: String)
    ensures
        title@ == title_of(paths@, index as int),
{
    if index < paths.len() {
        paths[index].clone()
    } else {
        let mut title = String::new();
        title.append("block_");
        push_decimal(&mut title, index as u64);
        assert(title@ =~= title_of(paths@, index as int));
        title
    }
}

/// The number by which the archive's block table is asked for block `index`, if it is one: block
/// numbers have sixteen bits.
pub fn table_index(index: usize) -> (number: Option<u16>)
    ensures
        match number {
            Some(n) => n == index,
            None => index > 0xFFFF,
        },
{
    if index <= 0xFFFF {
        Some(index as u16)
    } else {
        None
    }
}

/// The first row that lists an asset name.
pub fn find_asset(aset: &[AsetEntry], name: &str) -> (found: Result<AsetEntry, Error>)
    ensures
        match found {
            Ok(entry) => asset_listed(aset@, name_hash(name@)) == Some(entry),
            Err(e) => {
                &&& asset_listed(aset@, name_hash(name@)) is None
                &&& e@ == ErrorView::NotInAset { name: name@, hash: name_hash(name@) }
            },
        },
{
    let hash: u32 = pandemic_hash_m2(name);
    let mut i: usize = 0;
    assert(aset@.subrange(0, aset@.len() as int) =~= aset@);
    while i < aset.len()
        invariant
            i <= aset@.len(),
            asset_listed(aset@, hash) == asset_listed(
                aset@.subrange(i as int, aset@.len() as int),
                hash,
            ),
            hash == name_hash(name@),
        decreases aset@.len() - i,
    {
        let ghost rest = aset@.subrange(i as int, aset@.len() as int);
        if aset[i].asset_hash == hash {
            return Ok(aset[i]);
        }
        assert(rest.drop_first() =~= aset@.subrange(i + 1, aset@.len() as int));
        i = i + 1;
    }
    Err(Error::NotInAset { name: name.to_owned(), hash })
}

/// Every asset that is listed under `hash`, in the order of the table.
pub fn hits(aset: &[AsetEntry], paths: &[String], hash: u32) -> (found: Vec<AssetHit>)
    ensures
        found@.map_values(|hit: AssetHit| hit@) == hits_of(aset@, paths@, hash),
{
    let mut found: Vec<AssetHit> = Vec::new();
    let mut i: usize = 0;
    assert(found@.map_values(|hit: AssetHit| hit@) =~= Seq::empty());
    while i < aset.len()
        invariant
            i <= aset@.len(),
            found@.map_values(|hit: AssetHit| hit@) == hits_of(
                aset@.subrange(0, i as int),
                paths@,
                hash,
            ),
        decreases aset@.len() - i,
    {
        let ghost next = aset@.subrange(0, i + 1);
        let ghost before = found@;
        assert(next.drop_last() =~= aset@.subrange(0, i as int));
        if aset[i].asset_hash == hash {
            let block_index: usize = aset[i].block_index() as usize;
            let hit = AssetHit {
                block_index,
                type_id: aset[i].type_id,
                secondary_ref: aset[i].secondary_ref,
                path: block_path(paths, block_index),
            };
            found.push(hit);
            proof {
                assert(hit@ == hit_of(next.last(), paths@));
                assert(found@.map_values(|hit: AssetHit| hit@) =~= before.map_values(
                    |hit: AssetHit| hit@,
                ).push(hit@));
            }
        }
        i = i + 1;
    }
    assert(aset@.subrange(0, aset@.len() as int) =~= aset@);
    found
}

/// The first row that lists `hash` is the first among all rows but the last, or else the last.
proof fn lemma_asset_listed_last(aset: Seq<AsetEntry>, hash: u32)
    requires
        aset.len() > 0,
    ensures
        asset_listed(aset, hash) == match asset_listed(aset.drop_last(), hash) {
            Some(entry) => Some(entry),
            None => if aset.last().asset_hash == hash {
                Some(aset.last())
            } else {
                None
            },
        },
    decreases aset.len(),
{
    let rest = aset.drop_first();
    if aset.len() == 1 {
        assert(asset_listed(rest, hash) is None);
    } else if aset[0].asset_hash != hash {
        lemma_asset_listed_last(rest, hash);
        assert(rest.drop_last() =~= aset.drop_last().drop_first());
    }
}

/// A search lists an asset exactly where the asset can be located, and lists first the row by which
/// it is located.
pub proof fn law_search_agrees_with_location(
    aset: Seq<AsetEntry>,
    paths: Seq<String>,
    hash: u32,
)
    ensures
        match asset_listed(aset, hash) {
            Some(entry) => {
                &&& entry.asset_hash == hash
                &&& hits_of(aset, paths, hash).len() > 0
                &&& hits_of(aset, paths, hash)[0] == hit_of(entry, paths)
            },
            None => hits_of(aset, paths, hash).len() == 0,
        },
    decreases aset.len(),
{
    if aset.len() > 0 {
        law_search_agrees_with_location(aset.drop_last(), paths, hash);
        lemma_asset_listed_last(aset, hash);
    }
}

/// Resolve asset names and look each of them up in the asset table.
pub fn find_assets(aset: &[AsetEntry], paths: &[String], names: &[String]) -> (queries: Vec<
    AssetQuery,
>)
    ensures
        queries@.len() == names@.len(),
        forall|i: int|
            #![trigger queries@[i]]
            0 <= i < names@.len() ==> {
                &&& queries@[i].name@ == names@[i]@
                &&& queries@[i].hash == name_hash(names@[i]@)
                &&& queries@[i].hits@.map_values(|hit: AssetHit| hit@) == hits_of(
                    aset@,
                    paths@,
                    name_hash(names@[i]@),
                )
            },
{
    let mut queries: Vec<AssetQuery> = Vec::new();
    let mut k: usize = 0;
    while k < names.len()
        invariant
            k <= names@.len(),
            queries@.len() == k,
            forall|i: int|
                #![trigger queries@[i]]
                0 <= i < k ==> {
                    &&& queries@[i].name@ == names@[i]@
                    &&& queries@[i].hash == name_hash(names@[i]@)
                    &&& queries@[i].hits@.map_values(|hit: AssetHit| hit@) == hits_of(
                        aset@,
                        paths@,
                        name_hash(names@[i]@),
                    )
                },
        decreases names@.len() - k,
    {
        let hash: u32 = pandemic_hash_m2(names[k].as_str());
        let found: Vec<AssetHit> = hits(aset, paths, hash);
        queries.push(AssetQuery { name: names[k].clone(), hash, hits: found });
        k = k + 1;
    }
    queries
}

/// The first of some lower-case paths that contains a lower-case name.
pub fn first_containing(lowered: &[String], part: &str) -> (found: Option<usize>)
    ensures
        match found {
            Some(i) => {
                &&& i < lowered@.len()
                &&& occurs_in(lowered@[i as int]@, part@)
                &&& forall|j: int| 0 <= j < i ==> !occurs_in((#[trigger] lowered@[j])@, part@)
            },
            None => forall|j: int|
                0 <= j < lowered@.len() ==> !occurs_in((#[trigger] lowered@[j])@, part@),
        },
{
    let mut i: usize = 0;
    while i < lowered.len()
        invariant
            i <= lowered@.len(),
            forall|j: int| 0 <= j < i ==> !occurs_in((#[trigger] lowered@[j])@, part@),
        decreases lowered@.len() - i,
    {
        if contains(lowered[i].as_str(), part) {
            return Some(i);
        }
        i = i + 1;
    }
    None
}

/// The case of ASCII letters, in the name or in a path, does not matter for which block a name
/// chooses.
pub proof fn law_case_does_not_matter(
    paths: Seq<String>,
    name: Seq<char>,
    other_paths: Seq<String>,
    other_name: Seq<char>,
)
    requires
        paths.len() == other_paths.len(),
        forall|i: int|
            0 <= i < paths.len() ==> same_but_for_case(
                (#[trigger] paths[i])@,
                other_paths[i]@,
            ),
        same_but_for_case(name, other_name),
    ensures
        forall|i: int| first_match(paths, name, i) <==> first_match(other_paths, other_name, i),
        no_match(paths, name) <==> no_match(other_paths, other_name),
{
    assert forall|i: int| 0 <= i < paths.len() implies path_matches((#[trigger] paths[i])@, name)
        == path_matches(other_paths[i]@, other_name) by {
        law_lower_case_of_same_text(paths[i]@, other_paths[i]@);
        law_lower_case_of_same_text(name, other_name);
    }
    assert forall|i: int| first_match(paths, name, i) == first_match(
        other_paths,
        other_name,
        i,
    ) by {
        if first_match(other_paths, other_name, i) {
            assert forall|j: int| 0 <= j < i implies !path_matches((#[trigger] paths[j])@, name) by {
                assert(!path_matches(other_paths[j]@, other_name));
            }
        }
        if first_match(paths, name, i) {
            assert forall|j: int| 0 <= j < i implies !path_matches(
                (#[trigger] other_paths[j])@,
                other_name,
            ) by {
                assert(!path_matches(paths[j]@, name));
            }
        }
    }
    if no_match(other_paths, other_name) {
        assert forall|j: int| 0 <= j < paths.len() implies !path_matches(
            (#[trigger] paths[j])@,
            name,
        ) by {
            assert(!path_matches(other_paths[j]@, other_name));
        }
    }
    if no_match(paths, name) {
        assert forall|j: int| 0 <= j < paths.len() implies !path_matches(
            (#[trigger] other_paths[j])@,
            other_name,
        ) by {
            assert(!path_matches(paths[j]@, name));
        }
    }
}

/// Choose a block: the index if one is given, else the first block whose path contains the name,
/// letter case aside.
pub fn resolve_block(paths: &[String], idx: Option<usize>, name: Option<&str>) -> (chosen: Result<
    usize,
    Error,
>)
    ensures
        match (idx, name) {
            (Some(i), _) => chosen == Ok::<usize, Error>(i),
            (None, Some(n)) => match chosen {
                Ok(i) => first_match(paths@, n@, i as int),
                Err(e) => no_match(paths@, n@) && e@ == ErrorView::NoSuchPath(n@),
            },
            (None, None) => chosen matches Err(e) && e@ == ErrorView::NoTarget,
        },
{
    if let Some(i) = idx {
        return Ok(i);
    }
    if let Some(n) = name {
        let part: String = to_lowercase(n);
        let mut lowered: Vec<String> = Vec::new();
        let mut k: usize = 0;
        while k < paths.len()
            invariant
                k <= paths@.len(),
                lowered@.len() == k,
                forall|j: int|
                    0 <= j < k ==> (#[trigger] lowered@[j])@ == lower_case(paths@[j]@),
            decreases paths@.len() - k,
        {
            lowered.push(to_lowercase(paths[k].as_str()));
            k = k + 1;
        }
        let found: Option<usize> = first_containing(lowered.as_slice(), part.as_str());
        proof {
            assert forall|j: int| 0 <= j < paths@.len() implies path_matches(
                (#[trigger] paths@[j])@,
                n@,
            ) == occurs_in(lowered@[j]@, part@) by {}
        }
        return match found {
            Some(i) => Ok(i),
            None => Err(Error::NoSuchPath(n.to_owned())),
        };
    }
    Err(Error::NoTarget)
}

/// A block reference is the number of the block and sixteen bits more.
pub proof fn law_block_of(entry: AsetEntry)
    ensures
        entry.packed_block_ref == block_of(entry) * 65536 + entry.packed_block_ref % 65536,
{
}

/// A tag is looked up to the first row that carries it, whatever stands around that row.
pub proof fn law_first_tagged_chunk(rows: Seq<ChunkRow>, tag: Seq<u8>, i: int)
    requires
        0 <= i < rows.len(),
        rows[i].tag@ == tag,
        forall|j: int| 0 <= j < i ==> (#[trigger] rows[j]).tag@ != tag,
    ensures
        chunk_tagged(rows, tag) == Some(rows[i]),
    decreases i,
{
    if i > 0 {
        assert(rows[0].tag@ != tag);
        let rest = rows.drop_first();
        assert forall|j: int| 0 <= j < i - 1 implies (#[trigger] rest[j]).tag@ != tag by {
            assert(rest[j] == rows[j + 1]);
        }
        law_first_tagged_chunk(rest, tag, i - 1);
    }
}

/// A tag is looked up in vain exactly where no row carries it.
pub proof fn law_missing_chunk(rows: Seq<ChunkRow>, tag: Seq<u8>)
    ensures
        chunk_tagged(rows, tag) is None <==> forall|j: int|
            0 <= j < rows.len() ==> (#[trigger] rows[j]).tag@ != tag,
    decreases rows.len(),
{
    if rows.len() > 0 {
        let rest = rows.drop_first();
        law_missing_chunk(rest, tag);
        if rows[0].tag@ != tag {
            if forall|j: int| 0 <= j < rest.len() ==> (#[trigger] rest[j]).tag@ != tag {
                assert forall|j: int| 0 <= j < rows.len() implies (#[trigger] rows[j]).tag@
                    != tag by {
                    if j > 0 {
                        assert(rest[j - 1] == rows[j]);
                    }
                }
            } else {
                let j = choose|j: int| 0 <= j < rest.len() && (#[trigger] rest[j]).tag@ == tag;
                assert(rows[j + 1].tag@ == tag);
            }
        }
    }
}

/// A name hash is looked up to the first row that lists it.
pub proof fn law_first_listing(rows: Seq<AsetEntry>, hash: u32, i: int)
    requires
        0 <= i < rows.len(),
        rows[i].asset_hash == hash,
        forall|j: int| 0 <= j < i ==> (#[trigger] rows[j]).asset_hash != hash,
    ensures
        asset_listed(rows, hash) == Some(rows[i]),
    decreases i,
{
    if i > 0 {
        assert(rows[0].asset_hash != hash);
        let rest = rows.drop_first();
        assert forall|j: int| 0 <= j < i - 1 implies (#[trigger] rest[j]).asset_hash != hash by {
            assert(rest[j] == rows[j + 1]);
        }
        law_first_listing(rest, hash, i - 1);
    }
}

/// A name hash is looked up in vain exactly where no row lists it.
pub proof fn law_missing_asset(rows: Seq<AsetEntry>, hash: u32)
    ensures
        asset_listed(rows, hash) is None <==> forall|j: int|
            0 <= j < rows.len() ==> (#[trigger] rows[j]).asset_hash != hash,
    decreases rows.len(),
{
    if rows.len() > 0 {
        let rest = rows.drop_first();
        law_missing_asset(rest, hash);
        if rows[0].asset_hash != hash {
            if forall|j: int| 0 <= j < rest.len() ==> (#[trigger] rest[j]).asset_hash != hash {
                assert forall|j: int| 0 <= j < rows.len() implies (#[trigger] rows[j]).asset_hash
                    != hash by {
                    if j > 0 {
                        assert(rest[j - 1] == rows[j]);
                    }
                }
            } else {
                let j = choose|j: int| 0 <= j < rest.len() && (#[trigger] rest[j]).asset_hash == hash;
                assert(rows[j + 1].asset_hash == hash);
            }
        }
    }
}

/// What is found for a name hash are the rows that list it, all of them and in their order, each with
/// its own words: the block in the upper half of its reference, its type, its secondary reference,
/// and the path of that block.
pub proof fn law_hits_are_the_listings(aset: Seq<AsetEntry>, paths: Seq<String>, hash: u32)
    ensures
        hits_of(aset, paths, hash) == aset.filter(
            |row: AsetEntry| row.asset_hash == hash,
        ).map_values(
            |row: AsetEntry|
                HitView {
                    block_index: row.packed_block_ref as int / 65536,
                    type_id: row.type_id,
                    secondary_ref: row.secondary_ref,
                    path: if row.packed_block_ref as int / 65536 < paths.len() {
                        paths[row.packed_block_ref as int / 65536]@
                    } else {
                        ""@
                    },
                },
        ),
    decreases aset.len(),
{
    reveal(Seq::filter);
    reveal_strlit("");
    assert(""@ =~= Seq::empty());
    let listed = |row: AsetEntry| row.asset_hash == hash;
    let told = |row: AsetEntry|
        HitView {
            block_index: row.packed_block_ref as int / 65536,
            type_id: row.type_id,
            secondary_ref: row.secondary_ref,
            path: if row.packed_block_ref as int / 65536 < paths.len() {
                paths[row.packed_block_ref as int / 65536]@
            } else {
                ""@
            },
        };
    if aset.len() > 0 {
        law_hits_are_the_listings(aset.drop_last(), paths, hash);
        let before = aset.drop_last().filter(listed);
        if aset.last().asset_hash == hash {
            assert(told(aset.last()) == hit_of(aset.last(), paths));
            assert(before.push(aset.last()).map_values(told) =~= before.map_values(told).push(
                told(aset.last()),
            ));
        }
        assert(hits_of(aset, paths, hash) =~= aset.filter(listed).map_values(told));
    } else {
        assert(hits_of(aset, paths, hash) =~= aset.filter(listed).map_values(told));
    }
}

/// Row `k`, where it lists a name hash, is found at the place that is the number of rows before it
/// that list it too, with its own words.
pub proof fn law_hit_of_row(aset: Seq<AsetEntry>, paths: Seq<String>, hash: u32, k: int)
    requires
        0 <= k < aset.len(),
        aset[k].asset_hash == hash,
    ensures
        ({
            let place = aset.take(k).filter(|row: AsetEntry| row.asset_hash == hash).len() as int;
            let hits = hits_of(aset, paths, hash);
            &&& place < hits.len()
            &&& hits[place].block_index == aset[k].packed_block_ref as int / 65536
            &&& hits[place].type_id == aset[k].type_id
            &&& hits[place].secondary_ref == aset[k].secondary_ref
            &&& hits[place].block_index < paths.len() ==> hits[place].path
                == paths[hits[place].block_index]@
            &&& hits[place].block_index >= paths.len() ==> hits[place].path.len() == 0
        }),
    decreases aset.len(),
{
    let listed = |row: AsetEntry| row.asset_hash == hash;
    if k < aset.len() - 1 {
        law_hit_of_row(aset.drop_last(), paths, hash, k);
        assert(aset.drop_last().take(k) =~= aset.take(k));
    } else {
        assert(aset.take(k) =~= aset.drop_last());
        law_hits_are_the_listings(aset.drop_last(), paths, hash);
    }
}

/// A block has its own path; one without a path is called by its number.
pub proof fn law_path_and_title(paths: Seq<String>, index: int)
    requires
        index >= 0,
    ensures
        index < paths.len() ==> path_of(paths, index) == paths[index]@ && title_of(paths, index)
            == paths[index]@,
        index >= paths.len() ==> {
            let title = title_of(paths, index);
            &&& path_of(paths, index).len() == 0
            &&& title.len() > 6
            &&& title.subrange(0, 6) == seq!['b', 'l', 'o', 'c', 'k', '_']
            &&& spells(title.subrange(6, title.len() as int), 10, index as nat)
        },
{
    if index >= paths.len() {
        reveal_strlit("block_");
        law_decimal(index as nat);
        let title = title_of(paths, index);
        assert(title.subrange(0, 6) =~= seq!['b', 'l', 'o', 'c', 'k', '_']);
        assert(title.subrange(6, title.len() as int) =~= decimal(index as nat));
    }
}

/// A path matches exactly where its lower-case form is that of the name with something, or nothing,
/// before and behind it.
pub proof fn law_path_matches(path: Seq<char>, name: Seq<char>)
    ensures
        path_matches(path, name) <==> exists|before: Seq<char>, after: Seq<char>|
            lower_case(path) == #[trigger] (before + lower_case(name) + after),
{
    let text = lower_case(path);
    let part = lower_case(name);
    if path_matches(path, name) {
        let i = choose|i: int|
            0 <= i && i + part.len() <= text.len() && #[trigger] text.subrange(i, i + part.len())
                == part;
        let before = text.subrange(0, i);
        let after = text.subrange(i + part.len(), text.len() as int);
        assert(text =~= before + text.subrange(i, i + part.len()) + after);
    }
    if exists|before: Seq<char>, after: Seq<char>| text == #[trigger] (before + part + after) {
        let (before, after) = choose|before: Seq<char>, after: Seq<char>|
            text == #[trigger] (before + part + after);
        let i = before.len() as int;
        assert(text.subrange(i, i + part.len()) =~= part);
    }
}

/// Where some path matches, a block is chosen: one that matches, and no later one than any other that
/// matches. Where none does, none is chosen.
pub proof fn law_a_match_is_chosen(paths: Seq<String>, name: Seq<char>, k: int)
    requires
        0 <= k < paths.len(),
    ensures
        path_matches(paths[k]@, name) ==> !no_match(paths, name) && exists|i: int|
            i <= k && #[trigger] first_match(paths, name, i),
        first_match(paths, name, k) ==> path_matches(paths[k]@, name),
        forall|i: int|
            #[trigger] first_match(paths, name, i) && path_matches(paths[k]@, name) ==> i <= k,
        no_match(paths, name) ==> !path_matches(paths[k]@, name),
{
    if path_matches(paths[k]@, name) {
        lemma_some_match_is_first(paths, name, k);
    }
}

proof fn lemma_some_match_is_first(paths: Seq<String>, name: Seq<char>, k: int)
    requires
        0 <= k < paths.len(),
        path_matches(paths[k]@, name),
    ensures
        exists|i: int| i <= k && #[trigger] first_match(paths, name, i),
    decreases k,
{
    if exists|j: int| 0 <= j < k && path_matches((#[trigger] paths[j])@, name) {
        let j = choose|j: int| 0 <= j < k && path_matches((#[trigger] paths[j])@, name);
        lemma_some_match_is_first(paths, name, j);
    } else {
        assert(first_match(paths, name, k));
    }
}

/// A hit is told field by field.
pub proof fn law_hit_is_told_as_it_is(hit: AssetHit)
    ensures
        hit@.block_index == hit.block_index,
        hit@.type_id == hit.type_id,
        hit@.secondary_ref == hit.secondary_ref,
        hit@.path == hit.path@,
{
}

} // verus!
