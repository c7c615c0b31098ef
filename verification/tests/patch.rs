use gfx_tool::archive::AsetEntry;
use gfx_tool::block::{locate_movie, MovieLoc};
use gfx_tool::container::{container_movie, rebuild_container};
use gfx_tool::inspect::{can_inspect, inspect_block};
use gfx_tool::patch::{
    build_wad, can_build_wad, has_room_for, merge_wad, patch_block, try_merge_wad, wrap_block,
    PatchBlock,
};
use gfx_tool::sges::{can_unpack, unpack_block};
use mercs2_formats::patch_wad::read_patch_wad;

const MINIMAP: u32 = 0x71A7_0B2A;
const PATH: &str = "blocks\\VZ\\minimap_P000_Q3.block";

fn empty_container() -> Vec<u8> {
    let mut c = b"UCFX".to_vec();
    for word in [0x28u32, 0, 0, 1] {
        c.extend_from_slice(&word.to_le_bytes());
    }
    c.extend_from_slice(b"data");
    c.extend_from_slice(&[0; 16]);
    c.extend_from_slice(b"CSUM\0\0\0\0");
    c
}

fn loc(path: &str) -> MovieLoc {
    MovieLoc {
        block_index: 7,
        name_hash: MINIMAP,
        type_hash: 0xFE0E_8320,
        field_c: 5,
        secondary_ref: 0xFFFF_FFFF,
        type_id: 23,
        container: rebuild_container(&empty_container(), b"CFX\x08\x0C\0\0\0abcd").unwrap(),
        block_path: path.to_string(),
    }
}

fn word(data: &[u8], at: usize) -> u32 {
    u32::from_le_bytes([data[at], data[at + 1], data[at + 2], data[at + 3]])
}

fn text_error(existing: &[u8]) -> String {
    let block = patch_block(&loc(PATH), b"m").unwrap();
    try_merge_wad(existing, &block).unwrap().unwrap_err().message()
}

/// A movie that compresses badly.
fn noise(len: usize) -> Vec<u8> {
    let mut x: u32 = 0x1234_5678;
    let mut data = b"CFX\x08\x00\x10\0\0".to_vec();
    while data.len() < len {
        x ^= x << 13;
        x ^= x >> 17;
        x ^= x << 5;
        data.push(x as u8);
    }
    data
}

#[test]
fn a_patch_block_lists_one_asset() {
    let block = patch_block(&loc(PATH), b"GFX\x06\x09\0\0\0z").unwrap();
    assert_eq!(block.path_string, PATH);
    assert_eq!(block.aset_entries.len(), 1);
    assert_eq!(block.aset_entries[0].asset_hash, MINIMAP);
    assert_eq!(block.aset_entries[0].u32_1, 0xFFFF_FFFF);
    assert_eq!(block.aset_entries[0].u32_2, 0x0000_FFFF);
    assert_eq!(block.aset_entries[0].u32_3, 23);
    assert_eq!(block.flags, 0x8000);
    assert_eq!(block.packed_field, 1);
    assert_eq!(&block.compressed_data[..4], b"sges");
}

#[test]
fn the_page_count_is_that_of_the_uncompressed_block() {
    let overhead = 20 + 40 + 8;
    for (len, count) in [(0, 1), (0x8000 - overhead, 1), (0x8000 - overhead + 1, 2), (100_000, 4)] {
        let block = patch_block(&loc(PATH), &vec![0; len]).unwrap();
        assert_eq!(block.packed_field, count);
    }
    assert_eq!(wrap_block(&loc(PATH), 0, vec![]).packed_field, 0);
    assert_eq!(wrap_block(&loc(PATH), 0x1_0001, vec![9]).packed_field, 3);
    assert_eq!(wrap_block(&loc(PATH), 0x1_0001, vec![9]).compressed_data, [9]);
}

#[test]
fn containers_that_take_no_movie_give_no_patch_block() {
    let mut other = loc(PATH);
    other.container = b"FWS".to_vec();
    assert_eq!(patch_block(&other, b"m").unwrap_err().message(), "original container is not UCFX");
}

#[test]
fn a_patch_gives_back_the_movie() {
    for movie in [b"GFX\x06\x09\0\0\0z".to_vec(), vec![0; 100_000], noise(150_000)] {
        let block = patch_block(&loc(PATH), &movie).unwrap();
        assert!(can_build_wad(&block));
        let wad = build_wad(&block, 0xC5C5_C5C5, Some(77));
        assert_eq!(wad.len() % 0x8000, 0);
        assert_eq!(&wad[..4], b"FFCS");
        assert_eq!(&wad[0x24..0x28], b"CSUM");
        assert_eq!(word(&wad, 0x28), 0xC5C5_C5C5);
        assert_eq!(word(&wad, 0x2C), 77);
        assert_eq!(word(&wad, 0x8000), 65);
        assert_eq!(word(&wad, 0x8004), block.packed_field);
        let asset = AsetEntry {
            asset_hash: word(&wad, 0x800C),
            secondary_ref: word(&wad, 0x8010),
            packed_block_ref: word(&wad, 0x8014),
            type_id: word(&wad, 0x8018),
        };
        assert_eq!(asset.asset_hash, MINIMAP);
        assert_eq!(asset.block_index(), 0);
        assert!(asset.is_movie());
        let data = &wad[0x208000..0x208000 + block.compressed_data.len()];
        assert_eq!(data, block.compressed_data);
        assert!(can_unpack(data));
        let inflated = unpack_block(data).unwrap();
        let found = locate_movie(&inflated, &asset, &[PATH.to_string()]).unwrap();
        assert_eq!(found.block_path, PATH);
        assert_eq!(found.type_hash, 0xFE0E_8320);
        assert_eq!(found.field_c, 5);
        assert_eq!(container_movie(&found.container).unwrap(), movie);
    }
}

#[test]
fn merging_replaces_the_block_of_the_path() {
    let first = patch_block(&loc(PATH), b"first").unwrap();
    let second = patch_block(&loc(PATH), b"second movie").unwrap();
    let wad = build_wad(&first, 9, None);
    let merged = merge_wad(&wad, &second).unwrap();
    assert_eq!(merged, build_wad(&second, 9, None));
    assert_eq!(try_merge_wad(&merged, &second).unwrap().unwrap(), merged);
}

#[test]
fn merging_keeps_the_other_blocks() {
    let first = patch_block(&loc(PATH), b"first").unwrap();
    let other = patch_block(&loc("blocks\\Shell\\hud.block"), b"other").unwrap();
    let wad = build_wad(&first, 9, Some(3));
    let merged = try_merge_wad(&wad, &other).unwrap().unwrap();
    let contents = read_patch_wad(&merged).unwrap();
    assert_eq!(contents.csum_value, 9);
    assert_eq!(contents.blocks.len(), 2);
    assert_eq!(contents.blocks[0].path_string, PATH);
    assert_eq!(contents.blocks[1].path_string, "blocks\\Shell\\hud.block");
    assert_eq!(contents.blocks[1].packed_field, 1);
}

#[test]
fn other_files_cannot_be_merged_into() {
    assert_eq!(text_error(b""), "Not an FFCS WAD");
    let mut bytes = vec![0; 0x48];
    bytes[..4].copy_from_slice(b"FFCS");
    assert_eq!(text_error(&bytes), "missing INDX");
    bytes[12..16].copy_from_slice(b"INDX");
    assert_eq!(text_error(&bytes), "missing ASET");
    bytes[24..28].copy_from_slice(b"ASET");
    assert_eq!(text_error(&bytes), "missing PTHS");
    bytes[36..40].copy_from_slice(b"PTHS");
    let block = patch_block(&loc(PATH), b"m").unwrap();
    assert_eq!(try_merge_wad(&bytes, &block).unwrap().unwrap(), build_wad(&block, 0, None));
}

#[test]
fn damaged_patches_are_not_merged_into() {
    let block = patch_block(&loc(PATH), b"m").unwrap();
    let wad = build_wad(&block, 0, None);
    for at in [0x14, 0x38, 0x40] {
        let mut damaged = wad.clone();
        damaged[at + 3] = 0x7F;
        assert!(try_merge_wad(&damaged, &block).is_none());
    }
    let mut damaged = wad.clone();
    damaged[0x8003] = 0x7F;
    assert!(try_merge_wad(&damaged, &block).is_none());
}

#[test]
fn paths_have_to_fit_in_the_patch() {
    let tables = 0x8000 + 12 + 16 + 1 + 259;
    let long = |len: usize| {
        let mut block = patch_block(&loc(PATH), b"m").unwrap();
        block.path_string = "p".repeat(len);
        block
    };
    let room = 66 * 0x8000 - tables;
    assert!(can_build_wad(&long(room)));
    assert!(!can_build_wad(&long(room + 1)));
    assert_eq!(build_wad(&long(room), 0, None).len(), 66 * 0x8000);
    let small = build_wad(&patch_block(&loc("q"), b"m").unwrap(), 0, None);
    assert!(try_merge_wad(&small, &long(room + 0x8000)).is_none());
    assert!(try_merge_wad(&small, &long(room + 0x8000 - 12 - 16 - 2)).is_some());
    let blocks: Vec<PatchBlock> = vec![patch_block(&loc(PATH), b"m").unwrap()];
    assert!(has_room_for(&blocks, &blocks[0]));
    assert!(!has_room_for(&blocks, &long(room + 0x8000)));
}

/// The movie that block `i` of a patch gives.
fn movie_in_patch(wad: &[u8], i: usize, path: &str) -> Vec<u8> {
    let (indx, aset) = (word(wad, 0x10) as usize, word(wad, 0x34) as usize);
    let row = aset + 16 * i;
    let asset = AsetEntry {
        asset_hash: word(wad, row),
        secondary_ref: word(wad, row + 4),
        packed_block_ref: word(wad, row + 8),
        type_id: word(wad, row + 12),
    };
    assert_eq!(asset.asset_hash, MINIMAP);
    assert_eq!(asset.block_index() as usize, i);
    let start = word(wad, indx + 12 * i) as usize * 0x8000;
    let pages = (word(wad, indx + 12 * i + 8) & 0xFFFF) as usize;
    let block = unpack_block(&wad[start..start + pages * 0x8000]).unwrap();
    let mut paths = vec![String::new(); i];
    paths.push(path.to_string());
    let found = locate_movie(&block, &asset, &paths).unwrap();
    assert_eq!(found.block_path, path);
    container_movie(&found.container).unwrap()
}

#[test]
fn merged_patches_give_back_the_movies() {
    let other = "blocks\\Shell\\hud.block";
    for movie in [b"GFX\x06\x09\0\0\0z".to_vec(), vec![0; 100_000], noise(150_000)] {
        let fresh = build_wad(&patch_block(&loc(PATH), b"first").unwrap(), 9, None);
        let added = merge_wad(&fresh, &patch_block(&loc(other), &movie).unwrap()).unwrap();
        assert_eq!(word(&added, 0x14), 2);
        assert_eq!(movie_in_patch(&added, 0, PATH), b"first");
        assert_eq!(movie_in_patch(&added, 1, other), movie);
        let replaced = merge_wad(&added, &patch_block(&loc(PATH), &movie).unwrap()).unwrap();
        assert_eq!(word(&replaced, 0x14), 2);
        assert_eq!(movie_in_patch(&replaced, 0, PATH), movie);
        assert_eq!(movie_in_patch(&replaced, 1, other), movie);
    }
}

#[test]
fn a_patch_has_a_table_for_each_chunk() {
    let block = patch_block(&loc(PATH), b"m").unwrap();
    let wad = build_wad(&block, 1, Some(2));
    assert_eq!((word(&wad, 4), word(&wad, 8)), (2, 7));
    assert_eq!(&wad[0x0C..0x10], b"INDX");
    assert_eq!((word(&wad, 0x10), word(&wad, 0x14)), (0x8000, 1));
    assert_eq!(&wad[0x18..0x1C], b"DATA");
    assert_eq!(word(&wad, 0x1C), 0x208000);
    assert_eq!(&wad[0x30..0x34], b"ASET");
    assert_eq!((word(&wad, 0x34), word(&wad, 0x38)), (0x800C, 1));
    assert_eq!(&wad[0x3C..0x40], b"PTHS");
    assert_eq!((word(&wad, 0x40), word(&wad, 0x44)), (0x801C, 1));
    assert_eq!(word(&wad, 0x8008), 0x8000_0001);
    assert_eq!(&wad[0x801C..0x801C + PATH.len()], PATH.as_bytes());
    assert_eq!(wad[0x801C + PATH.len()], 0);
}

#[test]
fn the_resident_block_counts_its_assets() {
    let meta = |path: &str| word(&build_wad(&patch_block(&loc(path), b"m").unwrap(), 1, None), 0x2C);
    assert_eq!(meta(PATH), 0);
    assert_eq!(meta("blocks/Shell/Resident_P000_Q3.block"), 1);
    assert_eq!(meta("resident_p000_q3.block"), 0);
}

#[test]
fn other_bytes_cannot_be_unpacked() {
    let text = |stream: &[u8]| {
        assert!(can_unpack(stream));
        unpack_block(stream).unwrap_err().message()
    };
    assert_eq!(text(b"sges"), "sges: Block too small for sges header");
    assert_eq!(text(b"UCFX............"), "sges: Bad sges magic: 55 43 46 58");
    assert_eq!(text(b"sges\x04\0\x01\0........"), "sges: Block too small for segment table");
    assert_eq!(unpack_block(b"sges\x04\0\0\0\0\0\0\0\0\0\0\0").unwrap(), b"");
}

#[test]
fn inspecting_a_patch_shows_one_sound_entry() {
    for movie in [vec![], b"GFX\x06\x09\0\0\0z".to_vec(), noise(150_000)] {
        let wad = build_wad(&patch_block(&loc(PATH), &movie).unwrap(), 9, None);
        let pages = (word(&wad, 0x8008) & 0xFFFF) as usize;
        let block = unpack_block(&wad[0x208000..0x208000 + pages * 0x8000]).unwrap();
        assert!(can_inspect(&block));
        let report = inspect_block(&block, PATH);
        assert_eq!(report.entry_count, 1);
        assert_eq!(report.issue_count, 0);
        assert_eq!(report.entries.len(), 1);
        assert_eq!(report.entries[0].entry.name_hash, MINIMAP);
        assert_eq!(report.entries[0].entry.chunk_size as usize, 0x28 + movie.len() + 8);
        assert_eq!(report.entries[0].type_id, Some(23));
        assert_eq!(report.containers.len(), 1);
        let table = report.containers[0].table.as_ref().unwrap();
        assert_eq!((table.data_area_off, table.n_desc, table.rows.len()), (0x28, 1, 1));
        assert_eq!(table.rows[0].tag, "data");
        assert_eq!(table.rows[0].size as usize, movie.len());
        assert!(report.containers[0].csum.unwrap().matches);
    }
}

#[test]
fn patches_are_read_as_they_were_laid_out() {
    let block = patch_block(&loc(PATH), &noise(150_000)).unwrap();
    let read = &read_patch_wad(&build_wad(&block, 9, None)).unwrap().blocks[0];
    assert_eq!(read.path_string, block.path_string);
    assert_eq!(read.packed_field, block.packed_field);
    assert_eq!(read.flags, block.flags);
    assert_eq!(read.aset_entries.len(), 1);
    assert_eq!(read.aset_entries[0].asset_hash, MINIMAP);
    assert_eq!(read.aset_entries[0].u32_2, 0x0000_FFFF);
    let (long, short) = if read.compressed_data.len() < block.compressed_data.len() {
        (&block.compressed_data, &read.compressed_data)
    } else {
        (&read.compressed_data, &block.compressed_data)
    };
    assert_eq!(&long[..short.len()], &short[..]);
    assert!(long[short.len()..].iter().all(|b| *b == 0));
}
