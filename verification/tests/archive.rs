use gfx_tool::archive::{
    archive_csum, block_path, block_title, find_asset, find_assets, find_chunk, first_containing,
    resolve_block, table_index, AsetEntry, ChunkRow,
};
use gfx_tool::error::Error;

const MINIMAP: u32 = 0x71A7_0B2A;

fn paths() -> Vec<String> {
    vec![
        "blocks\\VZ\\loadingscreen_P000_Q3.block".to_string(),
        "blocks\\VZ\\Minimap_P000_Q3.block".to_string(),
        "blocks\\VZ\\minimap_P001_Q3.block".to_string(),
    ]
}

fn row(asset_hash: u32, block: u32, type_id: u32) -> AsetEntry {
    AsetEntry { asset_hash, secondary_ref: 0xABCD_0000 + block, packed_block_ref: block << 16 | 0xFFFF, type_id }
}

#[test]
fn asset_names_are_hashed_without_extension() {
    let aset = [row(1, 0, 27), row(MINIMAP, 1, 23), row(MINIMAP, 2, 27)];
    let found = find_asset(&aset, "minimap").unwrap();
    assert_eq!(found, aset[1]);
    assert_eq!(found.block_index(), 1);
    assert!(found.is_movie());
    assert!(!aset[2].is_movie());
    assert!(find_asset(&aset, "minimap.gfx").is_err());
    assert_eq!(find_asset(&aset, "MiniMap").unwrap(), aset[1]);
}

#[test]
fn unknown_assets_are_refused() {
    let e = find_asset(&[], "minimap").unwrap_err();
    assert_eq!(e.message(), "'minimap' (0x71A70B2A) not in this WAD's ASET");
    let e = find_asset(&[row(1, 0, 23)], "").unwrap_err();
    assert_eq!(e.message(), "'' (0x00000000) not in this WAD's ASET");
}

#[test]
fn finds_every_listing_of_every_name() {
    let aset = [row(MINIMAP, 1, 23), row(7, 0, 27), row(MINIMAP, 9, 27)];
    let names = ["minimap".to_string(), "hud".to_string()];
    let queries = find_assets(&aset, &paths(), &names);
    assert_eq!(queries.len(), 2);
    assert_eq!(queries[0].name, "minimap");
    assert_eq!(queries[0].hash, MINIMAP);
    assert_eq!(queries[0].hits.len(), 2);
    assert_eq!(queries[0].hits[0].block_index, 1);
    assert_eq!(queries[0].hits[0].type_id, 23);
    assert_eq!(queries[0].hits[0].secondary_ref, 0xABCD_0001);
    assert_eq!(queries[0].hits[0].path, "blocks\\VZ\\Minimap_P000_Q3.block");
    assert_eq!(queries[0].hits[1].block_index, 9);
    assert_eq!(queries[0].hits[1].path, "");
    assert_eq!(queries[1].name, "hud");
    assert!(queries[1].hits.is_empty());
}

#[test]
fn an_index_wins_over_a_name() {
    assert_eq!(resolve_block(&paths(), Some(77), Some("minimap")).unwrap(), 77);
    assert_eq!(resolve_block(&[], Some(0), None).unwrap(), 0);
}

#[test]
fn a_name_picks_the_first_path_that_contains_it() {
    assert_eq!(resolve_block(&paths(), None, Some("MINIMAP")).unwrap(), 1);
    assert_eq!(resolve_block(&paths(), None, Some("p001")).unwrap(), 2);
    assert_eq!(resolve_block(&paths(), None, Some("")).unwrap(), 0);
    let umlaut = ["GR\u{DC}N".to_string()];
    assert_eq!(resolve_block(&umlaut, None, Some("gr\u{FC}n")).unwrap(), 0);
}

#[test]
fn unknown_blocks_are_refused() {
    let e = resolve_block(&paths(), None, Some("HUD")).unwrap_err();
    assert_eq!(e.message(), "no block path contains 'HUD'");
    let e = resolve_block(&paths(), None, None).unwrap_err();
    assert_eq!(e.message(), "need --block-index or --block-name");
}

#[test]
fn searching_given_texts() {
    let texts = ["abc".to_string(), "xbcx".to_string()];
    assert_eq!(first_containing(&texts, "bc"), Some(0));
    assert_eq!(first_containing(&texts, "bcx"), Some(1));
    assert_eq!(first_containing(&texts, "ac"), None);
    assert_eq!(first_containing(&[], ""), None);
}

#[test]
fn blocks_have_paths_and_titles() {
    assert_eq!(block_path(&paths(), 0), "blocks\\VZ\\loadingscreen_P000_Q3.block");
    assert_eq!(block_path(&paths(), 3), "");
    assert_eq!(block_title(&paths(), 2), "blocks\\VZ\\minimap_P001_Q3.block");
    assert_eq!(block_title(&paths(), 305), "block_305");
}

#[test]
fn block_numbers_have_sixteen_bits() {
    assert_eq!(table_index(11_369), Some(11_369));
    assert_eq!(table_index(0xFFFF), Some(0xFFFF));
    assert_eq!(table_index(0x1_0000), None);
    assert_eq!(table_index(0x1_0005), None);
}

#[test]
fn a_patch_takes_over_the_checksum_words() {
    let rows = [
        ChunkRow { tag: *b"INDX", offset: 1, meta: 2 },
        ChunkRow { tag: *b"CSUM", offset: 3, meta: 4 },
        ChunkRow { tag: *b"CSUM", offset: 5, meta: 6 },
    ];
    assert_eq!(archive_csum(&rows), (3, Some(4)));
    assert_eq!(archive_csum(&rows[..1]), (0, None));
    assert_eq!(find_chunk(&rows, *b"INDX"), Some(rows[0]));
    assert_eq!(find_chunk(&rows, *b"PTHS"), None);
}

#[test]
fn compression_errors_are_named() {
    assert_eq!(Error::Sges("no data".to_string()).message(), "sges: no data");
}

#[test]
fn the_first_listing_is_the_one_that_is_located() {
    let aset = [row(7, 0, 27), row(MINIMAP, 2, 27), row(MINIMAP, 1, 23)];
    let located = find_asset(&aset, "minimap").unwrap();
    let queries = find_assets(&aset, &paths(), &["minimap".to_string()]);
    assert_eq!(queries[0].hits[0].block_index, located.block_index() as usize);
    assert_eq!(queries[0].hits[0].type_id, located.type_id);
    assert_eq!(queries[0].hits[0].secondary_ref, located.secondary_ref);
}

#[test]
fn the_case_of_ascii_letters_does_not_matter() {
    let swapped: Vec<String> = paths()
        .iter()
        .map(|p| p.chars().map(|c| if c.is_ascii_uppercase() { c.to_ascii_lowercase() } else { c.to_ascii_uppercase() }).collect())
        .collect();
    for name in ["minimap", "LoadingScreen", "q3.BLOCK", "[p000", "hud"] {
        let chosen = resolve_block(&paths(), None, Some(name)).ok();
        assert_eq!(resolve_block(&paths(), None, Some(&name.to_ascii_uppercase())).ok(), chosen);
        assert_eq!(resolve_block(&swapped, None, Some(name)).ok(), chosen);
    }
}

#[test]
fn the_case_of_ascii_letters_does_not_matter_among_other_letters() {
    let path = "blocks\\\u{39F}\u{394}\u{3A3}\\A\u{3A3}b\u{3A3}\\GR\u{DC}N_P000.block";
    let lists = [path.to_string(), path.to_ascii_lowercase(), path.to_ascii_uppercase()];
    for name in ["gr\u{FC}n_p", "\u{3BF}\u{3B4}\u{3C2}\\", "a\u{3C3}b\u{3C2}\\", "\u{3A3}B", "p000", "x"] {
        let chosen = resolve_block(&lists[..1], None, Some(name)).ok();
        assert_eq!(chosen.is_some(), name != "x");
        for list in &lists {
            for same in [name.to_string(), name.to_ascii_uppercase()] {
                assert_eq!(resolve_block(&[list.clone()], None, Some(&same)).ok(), chosen);
            }
        }
    }
}
