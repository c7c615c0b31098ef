use gfx_tool::block::{build_block, BlockTableEntry, ParsedBlock, WalkIssue};
use gfx_tool::container::rebuild_container;
use gfx_tool::inspect::{can_inspect, inspect_block, inspect_container, inspect_target, report_block};

fn retail(movie: &[u8]) -> Vec<u8> {
    let mut c = b"UCFX".to_vec();
    for word in [0x28u32, 0, 0, 1] {
        c.extend_from_slice(&word.to_le_bytes());
    }
    c.extend_from_slice(b"data");
    c.extend_from_slice(&[0; 16]);
    c.extend_from_slice(b"CSUM\0\0\0\0");
    rebuild_container(&c, movie).unwrap()
}

const MOVIE: &[u8] = b"CFX\x08\x0C\0\0\0abcd";

#[test]
fn reports_on_a_movie_container() {
    let c = retail(MOVIE);
    let report = inspect_container(&c);
    assert_eq!(report.len, 60);
    assert_eq!(report.dump, "55 43 46 58 28 00 00 00 00 00 00 00 00 00 00 00");
    assert!(report.is_ucfx);
    let table = report.table.unwrap();
    assert_eq!(table.data_area_off, 0x28);
    assert_eq!(table.n_desc, 1);
    assert_eq!(table.rows.len(), 1);
    assert_eq!(table.rows[0].tag, "data");
    assert_eq!(table.rows[0].offset, 0);
    assert_eq!(table.rows[0].size, 12);
    assert_eq!(table.rows[0].body_start, 0x28);
    assert_eq!(table.rows[0].movie.as_deref(), Some("CFX v8"));
    assert_eq!(report.movie, Some((40, "CFX".to_string(), 8, 12)));
    let chunk = report.chunk.unwrap();
    assert_eq!(chunk.len, 12);
    assert_eq!(chunk.movie.as_deref(), Some("CFX v8 @0x0"));
    assert_eq!(chunk.dump, "43 46 58 08 0C 00 00 00 61 62 63 64");
    let csum = report.csum.unwrap();
    assert_eq!(csum.stored, 0xD73F_D1C7);
    assert_eq!(csum.computed, 0xD73F_D1C7);
    assert!(csum.matches);
}

#[test]
fn reports_a_wrong_checksum() {
    let mut c = retail(MOVIE);
    let last = c.len() - 1;
    c[last] ^= 1;
    let csum = inspect_container(&c).csum.unwrap();
    assert_eq!(csum.stored, 0xD63F_D1C7);
    assert_eq!(csum.computed, 0xD73F_D1C7);
    assert!(!csum.matches);
}

#[test]
fn reports_on_other_bytes() {
    let report = inspect_container(b"UCF");
    assert_eq!(report.len, 3);
    assert_eq!(report.dump, "55 43 46");
    assert!(!report.is_ucfx);
    assert!(report.table.is_none());
    assert!(report.movie.is_none());
    assert!(report.chunk.is_none());
    assert!(report.csum.is_none());
    let report = inspect_container(b"UCFX");
    assert!(report.is_ucfx);
    assert!(report.table.is_none());
}

#[test]
fn reports_only_descriptors_that_have_room() {
    let mut c = retail(MOVIE);
    c[16] = 9;
    let table = inspect_container(&c).table.unwrap();
    assert_eq!(table.n_desc, 9);
    assert_eq!(table.rows.len(), 2);
    assert_eq!(table.rows[1].tag, "CFX\u{8}");
    assert!(inspect_container(&c).chunk.is_none());
}

#[test]
fn body_starts_wrap_around() {
    let mut c = retail(MOVIE);
    c[24..28].copy_from_slice(&0xFFFF_FFFEu32.to_le_bytes());
    let row = &inspect_container(&c).table.unwrap().rows[0];
    assert_eq!(row.body_start, 0x26);
    assert_eq!(row.movie, None);
    c[4..8].copy_from_slice(&0u32.to_le_bytes());
    c[24..28].copy_from_slice(&32u32.to_le_bytes());
    let row = &inspect_container(&c).table.unwrap().rows[0];
    assert_eq!(row.body_start, 40);
    assert_eq!(row.movie.as_deref(), Some("CFX v8"));
    c[24..28].copy_from_slice(&[0xFF; 4]);
    let row = &inspect_container(&c).table.unwrap().rows[0];
    assert_eq!(row.body_start, 7);
    assert_eq!(row.movie, None);
}

#[test]
fn reports_on_a_built_block() {
    let block = build_block(0x71A7_0B2A, 0xFE0E_8320, 3, &retail(MOVIE));
    assert!(can_inspect(&block));
    let report = inspect_block(&block, "minimap");
    assert_eq!(report.entry_count, 1);
    assert_eq!(report.entries.len(), 1);
    assert_eq!(report.entries[0].entry.name_hash, 0x71A7_0B2A);
    assert_eq!(report.entries[0].entry.chunk_size, 60);
    assert_eq!(report.entries[0].type_id, Some(23));
    assert_eq!(report.issue_count, 0);
    assert!(report.issues.is_empty());
    assert_eq!(report.containers.len(), 1);
    assert_eq!(report.containers[0].len, 60);
    assert!(report.containers[0].csum.unwrap().matches);
}

#[test]
fn reports_what_looks_wrong() {
    let block = build_block(1, 2, 3, b"too short");
    let report = inspect_block(&block, "odd");
    assert_eq!(report.entries[0].type_id, None);
    assert_eq!(report.issue_count, 1);
    assert_eq!(report.issues[0].context, "odd/entry[0]");
    assert_eq!(report.issues[0].detail, "container too small (9)");
    let report = inspect_block(&block[..25], "cut");
    assert_eq!(report.issue_count, 1);
    assert_eq!(report.entries.len(), 1);
    assert!(report.containers.is_empty());
    let report = inspect_block(b"", "empty");
    assert_eq!(report.entry_count, 0);
    assert_eq!(report.issue_count, 0);
}

#[test]
fn shows_the_first_eight_remarks() {
    let parsed = ParsedBlock { entry_count: 4, entries: vec![], containers: vec![b"UCFX".to_vec()] };
    let mut issues = vec![];
    for i in 0..11 {
        issues.push(WalkIssue { context: format!("c{i}"), detail: "d".to_string() });
    }
    let report = report_block(&parsed, issues);
    assert_eq!(report.entry_count, 4);
    assert_eq!(report.issue_count, 11);
    assert_eq!(report.issues.len(), 8);
    assert_eq!(report.issues[7].context, "c7");
    assert_eq!(report.containers.len(), 1);
    assert!(report.containers[0].is_ucfx);
}

#[test]
fn chooses_the_block_to_inspect() {
    let paths = ["blocks\\a.block".to_string(), "blocks\\Hud.block".to_string()];
    let target = inspect_target(&paths, None, Some("hud")).unwrap();
    assert_eq!(target.index, 1);
    assert_eq!(target.table_index, 1);
    assert_eq!(target.title, "blocks\\Hud.block");
    let target = inspect_target(&paths, Some(0xFFFF), Some("hud")).unwrap();
    assert_eq!(target.index, 0xFFFF);
    assert_eq!(target.table_index, 0xFFFF);
    assert_eq!(target.title, "block_65535");
    let text = |idx, name| inspect_target(&paths, idx, name).unwrap_err().message();
    assert_eq!(text(None, None), "need --block-index or --block-name");
    assert_eq!(text(None, Some("map")), "no block path contains 'map'");
}

#[test]
fn refuses_to_inspect_blocks_that_have_no_number() {
    let mut paths = vec!["a".to_string(); 0x1_0000];
    paths.push("hud".to_string());
    for (idx, name) in [(Some(0x1_0000), None), (Some(0x1_0000), Some("a")), (None, Some("HUD"))] {
        assert_eq!(
            inspect_target(&paths, idx, name).unwrap_err().message(),
            "decompress block 65536: block_index 65536 > 65535"
        );
    }
}

#[test]
fn entries_have_the_types_of_their_hashes() {
    let table = [
        (0xF011_157A, 27),
        (0xBCFE_6314, 28),
        (0x5B72_4250, 19),
        (0x1816_6555, 16),
        (0x600B_904E, 12),
        (0xE6B8_1A54, 9),
        (0x4249_8680, 35),
        (0x6310_807F, 30),
        (0x7C56_9307, 32),
        (0x1602_815C, 22),
        (0x5608_BD5A, 29),
        (0xF753_F6D0, 6),
        (0x665E_F13E, 5),
        (0xE527_3C14, 13),
        (0x9F8B_CA10, 21),
        (0xFE0E_8320, 23),
        (0x1CF6_49BB, 34),
        (0xFA0B_8DBC, 18),
        (0x2073_59C7, 11),
        (0x8F0A_54E2, 3),
        (0x99E7_7ACE, 15),
        (0xDE98_2D61, 14),
        (0x39E5_E978, 7),
        (0x59B9_DF6A, 0),
        (0x4D7D_30C4, 0),
        (0x3461_2F86, 0),
        (0xACCE_47F2, 33),
        (0xC122_545A, 26),
        (0xE8DF_4D87, 4),
        (0xECE7_0371, 31),
        (0xEA48_29D5, 20),
        (0x3B0A_ABF8, 1),
        (0x5647_C35D, 8),
        (0x140E_8728, 10),
        (0xFA46_D8A8, 25),
    ];
    let entry = |type_hash| BlockTableEntry { name_hash: 1, type_hash, field_c: 2, chunk_size: 3 };
    let mut entries: Vec<BlockTableEntry> = table.iter().map(|row| entry(row.0)).collect();
    entries.push(entry(0xDEAD_BEEF));
    let report = report_block(&ParsedBlock { entry_count: 36, entries, containers: vec![] }, vec![]);
    for (i, (type_hash, type_id)) in table.iter().enumerate() {
        assert_eq!(report.entries[i].entry.type_hash, *type_hash);
        assert_eq!(report.entries[i].type_id, Some(*type_id));
    }
    assert_eq!(report.entries[35].type_id, None);
}
