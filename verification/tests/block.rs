use gfx_tool::archive::AsetEntry;
use gfx_tool::block::{build_block, can_locate, can_walk, locate_movie};

fn asset(asset_hash: u32) -> AsetEntry {
    AsetEntry { asset_hash, secondary_ref: 0x5555_6666, packed_block_ref: 0x0002_FFFF, type_id: 23 }
}

fn table(entries: &[[u32; 4]], rest: &[u8]) -> Vec<u8> {
    let mut block = (entries.len() as u32).to_le_bytes().to_vec();
    for entry in entries {
        for word in entry {
            block.extend_from_slice(&word.to_le_bytes());
        }
    }
    block.extend_from_slice(rest);
    block
}

#[test]
fn builds_a_block_of_one_entry() {
    let block = build_block(0x71A7_0B2A, 0xFE0E_8320, 3, b"xyz");
    assert_eq!(block, table(&[[0x71A7_0B2A, 0xFE0E_8320, 3, 3]], b"xyz"));
}

#[test]
fn locates_the_first_entry_of_a_name() {
    let block = table(
        &[[10, 20, 30, 2], [11, 21, 31, 3], [11, 22, 32, 1]],
        b"aabbbc",
    );
    let paths = ["p0".to_string(), "p1".to_string(), "p2".to_string()];
    assert!(can_locate(&block, 11));
    let loc = locate_movie(&block, &asset(11), &paths).unwrap();
    assert_eq!(loc.block_index, 2);
    assert_eq!(loc.name_hash, 11);
    assert_eq!(loc.type_hash, 21);
    assert_eq!(loc.field_c, 31);
    assert_eq!(loc.secondary_ref, 0x5555_6666);
    assert_eq!(loc.type_id, 23);
    assert_eq!(loc.container, b"bbb");
    assert_eq!(loc.block_path, "p2");
    let loc = locate_movie(&block, &asset(10), &[]).unwrap();
    assert_eq!(loc.container, b"aa");
    assert_eq!(loc.block_path, "");
}

#[test]
fn missing_entries_are_refused() {
    let block = table(&[[10, 20, 30, 2]], b"aa");
    let e = locate_movie(&block, &asset(0xBEEF), &[]).unwrap_err();
    assert_eq!(e.message(), "0x0000BEEF not found in block 2 entry table");
    assert!(locate_movie(b"", &asset(10), &[]).is_err());
}

#[test]
fn entries_without_their_container_cannot_be_located() {
    let block = table(&[[10, 20, 30, 2], [11, 21, 31, 3]], b"aabb");
    assert!(can_walk(&block));
    assert!(can_locate(&block, 10));
    assert!(!can_locate(&block, 11));
    assert!(can_locate(&block, 12));
}

#[test]
fn locates_in_a_built_block() {
    let block = build_block(0x71A7_0B2A, 0xFE0E_8320, 3, b"container");
    let loc = locate_movie(&block, &asset(0x71A7_0B2A), &[]).unwrap();
    assert_eq!(loc.type_hash, 0xFE0E_8320);
    assert_eq!(loc.field_c, 3);
    assert_eq!(loc.container, b"container");
}
