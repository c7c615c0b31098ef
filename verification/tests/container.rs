use gfx_tool::container::{can_extract, can_rebuild, container_movie, rebuild_container};

/// A movie container as the retail archive stores it.
fn container(movie: &[u8], csum: u32) -> Vec<u8> {
    let mut c = b"UCFX".to_vec();
    for word in [0x28u32, 0, 0, 1] {
        c.extend_from_slice(&word.to_le_bytes());
    }
    c.extend_from_slice(b"data");
    for word in [0u32, movie.len() as u32, 0, 0] {
        c.extend_from_slice(&word.to_le_bytes());
    }
    c.extend_from_slice(movie);
    c.extend_from_slice(b"CSUM");
    c.extend_from_slice(&csum.to_le_bytes());
    c
}

const FIRST: &[u8] = b"CFX\x08\x0C\0\0\0abcd";
const SECOND: &[u8] = b"GFX\x06\x09\0\0\0z";

fn first() -> Vec<u8> {
    container(FIRST, 0xD73F_D1C7)
}

fn refusal(c: &[u8]) -> String {
    rebuild_container(c, SECOND).unwrap_err().message()
}

#[test]
fn extracts_the_movie() {
    assert!(can_extract(&first()));
    assert_eq!(container_movie(&first()).unwrap(), FIRST);
}

#[test]
fn no_data_chunk_is_refused() {
    let mut c = first();
    c[20..24].copy_from_slice(b"body");
    let e = container_movie(&c).unwrap_err();
    assert_eq!(e.message(), "container has no `data` chunk (not a movie?)");
    assert!(container_movie(b"UCFX").is_err());
    let mut marker = first();
    marker[24..28].copy_from_slice(&[0xFF; 4]);
    assert!(container_movie(&marker).is_err());
    let mut long = first();
    long[28..32].copy_from_slice(&21u32.to_le_bytes());
    assert!(container_movie(&long).is_err());
}

#[test]
fn rebuilds_with_another_movie() {
    let c = rebuild_container(&first(), SECOND).unwrap();
    assert_eq!(c, container(SECOND, 0x56EF_688D));
}

#[test]
fn keeps_header_words_that_it_does_not_know() {
    let mut c = first();
    c[8] = 0x11;
    c[36] = 0x22;
    let r = rebuild_container(&c, SECOND).unwrap();
    assert_eq!(r[8], 0x11);
    assert_eq!(r[36], 0x22);
    assert_eq!(r[..28], c[..28]);
    assert_eq!(r[32..40], c[32..40]);
}

#[test]
fn extracts_what_was_injected() {
    for movie in [&b""[..], SECOND, FIRST, &[0xA5; 70_000]] {
        let c = rebuild_container(&first(), movie).unwrap();
        assert_eq!(container_movie(&c).unwrap(), movie);
    }
}

#[test]
fn a_moved_body_reads_into_the_trailer() {
    let mut c = first();
    c[24] = 2;
    let r = rebuild_container(&c, SECOND).unwrap();
    assert_eq!(container_movie(&r).unwrap(), b"X\x06\x09\0\0\0zCS");
    c[24] = 9;
    let r = rebuild_container(&c, SECOND).unwrap();
    assert!(container_movie(&r).is_err());
}

#[test]
fn only_the_last_rebuild_counts() {
    let once = rebuild_container(&first(), SECOND).unwrap();
    let twice = rebuild_container(&once, FIRST).unwrap();
    assert_eq!(twice, first());
}

#[test]
fn its_own_movie_changes_nothing() {
    let movie = container_movie(&first()).unwrap();
    assert_eq!(rebuild_container(&first(), &movie).unwrap(), first());
}

#[test]
fn other_formats_are_refused() {
    assert_eq!(refusal(b"UCFX"), "original container is not UCFX");
    let mut c = first();
    c[0] = b'X';
    assert_eq!(refusal(&c), "original container is not UCFX");
}

#[test]
fn other_containers_are_refused() {
    let mut c = first();
    c[16] = 2;
    assert_eq!(
        refusal(&c),
        "not a simple movie container (n_desc=2, tag=\"data\"); rewrap unsupported"
    );
    let mut c = first();
    c[20..24].copy_from_slice(b"d\"\xFFa");
    assert_eq!(
        refusal(&c),
        "not a simple movie container (n_desc=1, tag=\"d\\\"\u{FFFD}a\"); rewrap unsupported"
    );
}

#[test]
fn containers_that_do_not_add_up_are_refused() {
    let mut c = first();
    c.push(0);
    assert_eq!(refusal(&c), "unexpected layout: header 40 + data 12 + CSUM 8 != 61");
    let mut c = first();
    c[28..32].copy_from_slice(&[0xFF; 4]);
    assert_eq!(refusal(&c), "unexpected layout: header 40 + data 4294967295 + CSUM 8 != 60");
}

#[test]
fn a_header_short_of_the_size_word_cannot_be_rebuilt() {
    let mut c = first();
    c[4] = 31;
    assert!(can_rebuild(&c));
    c[28] = 21;
    assert!(!can_rebuild(&c));
    c[4] = 32;
    c[28] = 20;
    assert!(can_rebuild(&c));
    assert!(can_rebuild(b""));
}
