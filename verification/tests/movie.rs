use gfx_tool::movie::{find_movie, movie_summary};

fn header(magic: &[u8; 3], version: u8, length: u32) -> Vec<u8> {
    let mut data = magic.to_vec();
    data.push(version);
    data.extend_from_slice(&length.to_le_bytes());
    data
}

#[test]
fn finds_each_magic() {
    for magic in [b"GFX", b"CFX", b"FWS", b"CWS"] {
        let text = String::from_utf8(magic.to_vec()).unwrap();
        assert_eq!(find_movie(&header(magic, 8, 100)), Some((0, text, 8, 100)));
    }
    assert_eq!(find_movie(&header(b"GWS", 8, 100)), None);
}

#[test]
fn finds_the_first_header() {
    let mut data = vec![0x00, 0x43];
    data.extend_from_slice(&header(b"CFX", 8, 0x1234));
    data.extend_from_slice(&header(b"GFX", 6, 64));
    assert_eq!(find_movie(&data), Some((2, "CFX".to_string(), 8, 0x1234)));
}

#[test]
fn rejects_versions_and_lengths_out_of_range() {
    assert_eq!(find_movie(&header(b"CFX", 0, 100)), None);
    assert!(find_movie(&header(b"CFX", 1, 100)).is_some());
    assert!(find_movie(&header(b"CFX", 20, 100)).is_some());
    assert_eq!(find_movie(&header(b"CFX", 21, 100)), None);
    assert_eq!(find_movie(&header(b"CFX", 8, 7)), None);
    assert!(find_movie(&header(b"CFX", 8, 8)).is_some());
    assert!(find_movie(&header(b"CFX", 8, 64 * 1024 * 1024 - 1)).is_some());
    assert_eq!(find_movie(&header(b"CFX", 8, 64 * 1024 * 1024)), None);
}

#[test]
fn short_data_has_no_movie() {
    assert_eq!(find_movie(&[]), None);
    assert_eq!(find_movie(&header(b"CFX", 8, 100)[..7]), None);
}

#[test]
fn the_container_magic_is_no_movie() {
    let mut data = b"UCFX".to_vec();
    data.extend_from_slice(&0x50u32.to_le_bytes());
    data.extend_from_slice(&[0; 16]);
    assert_eq!(find_movie(&data), None);
    data.extend_from_slice(&header(b"CFX", 8, 100));
    assert_eq!(find_movie(&data), Some((24, "CFX".to_string(), 8, 100)));
}

#[test]
fn summary_names_the_header() {
    let mut data = vec![0; 26];
    data.extend_from_slice(&header(b"CFX", 8, 1234));
    assert_eq!(movie_summary(&data), "CFX v8 filelen=1234 @0x1A");
    assert_eq!(movie_summary(b"nothing"), "?? (no recognizable movie header)");
}
