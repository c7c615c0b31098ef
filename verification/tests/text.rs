use gfx_tool::text::{hex, push_decimal, push_hex8, push_upper_hex};

#[test]
fn hex_dumps_upper_case_pairs() {
    assert_eq!(hex(&[0x01, 0xAB, 0x00, 0xFF], 16), "01 AB 00 FF");
}

#[test]
fn hex_stops_after_the_asked_bytes() {
    assert_eq!(hex(&[0x01, 0xAB, 0x00, 0xFF], 2), "01 AB");
    assert_eq!(hex(&[0x01], 1), "01");
    assert_eq!(hex(&[0x01], 0), "");
    assert_eq!(hex(&[], 16), "");
}

#[test]
fn numbers_are_written_out() {
    let mut text = String::from("n=");
    push_decimal(&mut text, 0);
    text.push(' ');
    push_decimal(&mut text, 18446744073709551615);
    text.push(' ');
    push_upper_hex(&mut text, 0);
    text.push(' ');
    push_upper_hex(&mut text, 0xBEEF);
    text.push(' ');
    push_hex8(&mut text, 0xBEEF);
    assert_eq!(text, "n=0 18446744073709551615 0 BEEF 0000BEEF");
}
