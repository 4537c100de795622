use nbt::numeral::{append_dec_u64, append_hex_byte, append_int_text};
use nbt::Integer;

#[test]
fn widths() {
    assert_eq!(<i8 as Integer>::byte_width(), 1);
    assert_eq!(<i16 as Integer>::byte_width(), 2);
    assert_eq!(<i32 as Integer>::byte_width(), 4);
    assert_eq!(<i64 as Integer>::byte_width(), 8);
}

#[test]
fn from_bytes_reads_big_endian_twos_complement() {
    assert_eq!(<i8 as Integer>::from_bytes(&[0x7F]), 127);
    assert_eq!(<i8 as Integer>::from_bytes(&[0x80]), -128);
    assert_eq!(<i16 as Integer>::from_bytes(&[0x01, 0x00]), 256);
    assert_eq!(<i16 as Integer>::from_bytes(&[0xFF, 0xFF]), -1);
    assert_eq!(<i32 as Integer>::from_bytes(&[0x80, 0x00, 0x00, 0x00]), i32::MIN);
    assert_eq!(<i32 as Integer>::from_bytes(&[0x00, 0x00, 0x01, 0x02]), 258);
    assert_eq!(
        <i64 as Integer>::from_bytes(&[0xFF, 0xFF, 0xFF, 0xFF, 0xFF, 0xFF, 0xFF, 0xFE]),
        -2
    );
    assert_eq!(
        <i64 as Integer>::from_bytes(&0x0102_0304_0506_0708i64.to_be_bytes()),
        0x0102_0304_0506_0708
    );
}

#[test]
fn from_bytes_agrees_with_standard_conversion() {
    for v in [0i32, 1, -1, 4096, -4096, i32::MAX, i32::MIN] {
        assert_eq!(<i32 as Integer>::from_bytes(&v.to_be_bytes()), v);
    }
}

#[test]
fn decimal_text() {
    let mut s = String::new();
    append_dec_u64(&mut s, 0);
    assert_eq!(s, "0");
    let mut s = String::new();
    append_dec_u64(&mut s, 90210);
    assert_eq!(s, "90210");
    let mut s = String::new();
    append_int_text(&mut s, -307);
    assert_eq!(s, "-307");
    let mut s = String::new();
    append_int_text(&mut s, i64::MIN);
    assert_eq!(s, "-9223372036854775808");
}

#[test]
fn hex_byte_text() {
    let mut s = String::new();
    append_hex_byte(&mut s, 0x0D);
    assert_eq!(s, "0xD");
    let mut s = String::new();
    append_hex_byte(&mut s, 0xAB);
    assert_eq!(s, "0xAB");
    let mut s = String::new();
    append_hex_byte(&mut s, 0);
    assert_eq!(s, "0x0");
}
