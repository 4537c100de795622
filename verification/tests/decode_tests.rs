use nbt::decode::Decoder;
use nbt::error::NBTError;
use nbt::indentation::IndentationType;
use nbt::tags::Tag;

fn decode(bytes: &[u8]) -> Result<Tag, NBTError> {
    let mut decoder = Decoder::new(bytes.to_vec());
    decoder.decode()
}

fn named(id: u8, payload: &[u8]) -> Vec<u8> {
    let mut doc = vec![id, 0x00, 0x00];
    doc.extend_from_slice(payload);
    doc
}

#[test]
fn empty_compound_document() {
    let tag = decode(&[0x0A, 0x00, 0x00, 0x00]).unwrap();
    assert_eq!(tag, Tag::Compound(vec![]));
}

#[test]
fn compound_with_one_byte_entry() {
    let tag = decode(&[0x0A, 0x00, 0x00, 0x01, 0x00, 0x01, 0x78, 0x05, 0x00]).unwrap();
    assert_eq!(tag, Tag::Compound(vec![("x".to_string(), Tag::Byte(5))]));
}

#[test]
fn byte_round_trip() {
    assert_eq!(decode(&named(0x01, &[0x05])).unwrap(), Tag::Byte(5));
    assert_eq!(decode(&named(0x01, &[0xFB])).unwrap(), Tag::Byte(-5));
    assert_eq!(decode(&named(0x01, &[0x80])).unwrap(), Tag::Byte(-128));
    assert_eq!(decode(&named(0x01, &[0x7F])).unwrap(), Tag::Byte(127));
}

#[test]
fn short_round_trip() {
    assert_eq!(decode(&named(0x02, &[0x01, 0x02])).unwrap(), Tag::Short(0x0102));
    assert_eq!(decode(&named(0x02, &[0xFF, 0xFE])).unwrap(), Tag::Short(-2));
    assert_eq!(decode(&named(0x02, &[0x80, 0x00])).unwrap(), Tag::Short(i16::MIN));
}

#[test]
fn int_round_trip() {
    assert_eq!(decode(&named(0x03, &[0x01, 0x02, 0x03, 0x04])).unwrap(), Tag::Int(0x01020304));
    assert_eq!(decode(&named(0x03, &[0xFF, 0xFF, 0xFF, 0xFF])).unwrap(), Tag::Int(-1));
    assert_eq!(decode(&named(0x03, &0x7FFF_FFFFi32.to_be_bytes())).unwrap(), Tag::Int(i32::MAX));
}

#[test]
fn long_round_trip() {
    assert_eq!(
        decode(&named(0x04, &0x0102_0304_0506_0708i64.to_be_bytes())).unwrap(),
        Tag::Long(0x0102_0304_0506_0708)
    );
    assert_eq!(decode(&named(0x04, &(-42i64).to_be_bytes())).unwrap(), Tag::Long(-42));
    assert_eq!(decode(&named(0x04, &i64::MIN.to_be_bytes())).unwrap(), Tag::Long(i64::MIN));
}

#[test]
fn float_round_trip() {
    let value = 1.5f32;
    let tag = decode(&named(0x05, &value.to_be_bytes())).unwrap();
    assert_eq!(tag, Tag::Float(value.to_bits()));
}

#[test]
fn double_round_trip() {
    let value = -0.25f64;
    let tag = decode(&named(0x06, &value.to_be_bytes())).unwrap();
    assert_eq!(tag, Tag::Double(value.to_bits()));
}

#[test]
fn string_payload() {
    let tag = decode(&named(0x08, &[0x00, 0x02, 0x61, 0x62])).unwrap();
    assert_eq!(tag, Tag::String("ab".to_string()));
}

#[test]
fn string_invalid_utf8_is_io_failure() {
    let err = decode(&named(0x08, &[0x00, 0x01, 0xFF])).unwrap_err();
    assert_eq!(err, NBTError::Io);
}

#[test]
fn byte_array_payload() {
    let tag = decode(&named(0x07, &[0x00, 0x00, 0x00, 0x02, 0x01, 0xFF])).unwrap();
    assert_eq!(tag, Tag::ByteArray(vec![1, -1]));
}

#[test]
fn int_array_payload() {
    let mut payload = 2i32.to_be_bytes().to_vec();
    payload.extend_from_slice(&3i32.to_be_bytes());
    payload.extend_from_slice(&(-4i32).to_be_bytes());
    let tag = decode(&named(0x0B, &payload)).unwrap();
    assert_eq!(tag, Tag::IntArray(vec![3, -4]));
}

#[test]
fn long_array_payload() {
    let mut payload = 1i32.to_be_bytes().to_vec();
    payload.extend_from_slice(&(-9i64).to_be_bytes());
    let tag = decode(&named(0x0C, &payload)).unwrap();
    assert_eq!(tag, Tag::LongArray(vec![-9]));
}

#[test]
fn list_of_shorts() {
    let tag = decode(&named(0x09, &[0x02, 0x00, 0x00, 0x00, 0x02, 0x00, 0x07, 0xFF, 0xFF]))
        .unwrap();
    assert_eq!(tag, Tag::List(vec![Tag::Short(7), Tag::Short(-1)]));
}

#[test]
fn list_with_zero_count_reads_no_elements() {
    // A declared element type that is not even recognized must not matter.
    let tag = decode(&named(0x09, &[0x0D, 0x00, 0x00, 0x00, 0x00])).unwrap();
    assert_eq!(tag, Tag::List(vec![]));
}

#[test]
fn list_with_negative_count_is_empty() {
    let tag = decode(&named(0x09, &[0x01, 0xFF, 0xFF, 0xFF, 0xFF])).unwrap();
    assert_eq!(tag, Tag::List(vec![]));
}

#[test]
fn byte_array_with_negative_count_is_empty() {
    let tag = decode(&named(0x07, &[0xFF, 0xFF, 0xFF, 0xFB])).unwrap();
    assert_eq!(tag, Tag::ByteArray(vec![]));
}

#[test]
fn nested_compound() {
    // Outer compound holds "c", itself a compound that ends immediately.
    let tag = decode(&[
        0x0A, 0x00, 0x00, 0x0A, 0x00, 0x01, 0x63, 0x00, 0x00,
    ])
    .unwrap();
    assert_eq!(tag, Tag::Compound(vec![("c".to_string(), Tag::Compound(vec![]))]));
}

#[test]
fn duplicate_names_keep_place_last_value_wins() {
    // Entries: a=1, b=2, a=3 — "a" keeps the first place, takes value 3.
    let tag = decode(&[
        0x0A, 0x00, 0x00, //
        0x01, 0x00, 0x01, 0x61, 0x01, //
        0x01, 0x00, 0x01, 0x62, 0x02, //
        0x01, 0x00, 0x01, 0x61, 0x03, //
        0x00,
    ])
    .unwrap();
    assert_eq!(
        tag,
        Tag::Compound(vec![
            ("a".to_string(), Tag::Byte(3)),
            ("b".to_string(), Tag::Byte(2)),
        ])
    );
}

#[test]
fn top_level_end_tag_is_an_error() {
    let err = decode(&[0x00]).unwrap_err();
    assert_eq!(
        err,
        NBTError::Decoding("File started with an end tag".to_string(), 1)
    );
}

#[test]
fn empty_input_is_io_failure() {
    assert_eq!(decode(&[]).unwrap_err(), NBTError::Io);
}

#[test]
fn truncated_payload_is_io_failure() {
    // An int payload with only two of its four bytes.
    assert_eq!(decode(&named(0x03, &[0x01, 0x02])).unwrap_err(), NBTError::Io);
}

#[test]
fn unterminated_compound_is_io_failure() {
    // One full entry but no end marker before the data runs out.
    let err = decode(&[0x0A, 0x00, 0x00, 0x01, 0x00, 0x01, 0x78, 0x05]).unwrap_err();
    assert_eq!(err, NBTError::Io);
}

#[test]
fn invalid_top_level_id_reports_offset() {
    // Type id 0x0D, empty name: the failure points at the payload
    // position, after the 3 header bytes consumed.
    let err = decode(&[0x0D, 0x00, 0x00]).unwrap_err();
    assert_eq!(err, NBTError::Decoding("Invalid tag type: 0xD".to_string(), 3));
}

#[test]
fn invalid_id_inside_compound_reports_offset() {
    // Compound entry with id 0x0D and one-letter name: its payload
    // would begin at offset 7.
    let err = decode(&[0x0A, 0x00, 0x00, 0x0D, 0x00, 0x01, 0x79]).unwrap_err();
    assert_eq!(err, NBTError::Decoding("Invalid tag type: 0xD".to_string(), 7));
}

#[test]
fn invalid_list_element_id_reports_offset() {
    // List declares element type 0x0D with count 1: the first element
    // read fails at offset 8.
    let err = decode(&named(0x09, &[0x0D, 0x00, 0x00, 0x00, 0x01])).unwrap_err();
    assert_eq!(err, NBTError::Decoding("Invalid tag type: 0xD".to_string(), 8));
}

#[test]
fn invalid_id_zero_in_list() {
    // The end marker is not a payload type: a list of it with a
    // positive count fails like any unrecognized id.
    let err = decode(&named(0x09, &[0x00, 0x00, 0x00, 0x00, 0x01])).unwrap_err();
    assert_eq!(err, NBTError::Decoding("Invalid tag type: 0x0".to_string(), 8));
}

#[test]
fn error_descriptions() {
    assert_eq!(NBTError::Io.describe(), "Input/Output error");
    assert_eq!(
        NBTError::Decoding("Invalid tag type: 0xD".to_string(), 3).describe(),
        "Decoding failed (just before byte 3): Invalid tag type: 0xD"
    );
}
