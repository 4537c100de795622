use nbt::decode::Decoder;
use nbt::indentation::IndentationType;
use nbt::tags::{SnbtPiece, Tag};

fn snbt(tag: &Tag, indent: IndentationType) -> String {
    let mut out = String::new();
    tag.write_snbt(&mut out, indent);
    out
}

fn snbt_with_floats(tag: &Tag, indent: IndentationType) -> String {
    let mut out = String::new();
    for piece in tag.snbt_pieces(indent) {
        match piece {
            SnbtPiece::Text(s) => out.push_str(&s),
            SnbtPiece::FloatBits(bits) => out.push_str(&format!("{}", f32::from_bits(bits))),
            SnbtPiece::DoubleBits(bits) => out.push_str(&format!("{}", f64::from_bits(bits))),
        }
    }
    out
}

#[test]
fn scalar_suffixes() {
    let spaces = IndentationType::Spaces(4);
    assert_eq!(snbt(&Tag::Byte(5), spaces), "5b");
    assert_eq!(snbt(&Tag::Byte(-5), spaces), "-5b");
    assert_eq!(snbt(&Tag::Short(300), spaces), "300s");
    assert_eq!(snbt(&Tag::Int(-70000), spaces), "-70000");
    assert_eq!(snbt(&Tag::Long(1), spaces), "1l");
    assert_eq!(snbt(&Tag::Long(i64::MIN), spaces), "-9223372036854775808l");
    assert_eq!(snbt(&Tag::Boolean(true), spaces), "true");
    assert_eq!(snbt(&Tag::Boolean(false), spaces), "false");
}

#[test]
fn float_suffixes_match_standard_formatting() {
    let single = IndentationType::SingleLine;
    assert_eq!(snbt_with_floats(&Tag::Float(1.5f32.to_bits()), single), "1.5f");
    assert_eq!(snbt_with_floats(&Tag::Double((-0.25f64).to_bits()), single), "-0.25d");
}

#[test]
fn string_is_quoted_verbatim() {
    assert_eq!(
        snbt(&Tag::String("hi there".to_string()), IndentationType::Tabs),
        "\"hi there\""
    );
}

#[test]
fn empty_containers() {
    for indent in [
        IndentationType::Tabs,
        IndentationType::Spaces(4),
        IndentationType::SingleLine,
    ] {
        assert_eq!(snbt(&Tag::Compound(vec![]), indent), "{}");
        assert_eq!(snbt(&Tag::List(vec![]), indent), "[]");
        assert_eq!(snbt(&Tag::ByteArray(vec![]), indent), "[B; ]");
        assert_eq!(snbt(&Tag::IntArray(vec![]), indent), "[I; ]");
        assert_eq!(snbt(&Tag::LongArray(vec![]), indent), "[L; ]");
    }
}

#[test]
fn array_elements() {
    let single = IndentationType::SingleLine;
    assert_eq!(snbt(&Tag::ByteArray(vec![1, -2]), single), "[B; 1b, -2b]");
    assert_eq!(snbt(&Tag::IntArray(vec![3, 4, 5]), single), "[I; 3, 4, 5]");
    assert_eq!(snbt(&Tag::LongArray(vec![-6]), single), "[L; -6l]");
}

#[test]
fn list_with_spaces_indentation() {
    let tag = Tag::List(vec![Tag::Int(1), Tag::Int(2)]);
    assert_eq!(
        snbt(&tag, IndentationType::Spaces(4)),
        "[\n    1, \n    2\n]"
    );
}

#[test]
fn nested_indentation_is_eight_spaces_at_depth_two() {
    let tag = Tag::List(vec![Tag::List(vec![Tag::Byte(1)])]);
    assert_eq!(
        snbt(&tag, IndentationType::Spaces(4)),
        "[\n    [\n        1b\n    ]\n]"
    );
}

#[test]
fn compound_with_tabs() {
    let tag = Tag::Compound(vec![
        ("a".to_string(), Tag::Byte(1)),
        ("b".to_string(), Tag::String("x".to_string())),
    ]);
    assert_eq!(
        snbt(&tag, IndentationType::Tabs),
        "{\n\ta: 1b, \n\tb: \"x\"\n}"
    );
}

#[test]
fn single_line_never_holds_a_newline() {
    let tag = Tag::Compound(vec![
        ("k".to_string(), Tag::List(vec![
            Tag::Compound(vec![("n".to_string(), Tag::IntArray(vec![1, 2]))]),
            Tag::Compound(vec![]),
        ])),
        ("s".to_string(), Tag::String("plain".to_string())),
    ]);
    let out = snbt(&tag, IndentationType::SingleLine);
    assert!(!out.contains('\n'));
    assert_eq!(out, "{k: [{n: [I; 1, 2]}, {}], s: \"plain\"}");
}

#[test]
fn single_line_exact_text() {
    let tag = Tag::Compound(vec![("k".to_string(), Tag::List(vec![Tag::Byte(1), Tag::Byte(2)]))]);
    assert_eq!(snbt(&tag, IndentationType::SingleLine), "{k: [1b, 2b]}");
}

#[test]
fn empty_compound_document_renders_as_braces() {
    let mut decoder = Decoder::new(vec![0x0A, 0x00, 0x00, 0x00]);
    let tag = decoder.decode().unwrap();
    assert_eq!(snbt(&tag, IndentationType::Spaces(4)), "{}");
}

#[test]
fn one_entry_document_renders_indented() {
    let mut decoder = Decoder::new(vec![0x0A, 0x00, 0x00, 0x01, 0x00, 0x01, 0x78, 0x05, 0x00]);
    let tag = decoder.decode().unwrap();
    assert_eq!(snbt(&tag, IndentationType::Spaces(4)), "{\n    x: 5b\n}");
}

#[test]
fn decoded_float_renders_through_pieces() {
    let mut doc = vec![0x05, 0x00, 0x00];
    doc.extend_from_slice(&2.5f32.to_be_bytes());
    let mut decoder = Decoder::new(doc);
    let tag = decoder.decode().unwrap();
    assert_eq!(snbt_with_floats(&tag, IndentationType::Spaces(4)), "2.5f");
}

#[test]
fn begin_line_emits_newline_and_indent() {
    let mut out = String::new();
    IndentationType::Spaces(2).begin_line(&mut out, 3);
    assert_eq!(out, "\n      ");
    let mut out = String::new();
    IndentationType::Tabs.begin_line(&mut out, 2);
    assert_eq!(out, "\n\t\t");
    let mut out = String::new();
    IndentationType::SingleLine.begin_line(&mut out, 9);
    assert_eq!(out, "");
}

#[test]
fn float_free_detection() {
    assert!(Tag::Byte(1).is_float_free());
    assert!(!Tag::Float(0).is_float_free());
    assert!(!Tag::Compound(vec![("d".to_string(), Tag::List(vec![Tag::Double(0)]))])
        .is_float_free());
    assert!(Tag::Compound(vec![("i".to_string(), Tag::Int(1))]).is_float_free());
}
