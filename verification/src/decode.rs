//! Recursive-descent decoding of a binary tag document.
//!
//! The wire layout is fixed: a document is one named record —
//! `[type id: 1 byte][name length: u16 BE][name bytes][payload]` —
//! and every multi-byte integer is big-endian two's complement.
//! The functions `parse_named`, `parse_payload`,
//! `parse_compound_entries` and `parse_list_elems` define the format
//! mathematically; the decoder is verified to return exactly what they
//! say, byte for byte and failure for failure.

use vstd::prelude::*;
use vstd::pervasive::VecAdditionalExecFns;
use vstd::slice::slice_subrange;
use vstd::string::StringExecFns;
use crate::error::{DecodeErr, NBTError};
use crate::integer::{be_bytes, be_signed, be_unsigned, be_unsigned_of, lemma_be_bytes_len, lemma_be_bytes_round_trip, lemma_be_unsigned_bound, lemma_signed_round_trip, pow256, to_unsigned, Integer};
use crate::numeral::append_hex_byte;
use crate::numeral::hex_byte_text;
use crate::tags::{tag_model, model_wf, Tag, TagModel};

verus! {

/// What decoding these bytes as UTF-8 yields: the characters when the
/// bytes are valid UTF-8, nothing otherwise.
pub uninterp spec fn utf8_decode(bytes: Seq<u8>) -> Option<Seq<char>>;

/// Relies on `core::str::from_utf8`: it succeeds exactly on valid
/// UTF-8, and the decoded characters are a function of the bytes
/// alone.
#[verifier::external_body]
fn utf8_to_string(bytes: &[u8]) -> (r: Option<String>)
    ensures
        r is Some <==> utf8_decode(bytes@) is Some,
        r matches Some(s) ==> Some(s@) == utf8_decode(bytes@),
{
    match core::str::from_utf8(bytes) {
        Ok(s) => Some(s.to_owned()),
        Err(_) => None,
    }
}

/// The message of the structural failure an unrecognized type id
/// raises.
pub open spec fn invalid_tag_text(id: u8) -> Seq<char> {
    "Invalid tag type: "@ + hex_byte_text(id)
}

/// The message of the structural failure a document that starts with
/// the end marker raises.
pub open spec fn end_tag_text() -> Seq<char> {
    "File started with an end tag"@
}

/// The cursor after a sub-parse, clamped so that it strictly advances
/// and stays in range. A sub-parse that succeeds always advances and
/// stays in range, so on every reachable path the clamp is the
/// identity; it only makes the recursion below visibly well-founded.
pub open spec fn next_cursor(pos: int, new_pos: int, len: int) -> int {
    let ahead = if new_pos > pos {
        new_pos
    } else {
        pos + 1
    };
    if ahead > len + 1 {
        len + 1
    } else {
        ahead
    }
}

/// Entry insertion for a compound: a fresh name is appended; a name
/// already present keeps its place and takes the new value (the last
/// write wins).
pub open spec fn upsert(
    entries: Seq<(Seq<char>, TagModel)>,
    name: Seq<char>,
    value: TagModel,
) -> Seq<(Seq<char>, TagModel)> {
    if exists|i: int| 0 <= i < entries.len() && entries[i].0 == name {
        entries.update(
            choose|i: int| 0 <= i < entries.len() && entries[i].0 == name,
            (name, value),
        )
    } else {
        entries.push((name, value))
    }
}

/// Whether a compound's entry names are pairwise distinct.
pub open spec fn unique_names(entries: Seq<(Seq<char>, TagModel)>) -> bool {
    forall|i: int, j: int| 0 <= i < j < entries.len() ==> entries[i].0 != entries[j].0
}

/// Inserting preserves distinct names.
proof fn lemma_upsert_unique(entries: Seq<(Seq<char>, TagModel)>, name: Seq<char>, value: TagModel)
    requires
        unique_names(entries),
    ensures
        unique_names(upsert(entries, name, value)),
{
    if exists|i: int| 0 <= i < entries.len() && entries[i].0 == name {
        let w = choose|i: int| 0 <= i < entries.len() && entries[i].0 == name;
        assert(upsert(entries, name, value) == entries.update(w, (name, value)));
        assert forall|i: int, j: int|
            0 <= i < j < entries.update(w, (name, value)).len() implies entries.update(
            w,
            (name, value),
        )[i].0 != entries.update(w, (name, value))[j].0 by {
            assert(entries[i].0 != entries[j].0);
        }
    }
}

/// One named record at `pos`: `None` when the record is the end
/// marker, else its name and payload; either way the cursor after the
/// record.
pub open spec fn parse_named(bytes: Seq<u8>, pos: int) -> Result<
    (Option<(Seq<char>, TagModel)>, int),
    DecodeErr,
>
    decreases bytes.len() + 1 - pos, 0int,
{
    if pos < 0 || pos >= bytes.len() {
        Err(DecodeErr::Io)
    } else {
        let id = bytes[pos];
        if id == 0 {
            Ok((None, pos + 1))
        } else if pos + 3 > bytes.len() {
            Err(DecodeErr::Io)
        } else {
            let name_len = be_unsigned(bytes.subrange(pos + 1, pos + 3)) as int;
            if pos + 3 + name_len > bytes.len() {
                Err(DecodeErr::Io)
            } else {
                match utf8_decode(bytes.subrange(pos + 3, pos + 3 + name_len)) {
                    Option::None => Err(DecodeErr::Io),
                    Option::Some(name) => match parse_payload(bytes, pos + 3 + name_len, id) {
                        Err(e) => Err(e),
                        Ok((value, end)) => Ok((Some((name, value)), end)),
                    },
                }
            }
        }
    }
}

/// The payload of type `id` at `pos`: the tag it encodes and the
/// cursor after it, or the failure reading it raises.
pub open spec fn parse_payload(bytes: Seq<u8>, pos: int, id: u8) -> Result<
    (TagModel, int),
    DecodeErr,
>
    decreases bytes.len() + 1 - pos, 2int,
{
    if id == 1 {
        if 0 <= pos && pos + 1 <= bytes.len() {
            Ok((TagModel::Byte(be_signed(bytes.subrange(pos, pos + 1)) as i8), pos + 1))
        } else {
            Err(DecodeErr::Io)
        }
    } else if id == 2 {
        if 0 <= pos && pos + 2 <= bytes.len() {
            Ok((TagModel::Short(be_signed(bytes.subrange(pos, pos + 2)) as i16), pos + 2))
        } else {
            Err(DecodeErr::Io)
        }
    } else if id == 3 {
        if 0 <= pos && pos + 4 <= bytes.len() {
            Ok((TagModel::Int(be_signed(bytes.subrange(pos, pos + 4)) as i32), pos + 4))
        } else {
            Err(DecodeErr::Io)
        }
    } else if id == 4 {
        if 0 <= pos && pos + 8 <= bytes.len() {
            Ok((TagModel::Long(be_signed(bytes.subrange(pos, pos + 8)) as i64), pos + 8))
        } else {
            Err(DecodeErr::Io)
        }
    } else if id == 5 {
        if 0 <= pos && pos + 4 <= bytes.len() {
            Ok((TagModel::Float(be_unsigned(bytes.subrange(pos, pos + 4)) as u32), pos + 4))
        } else {
            Err(DecodeErr::Io)
        }
    } else if id == 6 {
        if 0 <= pos && pos + 8 <= bytes.len() {
            Ok((TagModel::Double(be_unsigned(bytes.subrange(pos, pos + 8)) as u64), pos + 8))
        } else {
            Err(DecodeErr::Io)
        }
    } else if id == 7 {
        if 0 <= pos && pos + 4 <= bytes.len() {
            let count = be_signed(bytes.subrange(pos, pos + 4));
            if count <= 0 {
                Ok((TagModel::ByteArray(Seq::empty()), pos + 4))
            } else if pos + 4 + count > bytes.len() {
                Err(DecodeErr::Io)
            } else {
                Ok(
                    (
                        TagModel::ByteArray(
                            Seq::new(
                                count as nat,
                                |i: int| be_signed(bytes.subrange(pos + 4 + i, pos + 5 + i)) as i8,
                            ),
                        ),
                        pos + 4 + count,
                    ),
                )
            }
        } else {
            Err(DecodeErr::Io)
        }
    } else if id == 8 {
        if 0 <= pos && pos + 2 <= bytes.len() {
            let text_len = be_unsigned(bytes.subrange(pos, pos + 2)) as int;
            if pos + 2 + text_len > bytes.len() {
                Err(DecodeErr::Io)
            } else {
                match utf8_decode(bytes.subrange(pos + 2, pos + 2 + text_len)) {
                    Option::None => Err(DecodeErr::Io),
                    Option::Some(text) => Ok((TagModel::String(text), pos + 2 + text_len)),
                }
            }
        } else {
            Err(DecodeErr::Io)
        }
    } else if id == 9 {
        if 0 <= pos && pos + 5 <= bytes.len() {
            let elem_id = bytes[pos];
            let count = be_signed(bytes.subrange(pos + 1, pos + 5));
            if count <= 0 {
                Ok((TagModel::List(Seq::empty()), pos + 5))
            } else {
                match parse_list_elems(bytes, pos + 5, elem_id, count, Seq::empty()) {
                    Err(e) => Err(e),
                    Ok((elems, end)) => Ok((TagModel::List(elems), end)),
                }
            }
        } else {
            Err(DecodeErr::Io)
        }
    } else if id == 10 {
        if 0 <= pos && pos <= bytes.len() {
            match parse_compound_entries(bytes, pos, Seq::empty()) {
                Err(e) => Err(e),
                Ok((entries, end)) => Ok((TagModel::Compound(entries), end)),
            }
        } else {
            Err(DecodeErr::Io)
        }
    } else if id == 11 {
        if 0 <= pos && pos + 4 <= bytes.len() {
            let count = be_signed(bytes.subrange(pos, pos + 4));
            if count <= 0 {
                Ok((TagModel::IntArray(Seq::empty()), pos + 4))
            } else if pos + 4 + count * 4 > bytes.len() {
                Err(DecodeErr::Io)
            } else {
                Ok(
                    (
                        TagModel::IntArray(
                            Seq::new(
                                count as nat,
                                |i: int| be_signed(
                                    bytes.subrange(pos + 4 + i * 4, pos + 8 + i * 4),
                                ) as i32,
                            ),
                        ),
                        pos + 4 + count * 4,
                    ),
                )
            }
        } else {
            Err(DecodeErr::Io)
        }
    } else if id == 12 {
        if 0 <= pos && pos + 4 <= bytes.len() {
            let count = be_signed(bytes.subrange(pos, pos + 4));
            if count <= 0 {
                Ok((TagModel::LongArray(Seq::empty()), pos + 4))
            } else if pos + 4 + count * 8 > bytes.len() {
                Err(DecodeErr::Io)
            } else {
                Ok(
                    (
                        TagModel::LongArray(
                            Seq::new(
                                count as nat,
                                |i: int| be_signed(
                                    bytes.subrange(pos + 4 + i * 8, pos + 12 + i * 8),
                                ) as i64,
                            ),
                        ),
                        pos + 4 + count * 8,
                    ),
                )
            }
        } else {
            Err(DecodeErr::Io)
        }
    } else {
        Err(DecodeErr::Decoding(invalid_tag_text(id), pos))
    }
}

/// Named records from `pos` until the end marker, gathered into `acc`.
pub open spec fn parse_compound_entries(
    bytes: Seq<u8>,
    pos: int,
    acc: Seq<(Seq<char>, TagModel)>,
) -> Result<(Seq<(Seq<char>, TagModel)>, int), DecodeErr>
    decreases bytes.len() + 1 - pos, 1int,
{
    if pos < 0 || pos >= bytes.len() {
        Err(DecodeErr::Io)
    } else {
        match parse_named(bytes, pos) {
            Err(e) => Err(e),
            Ok((Option::None, end)) => Ok((acc, end)),
            Ok((Option::Some((name, value)), end)) => parse_compound_entries(
                bytes,
                next_cursor(pos, end, bytes.len() as int),
                upsert(acc, name, value),
            ),
        }
    }
}

/// `remaining` unnamed payloads of type `id` from `pos` on, appended
/// to `acc`. A non-positive count never reads an element, whatever
/// `id` declares.
pub open spec fn parse_list_elems(
    bytes: Seq<u8>,
    pos: int,
    id: u8,
    remaining: int,
    acc: Seq<TagModel>,
) -> Result<(Seq<TagModel>, int), DecodeErr>
    decreases bytes.len() + 1 - pos, 3int,
{
    if remaining <= 0 {
        Ok((acc, pos))
    } else if pos < 0 || pos > bytes.len() {
        Err(DecodeErr::Io)
    } else {
        match parse_payload(bytes, pos, id) {
            Err(e) => Err(e),
            Ok((value, end)) => parse_list_elems(
                bytes,
                next_cursor(pos, end, bytes.len() as int),
                id,
                remaining - 1,
                acc.push(value),
            ),
        }
    }
}

/// A whole document at `pos`: one named record whose payload is the
/// result. The end marker as the first record is a structural failure,
/// not an empty result.
pub open spec fn parse_document(bytes: Seq<u8>, pos: int) -> Result<(TagModel, int), DecodeErr> {
    match parse_named(bytes, pos) {
        Err(e) => Err(e),
        Ok((Option::None, end)) => Err(DecodeErr::Decoding(end_tag_text(), end)),
        Ok((Option::Some((name, value)), end)) => Ok((value, end)),
    }
}

/// Whether a tag is one of the six fixed-width scalar payloads.
pub open spec fn is_scalar(m: TagModel) -> bool {
    m matches TagModel::Byte(_) || m matches TagModel::Short(_) || m matches TagModel::Int(_)
        || m matches TagModel::Long(_) || m matches TagModel::Float(_) || m matches
        TagModel::Double(_)
}

/// The wire type id of a scalar payload.
pub open spec fn scalar_type_id(m: TagModel) -> u8 {
    match m {
        TagModel::Byte(_) => 1,
        TagModel::Short(_) => 2,
        TagModel::Int(_) => 3,
        TagModel::Long(_) => 4,
        TagModel::Float(_) => 5,
        TagModel::Double(_) => 6,
        _ => 0,
    }
}

/// The canonical byte encoding of a scalar payload.
pub open spec fn scalar_encoding(m: TagModel) -> Seq<u8> {
    match m {
        TagModel::Byte(v) => be_bytes(to_unsigned(v as int, 1), 1),
        TagModel::Short(v) => be_bytes(to_unsigned(v as int, 2), 2),
        TagModel::Int(v) => be_bytes(to_unsigned(v as int, 4), 4),
        TagModel::Long(v) => be_bytes(to_unsigned(v as int, 8), 8),
        TagModel::Float(bits) => be_bytes(bits as nat, 4),
        TagModel::Double(bits) => be_bytes(bits as nat, 8),
        _ => Seq::empty(),
    }
}

/// Every scalar decodes from its canonical byte encoding back to the
/// exact original value, consuming the whole encoding.
pub proof fn lemma_scalar_round_trip(m: TagModel)
    requires
        is_scalar(m),
    ensures
        parse_payload(scalar_encoding(m), 0, scalar_type_id(m)) == Ok::<
            (TagModel, int),
            DecodeErr,
        >((m, scalar_encoding(m).len() as int)),
{
    reveal_with_fuel(pow256, 9);
    let s = scalar_encoding(m);
    match m {
        TagModel::Byte(v) => {
            lemma_be_bytes_len(to_unsigned(v as int, 1), 1);
            lemma_signed_round_trip(v as int, 1);
            assert(s.subrange(0, 1) =~= s);
        },
        TagModel::Short(v) => {
            lemma_be_bytes_len(to_unsigned(v as int, 2), 2);
            lemma_signed_round_trip(v as int, 2);
            assert(s.subrange(0, 2) =~= s);
        },
        TagModel::Int(v) => {
            lemma_be_bytes_len(to_unsigned(v as int, 4), 4);
            lemma_signed_round_trip(v as int, 4);
            assert(s.subrange(0, 4) =~= s);
        },
        TagModel::Long(v) => {
            lemma_be_bytes_len(to_unsigned(v as int, 8), 8);
            lemma_signed_round_trip(v as int, 8);
            assert(s.subrange(0, 8) =~= s);
        },
        TagModel::Float(bits) => {
            lemma_be_bytes_len(bits as nat, 4);
            lemma_be_bytes_round_trip(bits as nat, 4);
            assert(s.subrange(0, 4) =~= s);
        },
        TagModel::Double(bits) => {
            lemma_be_bytes_len(bits as nat, 8);
            lemma_be_bytes_round_trip(bits as nat, 8);
            assert(s.subrange(0, 8) =~= s);
        },
        _ => {},
    }
}

/// A compound payload that begins with the end marker decodes to an
/// empty entry set, consuming just that byte.
pub proof fn lemma_compound_end_marker_empty(bytes: Seq<u8>, pos: int)
    requires
        0 <= pos < bytes.len(),
        bytes[pos] == 0,
    ensures
        parse_payload(bytes, pos, 10) == Ok::<(TagModel, int), DecodeErr>(
            (TagModel::Compound(Seq::empty()), pos + 1),
        ),
{
    assert(parse_named(bytes, pos) == Ok::<(Option<(Seq<char>, TagModel)>, int), DecodeErr>(
        (Option::None, pos + 1),
    ));
    assert(parse_compound_entries(bytes, pos, Seq::empty()) == Ok::<
        (Seq<(Seq<char>, TagModel)>, int),
        DecodeErr,
    >((Seq::empty(), pos + 1)));
}

/// A list whose declared count is zero or negative decodes to an
/// empty list without reading a single element, whatever element type
/// the list declares — even an unrecognized one.
pub proof fn lemma_list_nonpositive_count(bytes: Seq<u8>, pos: int)
    requires
        0 <= pos,
        pos + 5 <= bytes.len(),
        be_signed(bytes.subrange(pos + 1, pos + 5)) <= 0,
    ensures
        parse_payload(bytes, pos, 9) == Ok::<(TagModel, int), DecodeErr>(
            (TagModel::List(Seq::empty()), pos + 5),
        ),
{
}

/// An array whose declared count is zero or negative decodes to an
/// empty array without raising an error.
pub proof fn lemma_array_nonpositive_count(bytes: Seq<u8>, pos: int, id: u8)
    requires
        0 <= pos,
        pos + 4 <= bytes.len(),
        be_signed(bytes.subrange(pos, pos + 4)) <= 0,
        id == 7 || id == 11 || id == 12,
    ensures
        parse_payload(bytes, pos, id) == Ok::<(TagModel, int), DecodeErr>(
            (
                if id == 7 {
                    TagModel::ByteArray(Seq::empty())
                } else if id == 11 {
                    TagModel::IntArray(Seq::empty())
                } else {
                    TagModel::LongArray(Seq::empty())
                },
                pos + 4,
            ),
        ),
{
}

/// An unrecognized type id fails with a message naming the id and the
/// offset of the position where its payload was expected — exactly
/// the bytes consumed up to that point, wherever it occurs.
pub proof fn lemma_invalid_id_failure(bytes: Seq<u8>, pos: int, id: u8)
    requires
        !(1 <= id <= 12),
    ensures
        parse_payload(bytes, pos, id) == Err::<(TagModel, int), DecodeErr>(
            DecodeErr::Decoding(invalid_tag_text(id), pos),
        ),
{
}

/// The models of a sequence of tags.
pub open spec fn tag_models(s: Seq<Tag>) -> Seq<TagModel> {
    s.map_values(|t: Tag| tag_model(t))
}

/// The models of a sequence of named entries.
pub open spec fn entry_models(s: Seq<(String, Tag)>) -> Seq<(Seq<char>, TagModel)> {
    s.map_values(|e: (String, Tag)| (e.0@, tag_model(e.1)))
}

/// Inserting a well-formed value keeps every entry value well-formed.
proof fn lemma_upsert_wf(entries: Seq<(Seq<char>, TagModel)>, name: Seq<char>, value: TagModel)
    requires
        forall|k: int| 0 <= k < entries.len() ==> model_wf(#[trigger] entries[k].1),
        model_wf(value),
    ensures
        forall|k: int|
            0 <= k < upsert(entries, name, value).len() ==> model_wf(
                #[trigger] upsert(entries, name, value)[k].1,
            ),
{
}

/// Reads one fixed-width big-endian signed integer at `pos`.
fn read_integer<T: Integer>(data: &Vec<u8>, pos: usize) -> (r: Result<(T, usize), NBTError>)
    requires
        pos <= data@.len(),
        1 <= T::width() <= 8,
    ensures
        match r {
            Ok((v, p2)) => pos + T::width() <= data@.len() && p2 == pos + T::width()
                && v.as_int() == be_signed(
                data@.subrange(pos as int, pos as int + T::width() as int),
            ),
            Err(e) => pos + T::width() > data@.len() && e@ == DecodeErr::Io,
        },
{
    let w = T::byte_width();
    if data.len() - pos < w {
        Err(NBTError::Io)
    } else {
        let s = slice_subrange(data.as_slice(), pos, pos + w);
        Ok((T::from_bytes(s), pos + w))
    }
}

/// Reads `width` bytes at `pos` as a big-endian unsigned integer.
fn read_unsigned(data: &Vec<u8>, pos: usize, width: usize) -> (r: Result<(u64, usize), NBTError>)
    requires
        pos <= data@.len(),
        1 <= width <= 8,
    ensures
        match r {
            Ok((u, p2)) => pos + width <= data@.len() && p2 == pos + width && u == be_unsigned(
                data@.subrange(pos as int, pos as int + width as int),
            ),
            Err(e) => pos + width > data@.len() && e@ == DecodeErr::Io,
        },
{
    if data.len() - pos < width {
        Err(NBTError::Io)
    } else {
        let s = slice_subrange(data.as_slice(), pos, pos + width);
        Ok((be_unsigned_of(s), pos + width))
    }
}

/// Decodes an `i32` count followed by that many one-byte elements.
fn decode_byte_array(data: &Vec<u8>, pos: usize) -> (r: Result<(Tag, usize), NBTError>)
    requires
        pos <= data@.len(),
    ensures
        ({
            let pr = parse_payload(data@, pos as int, 7u8);
            match r {
                Ok((t, p2)) => pr == Ok::<(TagModel, int), DecodeErr>((tag_model(t), p2 as int))
                    && pos < p2 <= data@.len() && model_wf(tag_model(t)),
                Err(e) => pr == Err::<(TagModel, int), DecodeErr>(e@),
            }
        }),
{
    let count = match read_integer::<i32>(data, pos) {
        Ok((c, _)) => c,
        Err(e) => {
            return Err(e);
        },
    };
    if count <= 0 {
        let t = Tag::ByteArray(Vec::new());
        proof {
            assert(tag_model(t) == TagModel::ByteArray(Seq::<i8>::empty()));
        }
        return Ok((t, pos + 4));
    }
    let mut out: Vec<i8> = Vec::new();
    let mut cur: usize = pos + 4;
    let mut j: i32 = 0;
    while j < count
        invariant
            0 <= j <= count,
            out@.len() == j as int,
            cur as int == pos as int + 4 + j as int,
            pos + 4 <= cur <= data@.len(),
            pos + 4 <= data@.len(),
            count as int == be_signed(data@.subrange(pos as int, pos as int + 4)),
            count > 0,
            forall|k: int|
                0 <= k < j ==> out@[k] as int == be_signed(
                    #[trigger] data@.subrange(pos as int + 4 + k, pos as int + 5 + k),
                ),
        decreases count - j,
    {
        match read_integer::<i8>(data, cur) {
            Err(_) => {
                proof {
                    assert(pos as int + 4 + count as int > data@.len());
                }
                return Err(NBTError::Io);
            },
            Ok((v, p2)) => {
                out.push(v);
                cur = p2;
                j = j + 1;
            },
        }
    }
    proof {
        assert(out@ =~= Seq::new(
            count as nat,
            |i: int| be_signed(data@.subrange(pos as int + 4 + i, pos as int + 5 + i)) as i8,
        ));
    }
    Ok((Tag::ByteArray(out), cur))
}

/// Decodes an `i32` count followed by that many four-byte elements.
fn decode_int_array(data: &Vec<u8>, pos: usize) -> (r: Result<(Tag, usize), NBTError>)
    requires
        pos <= data@.len(),
    ensures
        ({
            let pr = parse_payload(data@, pos as int, 11u8);
            match r {
                Ok((t, p2)) => pr == Ok::<(TagModel, int), DecodeErr>((tag_model(t), p2 as int))
                    && pos < p2 <= data@.len() && model_wf(tag_model(t)),
                Err(e) => pr == Err::<(TagModel, int), DecodeErr>(e@),
            }
        }),
{
    let count = match read_integer::<i32>(data, pos) {
        Ok((c, _)) => c,
        Err(e) => {
            return Err(e);
        },
    };
    if count <= 0 {
        let t = Tag::IntArray(Vec::new());
        proof {
            assert(tag_model(t) == TagModel::IntArray(Seq::<i32>::empty()));
        }
        return Ok((t, pos + 4));
    }
    let mut out: Vec<i32> = Vec::new();
    let mut cur: usize = pos + 4;
    let mut j: i32 = 0;
    while j < count
        invariant
            0 <= j <= count,
            out@.len() == j as int,
            cur as int == pos as int + 4 + 4 * (j as int),
            pos + 4 <= cur <= data@.len(),
            pos + 4 <= data@.len(),
            count as int == be_signed(data@.subrange(pos as int, pos as int + 4)),
            count > 0,
            forall|k: int|
                0 <= k < j ==> out@[k] as int == be_signed(
                    #[trigger] data@.subrange(pos as int + 4 + k * 4, pos as int + 8 + k * 4),
                ),
        decreases count - j,
    {
        match read_integer::<i32>(data, cur) {
            Err(_) => {
                proof {
                    assert(pos as int + 4 + count as int * 4 > data@.len());
                }
                return Err(NBTError::Io);
            },
            Ok((v, p2)) => {
                out.push(v);
                cur = p2;
                j = j + 1;
            },
        }
    }
    proof {
        assert(out@ =~= Seq::new(
            count as nat,
            |i: int| be_signed(data@.subrange(pos as int + 4 + i * 4, pos as int + 8 + i * 4))
                as i32,
        ));
    }
    Ok((Tag::IntArray(out), cur))
}

/// Decodes an `i32` count followed by that many eight-byte elements.
fn decode_long_array(data: &Vec<u8>, pos: usize) -> (r: Result<(Tag, usize), NBTError>)
    requires
        pos <= data@.len(),
    ensures
        ({
            let pr = parse_payload(data@, pos as int, 12u8);
            match r {
                Ok((t, p2)) => pr == Ok::<(TagModel, int), DecodeErr>((tag_model(t), p2 as int))
                    && pos < p2 <= data@.len() && model_wf(tag_model(t)),
                Err(e) => pr == Err::<(TagModel, int), DecodeErr>(e@),
            }
        }),
{
    let count = match read_integer::<i32>(data, pos) {
        Ok((c, _)) => c,
        Err(e) => {
            return Err(e);
        },
    };
    if count <= 0 {
        let t = Tag::LongArray(Vec::new());
        proof {
            assert(tag_model(t) == TagModel::LongArray(Seq::<i64>::empty()));
        }
        return Ok((t, pos + 4));
    }
    let mut out: Vec<i64> = Vec::new();
    let mut cur: usize = pos + 4;
    let mut j: i32 = 0;
    while j < count
        invariant
            0 <= j <= count,
            out@.len() == j as int,
            cur as int == pos as int + 4 + 8 * (j as int),
            pos + 4 <= cur <= data@.len(),
            pos + 4 <= data@.len(),
            count as int == be_signed(data@.subrange(pos as int, pos as int + 4)),
            count > 0,
            forall|k: int|
                0 <= k < j ==> out@[k] as int == be_signed(
                    #[trigger] data@.subrange(pos as int + 4 + k * 8, pos as int + 12 + k * 8),
                ),
        decreases count - j,
    {
        match read_integer::<i64>(data, cur) {
            Err(_) => {
                proof {
                    assert(pos as int + 4 + count as int * 8 > data@.len());
                }
                return Err(NBTError::Io);
            },
            Ok((v, p2)) => {
                out.push(v);
                cur = p2;
                j = j + 1;
            },
        }
    }
    proof {
        assert(out@ =~= Seq::new(
            count as nat,
            |i: int| be_signed(data@.subrange(pos as int + 4 + i * 8, pos as int + 12 + i * 8))
                as i64,
        ));
    }
    Ok((Tag::LongArray(out), cur))
}

/// Decodes a `u16` byte length followed by that many UTF-8 bytes.
fn decode_string(data: &Vec<u8>, pos: usize) -> (r: Result<(Tag, usize), NBTError>)
    requires
        pos <= data@.len(),
    ensures
        ({
            let pr = parse_payload(data@, pos as int, 8u8);
            match r {
                Ok((t, p2)) => pr == Ok::<(TagModel, int), DecodeErr>((tag_model(t), p2 as int))
                    && pos < p2 <= data@.len() && model_wf(tag_model(t)),
                Err(e) => pr == Err::<(TagModel, int), DecodeErr>(e@),
            }
        }),
{
    let (len_u, p2) = match read_unsigned(data, pos, 2) {
        Ok(x) => x,
        Err(e) => {
            return Err(e);
        },
    };
    proof {
        reveal_with_fuel(pow256, 3);
        lemma_be_unsigned_bound(data@.subrange(pos as int, pos as int + 2));
    }
    let slen = len_u as usize;
    if data.len() - p2 < slen {
        return Err(NBTError::Io);
    }
    let s = slice_subrange(data.as_slice(), p2, p2 + slen);
    match utf8_to_string(s) {
        None => Err(NBTError::Io),
        Some(text) => Ok((Tag::String(text), p2 + slen)),
    }
}

/// Replaces the value of an entry already named `name`, keeping its
/// place, or appends a new entry: the last write wins.
fn upsert_entry(entries: &mut Vec<(String, Tag)>, name: String, value: Tag)
    requires
        unique_names(entry_models(old(entries)@)),
    ensures
        entry_models(final(entries)@) == upsert(
            entry_models(old(entries)@),
            name@,
            tag_model(value),
        ),
{
    let ghost acc = entry_models(entries@);
    let mut j: usize = 0;
    while j < entries.len()
        invariant
            j <= entries@.len(),
            entries@ == old(entries)@,
            acc == entry_models(entries@),
            unique_names(acc),
            forall|k: int| 0 <= k < j ==> (#[trigger] acc[k]).0 != name@,
        decreases entries@.len() - j,
    {
        if entries[j].0 == name {
            entries.set(j, (name, value));
            proof {
                assert(acc[j as int].0 == name@);
                assert(exists|i: int| 0 <= i < acc.len() && acc[i].0 == name@);
                let w = choose|i: int| 0 <= i < acc.len() && acc[i].0 == name@;
                assert(w == j as int) by {
                    if w < j {
                        assert(acc[w].0 != acc[j as int].0);
                    } else if w > j {
                        assert(acc[j as int].0 != acc[w].0);
                    }
                }
                assert(entry_models(entries@) =~= upsert(acc, name@, tag_model(value)));
            }
            return;
        }
        j = j + 1;
    }
    entries.push((name, value));
    proof {
        assert(forall|i: int| 0 <= i < acc.len() ==> (#[trigger] acc[i]).0 != name@);
        assert(entry_models(entries@) =~= upsert(acc, name@, tag_model(value)));
    }
}

/// Decodes the payload that type id `id` announces at `pos`.
fn decode_by_id(data: &Vec<u8>, pos: usize, id: u8) -> (r: Result<(Tag, usize), NBTError>)
    requires
        pos <= data@.len(),
    ensures
        ({
            let pr = parse_payload(data@, pos as int, id);
            match r {
                Ok((t, p2)) => pr == Ok::<(TagModel, int), DecodeErr>((tag_model(t), p2 as int))
                    && pos < p2 <= data@.len() && model_wf(tag_model(t)),
                Err(e) => pr == Err::<(TagModel, int), DecodeErr>(e@),
            }
        }),
    decreases data@.len() + 1 - pos, 2int,
{
    if id == 1 {
        match read_integer::<i8>(data, pos) {
            Ok((v, p2)) => Ok((Tag::Byte(v), p2)),
            Err(e) => Err(e),
        }
    } else if id == 2 {
        match read_integer::<i16>(data, pos) {
            Ok((v, p2)) => Ok((Tag::Short(v), p2)),
            Err(e) => Err(e),
        }
    } else if id == 3 {
        match read_integer::<i32>(data, pos) {
            Ok((v, p2)) => Ok((Tag::Int(v), p2)),
            Err(e) => Err(e),
        }
    } else if id == 4 {
        match read_integer::<i64>(data, pos) {
            Ok((v, p2)) => Ok((Tag::Long(v), p2)),
            Err(e) => Err(e),
        }
    } else if id == 5 {
        match read_unsigned(data, pos, 4) {
            Ok((u, p2)) => {
                proof {
                    reveal_with_fuel(pow256, 5);
                    lemma_be_unsigned_bound(data@.subrange(pos as int, pos as int + 4));
                }
                Ok((Tag::Float(u as u32), p2))
            },
            Err(e) => Err(e),
        }
    } else if id == 6 {
        match read_unsigned(data, pos, 8) {
            Ok((u, p2)) => Ok((Tag::Double(u), p2)),
            Err(e) => Err(e),
        }
    } else if id == 7 {
        decode_byte_array(data, pos)
    } else if id == 8 {
        decode_string(data, pos)
    } else if id == 9 {
        decode_list(data, pos)
    } else if id == 10 {
        decode_compound(data, pos)
    } else if id == 11 {
        decode_int_array(data, pos)
    } else if id == 12 {
        decode_long_array(data, pos)
    } else {
        let mut msg = String::from_str("Invalid tag type: ");
        append_hex_byte(&mut msg, id);
        Err(NBTError::Decoding(msg, pos))
    }
}

/// Decodes a list payload: a one-byte element type, an `i32` count,
/// then that many unnamed payloads of the declared type. A count of
/// zero or less yields an empty list without reading any element.
fn decode_list(data: &Vec<u8>, pos: usize) -> (r: Result<(Tag, usize), NBTError>)
    requires
        pos <= data@.len(),
    ensures
        ({
            let pr = parse_payload(data@, pos as int, 9u8);
            match r {
                Ok((t, p2)) => pr == Ok::<(TagModel, int), DecodeErr>((tag_model(t), p2 as int))
                    && pos < p2 <= data@.len() && model_wf(tag_model(t)),
                Err(e) => pr == Err::<(TagModel, int), DecodeErr>(e@),
            }
        }),
    decreases data@.len() + 1 - pos, 1int,
{
    if data.len() - pos < 5 {
        return Err(NBTError::Io);
    }
    let elem_id = data[pos];
    let count = match read_integer::<i32>(data, pos + 1) {
        Ok((c, _)) => c,
        Err(_) => {
            proof {
                assert(false);
            }
            0
        },
    };
    if count <= 0 {
        let t = Tag::List(Vec::new());
        proof {
            assert(tag_model(t)->List_0 =~= Seq::<TagModel>::empty());
        }
        return Ok((t, pos + 5));
    }
    let mut out: Vec<Tag> = Vec::new();
    proof {
        assert(tag_models(out@) =~= Seq::<TagModel>::empty());
    }
    let mut cur: usize = pos + 5;
    let mut j: i32 = 0;
    while j < count
        invariant
            0 <= j <= count,
            out@.len() == j as int,
            pos + 5 <= cur <= data@.len(),
            pos + 5 <= data@.len(),
            elem_id == data@[pos as int],
            count as int == be_signed(data@.subrange(pos as int + 1, pos as int + 5)),
            count > 0,
            parse_list_elems(data@, pos as int + 5, elem_id, count as int, Seq::empty())
                == parse_list_elems(
                data@,
                cur as int,
                elem_id,
                count as int - j,
                tag_models(out@),
            ),
            forall|k: int| 0 <= k < j ==> model_wf(#[trigger] tag_models(out@)[k]),
        decreases count - j,
    {
        let ghost acc = tag_models(out@);
        match decode_by_id(data, cur, elem_id) {
            Err(e) => {
                proof {
                    assert(parse_list_elems(data@, cur as int, elem_id, count as int - j, acc)
                        == Err::<(Seq<TagModel>, int), DecodeErr>(e@));
                }
                return Err(e);
            },
            Ok((t, p2)) => {
                proof {
                    assert(next_cursor(cur as int, p2 as int, data@.len() as int) == p2 as int);
                    assert(tag_models(out@.push(t)) =~= acc.push(tag_model(t)));
                }
                out.push(t);
                cur = p2;
                j = j + 1;
            },
        }
    }
    let ghost models = tag_models(out@);
    proof {
        assert(parse_list_elems(data@, cur as int, elem_id, 0, models) == Ok::<
            (Seq<TagModel>, int),
            DecodeErr,
        >((models, cur as int)));
    }
    let t = Tag::List(out);
    proof {
        assert(tag_model(t)->List_0 =~= models);
    }
    Ok((t, cur))
}

/// Decodes a compound payload: named records until the end marker.
fn decode_compound(data: &Vec<u8>, pos: usize) -> (r: Result<(Tag, usize), NBTError>)
    requires
        pos <= data@.len(),
    ensures
        ({
            let pr = parse_payload(data@, pos as int, 10u8);
            match r {
                Ok((t, p2)) => pr == Ok::<(TagModel, int), DecodeErr>((tag_model(t), p2 as int))
                    && pos < p2 <= data@.len() && model_wf(tag_model(t)),
                Err(e) => pr == Err::<(TagModel, int), DecodeErr>(e@),
            }
        }),
    decreases data@.len() + 1 - pos, 1int,
{
    let mut entries: Vec<(String, Tag)> = Vec::new();
    proof {
        assert(entry_models(entries@) =~= Seq::<(Seq<char>, TagModel)>::empty());
    }
    let mut cur: usize = pos;
    loop
        invariant
            pos <= cur <= data@.len(),
            parse_compound_entries(data@, pos as int, Seq::empty()) == parse_compound_entries(
                data@,
                cur as int,
                entry_models(entries@),
            ),
            unique_names(entry_models(entries@)),
            forall|k: int|
                0 <= k < entries@.len() ==> model_wf(
                    (#[trigger] entry_models(entries@)[k]).1,
                ),
        decreases data@.len() - cur,
    {
        let ghost acc = entry_models(entries@);
        match decode_compound_element(data, cur) {
            Err(e) => {
                proof {
                    if cur < data@.len() {
                        assert(parse_compound_entries(data@, cur as int, acc) == Err::<
                            (Seq<(Seq<char>, TagModel)>, int),
                            DecodeErr,
                        >(e@));
                    }
                }
                return Err(e);
            },
            Ok((None, p2)) => {
                proof {
                    assert(cur < data@.len());
                    assert(parse_compound_entries(data@, cur as int, acc) == Ok::<
                        (Seq<(Seq<char>, TagModel)>, int),
                        DecodeErr,
                    >((acc, p2 as int)));
                }
                let t = Tag::Compound(entries);
                proof {
                    assert(tag_model(t)->Compound_0 =~= acc);
                }
                return Ok((t, p2));
            },
            Ok((Some((name, value)), p2)) => {
                proof {
                    assert(cur < data@.len());
                    assert(next_cursor(cur as int, p2 as int, data@.len() as int) == p2 as int);
                    lemma_upsert_unique(acc, name@, tag_model(value));
                    lemma_upsert_wf(acc, name@, tag_model(value));
                }
                upsert_entry(&mut entries, name, value);
                cur = p2;
            },
        }
    }
}

/// Decodes one named record: a type id, then — unless the id is the
/// end marker — a `u16`-length-prefixed UTF-8 name and the payload.
fn decode_compound_element(data: &Vec<u8>, pos: usize) -> (r: Result<
    (Option<(String, Tag)>, usize),
    NBTError,
>)
    requires
        pos <= data@.len(),
    ensures
        ({
            let pr = parse_named(data@, pos as int);
            match r {
                Ok((entry, p2)) => pos < p2 <= data@.len() && (match entry {
                    Option::None => pr == Ok::<(Option<(Seq<char>, TagModel)>, int), DecodeErr>(
                        (Option::None, p2 as int),
                    ),
                    Option::Some((name, t)) => pr == Ok::<
                        (Option<(Seq<char>, TagModel)>, int),
                        DecodeErr,
                    >((Option::Some((name@, tag_model(t))), p2 as int)) && model_wf(tag_model(t)),
                }),
                Err(e) => pr == Err::<(Option<(Seq<char>, TagModel)>, int), DecodeErr>(e@),
            }
        }),
    decreases data@.len() + 1 - pos, 0int,
{
    if pos >= data.len() {
        return Err(NBTError::Io);
    }
    let id = data[pos];
    if id == 0 {
        return Ok((None, pos + 1));
    }
    let nlen_u = match read_unsigned(data, pos + 1, 2) {
        Ok((u, _)) => u,
        Err(_) => {
            return Err(NBTError::Io);
        },
    };
    proof {
        reveal_with_fuel(pow256, 3);
        lemma_be_unsigned_bound(data@.subrange(pos as int + 1, pos as int + 3));
    }
    let nlen = nlen_u as usize;
    if data.len() - (pos + 3) < nlen {
        return Err(NBTError::Io);
    }
    let name_slice = slice_subrange(data.as_slice(), pos + 3, pos + 3 + nlen);
    match utf8_to_string(name_slice) {
        None => Err(NBTError::Io),
        Some(name) => match decode_by_id(data, pos + 3 + nlen, id) {
            Err(e) => Err(e),
            Ok((t, p2)) => Ok((Some((name, t)), p2)),
        },
    }
}

/// A cursor over an in-memory byte stream, from which one document is
/// decoded.
pub struct Decoder {
    data: Vec<u8>,
    pos: usize,
}

impl Decoder {
    /// The bytes the decoder reads.
    pub closed spec fn stream(&self) -> Seq<u8> {
        self.data@
    }

    /// How many bytes have been consumed.
    pub closed spec fn consumed(&self) -> int {
        self.pos as int
    }

    /// The cursor never passes the end of the data.
    pub open spec fn wf(&self) -> bool {
        0 <= self.consumed() <= self.stream().len()
    }

    /// A decoder over the given bytes, with nothing consumed yet.
    pub fn new(data: Vec<u8>) -> (r: Decoder)
        ensures
            r.stream() == data@,
            r.consumed() == 0,
            r.wf(),
    {
        Decoder { data, pos: 0 }
    }

    /// Decodes one complete named record and returns its payload (the
    /// name is discarded). A record that is just the end marker is a
    /// structural failure, not an empty result.
    pub fn decode(&mut self) -> (r: Result<Tag, NBTError>)
        requires
            old(self).wf(),
        ensures
            final(self).stream() == old(self).stream(),
            final(self).wf(),
            (match r {
                Ok(t) => parse_document(old(self).stream(), old(self).consumed()) == Ok::<
                    (TagModel, int),
                    DecodeErr,
                >((tag_model(t), final(self).consumed())) && model_wf(tag_model(t)),
                Err(e) => parse_document(old(self).stream(), old(self).consumed()) == Err::<
                    (TagModel, int),
                    DecodeErr,
                >(e@),
            }),
    {
        match decode_compound_element(&self.data, self.pos) {
            Err(e) => Err(e),
            Ok((None, p2)) => {
                self.pos = p2;
                Err(NBTError::Decoding(String::from_str("File started with an end tag"), p2))
            },
            Ok((Some(entry), p2)) => {
                self.pos = p2;
                Ok(entry.1)
            },
        }
    }
}

} // verus!
