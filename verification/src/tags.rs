//! The recursive tag data model and its SNBT text rendering.
//!
//! Rendering floating-point scalars as decimal text is the one step the
//! verifier cannot touch, so the writer produces a sequence of
//! [`SnbtPiece`]s: literal text runs, interleaved with the raw bits of
//! each floating-point scalar exactly where its decimal text belongs.
//! A caller turns a bits piece into text with the standard library's
//! formatting; for trees without floating-point scalars,
//! [`Tag::write_snbt`] joins the pieces into text here, fully verified.

use vstd::prelude::*;
use vstd::string::StringExecFns;
use crate::indentation::{line_break, IndentationType};
use crate::numeral::{append_int_text, dec_digits, int_text};

verus! {

/// One node of a decoded tag tree.
///
/// `Compound` holds its entries as an order-preserving sequence of
/// `(name, value)` pairs; the decoder keeps names unique (the last
/// occurrence of a name wins and keeps the first occurrence's place).
/// `List` elements all share one variant: the decoder reads a single
/// declared element type for the whole list.
/// `Float` and `Double` hold the raw big-endian IEEE-754 bits of the
/// wire value, which a renderer turns into text.
#[derive(Debug, PartialEq)]
pub enum Tag {
    Compound(Vec<(String, Tag)>),
    List(Vec<Tag>),
    Boolean(bool),
    Byte(i8),
    Short(i16),
    Int(i32),
    Long(i64),
    Float(u32),
    Double(u64),
    String(String),
    ByteArray(Vec<i8>),
    IntArray(Vec<i32>),
    LongArray(Vec<i64>),
}

/// The mathematical shape of a tag tree, with sequences in place of
/// vectors and character sequences in place of strings.
pub enum TagModel {
    Compound(Seq<(Seq<char>, TagModel)>),
    List(Seq<TagModel>),
    Boolean(bool),
    Byte(i8),
    Short(i16),
    Int(i32),
    Long(i64),
    Float(u32),
    Double(u64),
    String(Seq<char>),
    ByteArray(Seq<i8>),
    IntArray(Seq<i32>),
    LongArray(Seq<i64>),
}

/// The model of a tag tree.
pub open spec fn tag_model(t: Tag) -> TagModel
    decreases t,
{
    match t {
        Tag::Compound(entries) => TagModel::Compound(
            Seq::new(
                entries@.len(),
                |i: int|
                    if 0 <= i < entries@.len() {
                        (entries[i].0@, tag_model(entries[i].1))
                    } else {
                        arbitrary()
                    },
            ),
        ),
        Tag::List(elems) => TagModel::List(
            Seq::new(
                elems@.len(),
                |i: int|
                    if 0 <= i < elems@.len() {
                        tag_model(elems[i])
                    } else {
                        arbitrary()
                    },
            ),
        ),
        Tag::Boolean(v) => TagModel::Boolean(v),
        Tag::Byte(v) => TagModel::Byte(v),
        Tag::Short(v) => TagModel::Short(v),
        Tag::Int(v) => TagModel::Int(v),
        Tag::Long(v) => TagModel::Long(v),
        Tag::Float(bits) => TagModel::Float(bits),
        Tag::Double(bits) => TagModel::Double(bits),
        Tag::String(s) => TagModel::String(s@),
        Tag::ByteArray(a) => TagModel::ByteArray(a@),
        Tag::IntArray(a) => TagModel::IntArray(a@),
        Tag::LongArray(a) => TagModel::LongArray(a@),
    }
}

impl View for Tag {
    type V = TagModel;

    open spec fn view(&self) -> TagModel {
        tag_model(*self)
    }
}

/// Structural well-formedness of a tag tree: every compound's names
/// are pairwise distinct, at every depth.
pub open spec fn model_wf(m: TagModel) -> bool
    decreases m,
{
    match m {
        TagModel::Compound(entries) => (forall|i: int, j: int|
            0 <= i < j < entries.len() ==> entries[i].0 != entries[j].0) && (forall|i: int|
            0 <= i < entries.len() ==> model_wf(#[trigger] entries[i].1)),
        TagModel::List(elems) => forall|i: int|
            0 <= i < elems.len() ==> model_wf(#[trigger] elems[i]),
        _ => true,
    }
}

/// Whether a tree holds no floating-point scalar anywhere.
pub open spec fn float_free(m: TagModel) -> bool
    decreases m,
{
    match m {
        TagModel::Compound(entries) => forall|i: int|
            0 <= i < entries.len() ==> float_free(#[trigger] entries[i].1),
        TagModel::List(elems) => forall|i: int|
            0 <= i < elems.len() ==> float_free(#[trigger] elems[i]),
        TagModel::Float(_) => false,
        TagModel::Double(_) => false,
        _ => true,
    }
}

/// One piece of rendered SNBT output: a run of literal text, or the
/// raw bits of one floating-point scalar standing where its decimal
/// text belongs.
#[derive(Debug, PartialEq)]
pub enum SnbtPiece {
    Text(String),
    FloatBits(u32),
    DoubleBits(u64),
}

/// The mathematical shape of one output piece.
pub enum PieceModel {
    Text(Seq<char>),
    FloatBits(u32),
    DoubleBits(u64),
}

impl View for SnbtPiece {
    type V = PieceModel;

    open spec fn view(&self) -> PieceModel {
        match self {
            SnbtPiece::Text(s) => PieceModel::Text(s@),
            SnbtPiece::FloatBits(bits) => PieceModel::FloatBits(*bits),
            SnbtPiece::DoubleBits(bits) => PieceModel::DoubleBits(*bits),
        }
    }
}

/// The models of a sequence of pieces.
pub open spec fn piece_models(ps: Seq<SnbtPiece>) -> Seq<PieceModel> {
    ps.map_values(|p: SnbtPiece| p@)
}

/// The nesting level one step deeper, held at the type's limit so that
/// rendering stays total on trees of any depth.
pub open spec fn next_level(level: u16) -> u16 {
    if level < 65535 {
        (level + 1) as u16
    } else {
        level
    }
}

/// The pieces from index `i` on, joined by `, ` after every piece but
/// the last.
pub open spec fn items_from(parts: Seq<Seq<char>>, i: int) -> Seq<char>
    decreases parts.len() - i,
{
    if i < 0 || i >= parts.len() {
        Seq::empty()
    } else {
        parts[i] + (if i != parts.len() - 1 {
            seq![',', ' ']
        } else {
            Seq::empty()
        }) + items_from(parts, i + 1)
    }
}

/// The text of one byte-array element: the value with a `b` suffix.
pub open spec fn byte_elem_text(v: i8) -> Seq<char> {
    int_text(v as int) + seq!['b']
}

/// The text of one int-array element: the bare value.
pub open spec fn int_elem_text(v: i32) -> Seq<char> {
    int_text(v as int)
}

/// The text of one long-array element: the value with an `l` suffix.
pub open spec fn long_elem_text(v: i64) -> Seq<char> {
    int_text(v as int) + seq!['l']
}

/// `[B; ...]` with `b`-suffixed elements; an empty array is `[B; ]`.
pub open spec fn byte_array_text(a: Seq<i8>) -> Seq<char> {
    seq!['[', 'B', ';', ' '] + items_from(a.map_values(|v: i8| byte_elem_text(v)), 0) + seq![']']
}

/// `[I; ...]` with bare elements; an empty array is `[I; ]`.
pub open spec fn int_array_text(a: Seq<i32>) -> Seq<char> {
    seq!['[', 'I', ';', ' '] + items_from(a.map_values(|v: i32| int_elem_text(v)), 0) + seq![']']
}

/// `[L; ...]` with `l`-suffixed elements; an empty array is `[L; ]`.
pub open spec fn long_array_text(a: Seq<i64>) -> Seq<char> {
    seq!['[', 'L', ';', ' '] + items_from(a.map_values(|v: i64| long_elem_text(v)), 0) + seq![']']
}

/// The text of a boolean scalar.
pub open spec fn bool_text(v: bool) -> Seq<char> {
    if v {
        seq!['t', 'r', 'u', 'e']
    } else {
        seq!['f', 'a', 'l', 's', 'e']
    }
}

/// The output pieces of a tag tree rendered at nesting level `level`.
pub open spec fn snbt_pieces_of(m: TagModel, ind: IndentationType, level: u16) -> Seq<PieceModel>
    decreases m, 0int, 0int,
{
    match m {
        TagModel::Boolean(v) => seq![PieceModel::Text(bool_text(v))],
        TagModel::Byte(v) => seq![PieceModel::Text(int_text(v as int) + seq!['b'])],
        TagModel::Short(v) => seq![PieceModel::Text(int_text(v as int) + seq!['s'])],
        TagModel::Int(v) => seq![PieceModel::Text(int_text(v as int))],
        TagModel::Long(v) => seq![PieceModel::Text(int_text(v as int) + seq!['l'])],
        TagModel::Float(bits) => seq![PieceModel::FloatBits(bits), PieceModel::Text(seq!['f'])],
        TagModel::Double(bits) => seq![PieceModel::DoubleBits(bits), PieceModel::Text(seq!['d'])],
        TagModel::String(s) => seq![PieceModel::Text(seq!['"'] + s + seq!['"'])],
        TagModel::ByteArray(a) => seq![PieceModel::Text(byte_array_text(a))],
        TagModel::IntArray(a) => seq![PieceModel::Text(int_array_text(a))],
        TagModel::LongArray(a) => seq![PieceModel::Text(long_array_text(a))],
        TagModel::List(elems) => if elems.len() == 0 {
            seq![PieceModel::Text(seq!['[', ']'])]
        } else {
            seq![PieceModel::Text(seq!['['])] + list_item_pieces(elems, 0, ind, level) + seq![
                PieceModel::Text(line_break(ind, level)),
                PieceModel::Text(seq![']']),
            ]
        },
        TagModel::Compound(entries) => if entries.len() == 0 {
            seq![PieceModel::Text(seq!['{', '}'])]
        } else {
            seq![PieceModel::Text(seq!['{'])] + compound_item_pieces(entries, 0, ind, level)
                + seq![PieceModel::Text(line_break(ind, level)), PieceModel::Text(seq!['}'])]
        },
    }
}

/// The pieces of the list elements from index `i` on: each begins a
/// fresh line one level deeper, with `, ` after every element but the
/// last.
pub open spec fn list_item_pieces(
    elems: Seq<TagModel>,
    i: int,
    ind: IndentationType,
    level: u16,
) -> Seq<PieceModel>
    decreases elems, 1int, elems.len() - i,
{
    if i < 0 || i >= elems.len() {
        Seq::empty()
    } else {
        seq![PieceModel::Text(line_break(ind, next_level(level)))] + snbt_pieces_of(
            elems[i],
            ind,
            next_level(level),
        ) + (if i != elems.len() - 1 {
            seq![PieceModel::Text(seq![',', ' '])]
        } else {
            Seq::empty()
        }) + list_item_pieces(elems, i + 1, ind, level)
    }
}

/// The pieces of the compound entries from index `i` on: each begins a
/// fresh line one level deeper as `name: value`, with `, ` after every
/// entry but the last.
pub open spec fn compound_item_pieces(
    entries: Seq<(Seq<char>, TagModel)>,
    i: int,
    ind: IndentationType,
    level: u16,
) -> Seq<PieceModel>
    decreases entries, 1int, entries.len() - i,
{
    if i < 0 || i >= entries.len() {
        Seq::empty()
    } else {
        seq![PieceModel::Text(line_break(ind, next_level(level)) + entries[i].0 + seq![':', ' '])]
            + snbt_pieces_of(entries[i].1, ind, next_level(level)) + (if i != entries.len() - 1 {
            seq![PieceModel::Text(seq![',', ' '])]
        } else {
            Seq::empty()
        }) + compound_item_pieces(entries, i + 1, ind, level)
    }
}

/// The text that a run of pieces from index `i` on denotes, counting
/// only literal text pieces.
pub open spec fn pieces_text_from(ps: Seq<PieceModel>, i: int) -> Seq<char>
    decreases ps.len() - i,
{
    if i < 0 || i >= ps.len() {
        Seq::empty()
    } else {
        (match ps[i] {
            PieceModel::Text(s) => s,
            _ => Seq::empty(),
        }) + pieces_text_from(ps, i + 1)
    }
}

/// The SNBT text of a tag tree rendered at nesting level `level`.
/// For a tree without floating-point scalars this is the whole output;
/// the decimal text of a floating-point scalar is not a function this
/// library defines, so such a scalar contributes only its suffix here.
pub open spec fn snbt_text(m: TagModel, ind: IndentationType, level: u16) -> Seq<char> {
    pieces_text_from(snbt_pieces_of(m, ind, level), 0)
}


/// Whether every piece in a run is a literal text piece.
pub open spec fn all_text(ps: Seq<PieceModel>) -> bool {
    forall|i: int| 0 <= i < ps.len() ==> ps[i] is Text
}

/// A tree without floating-point scalars renders to text pieces alone.
pub proof fn lemma_float_free_pieces(m: TagModel, ind: IndentationType, level: u16)
    requires
        float_free(m),
    ensures
        all_text(snbt_pieces_of(m, ind, level)),
    decreases m, 0int, 0int,
{
    match m {
        TagModel::List(elems) => {
            if elems.len() > 0 {
                lemma_float_free_list_items(elems, 0, ind, level);
            }
        },
        TagModel::Compound(entries) => {
            if entries.len() > 0 {
                lemma_float_free_compound_items(entries, 0, ind, level);
            }
        },
        _ => {},
    }
}

proof fn lemma_float_free_list_items(elems: Seq<TagModel>, i: int, ind: IndentationType, level: u16)
    requires
        forall|j: int| 0 <= j < elems.len() ==> float_free(#[trigger] elems[j]),
    ensures
        all_text(list_item_pieces(elems, i, ind, level)),
    decreases elems, 1int, elems.len() - i,
{
    if 0 <= i < elems.len() {
        lemma_float_free_pieces(elems[i], ind, next_level(level));
        lemma_float_free_list_items(elems, i + 1, ind, level);
    }
}

proof fn lemma_float_free_compound_items(
    entries: Seq<(Seq<char>, TagModel)>,
    i: int,
    ind: IndentationType,
    level: u16,
)
    requires
        forall|j: int| 0 <= j < entries.len() ==> float_free(#[trigger] entries[j].1),
    ensures
        all_text(compound_item_pieces(entries, i, ind, level)),
    decreases entries, 1int, entries.len() - i,
{
    if 0 <= i < entries.len() {
        lemma_float_free_pieces(entries[i].1, ind, next_level(level));
        lemma_float_free_compound_items(entries, i + 1, ind, level);
    }
}

/// Whether a run of text contains no newline character.
pub open spec fn newline_free(s: Seq<char>) -> bool {
    forall|k: int| 0 <= k < s.len() ==> s[k] != '\n'
}

/// Whether every literal text piece in a run is free of newlines.
pub open spec fn pieces_newline_free(ps: Seq<PieceModel>) -> bool {
    forall|i: int|
        0 <= i < ps.len() ==> ((#[trigger] ps[i]) is Text ==> newline_free(ps[i]->Text_0))
}

/// Whether no string value and no entry name anywhere in a tree
/// contains a newline character.
pub open spec fn text_newline_free(m: TagModel) -> bool
    decreases m,
{
    match m {
        TagModel::Compound(entries) => forall|i: int|
            0 <= i < entries.len() ==> newline_free((#[trigger] entries[i]).0)
                && text_newline_free(entries[i].1),
        TagModel::List(elems) => forall|i: int|
            0 <= i < elems.len() ==> text_newline_free(#[trigger] elems[i]),
        TagModel::String(s) => newline_free(s),
        _ => true,
    }
}

proof fn lemma_dec_digits_newline_free(n: nat)
    ensures
        newline_free(dec_digits(n)),
    decreases n,
{
    if n >= 10 {
        lemma_dec_digits_newline_free(n / 10);
    }
}

proof fn lemma_int_text_newline_free(v: int)
    ensures
        newline_free(int_text(v)),
{
    if v >= 0 {
        lemma_dec_digits_newline_free(v as nat);
    } else {
        lemma_dec_digits_newline_free((-v) as nat);
    }
}

proof fn lemma_items_from_newline_free(parts: Seq<Seq<char>>, i: int)
    requires
        forall|j: int| 0 <= j < parts.len() ==> newline_free(#[trigger] parts[j]),
    ensures
        newline_free(items_from(parts, i)),
    decreases parts.len() - i,
{
    if 0 <= i < parts.len() {
        lemma_items_from_newline_free(parts, i + 1);
    }
}

proof fn lemma_byte_array_text_newline_free(a: Seq<i8>)
    ensures
        newline_free(byte_array_text(a)),
{
    let parts = a.map_values(|v: i8| byte_elem_text(v));
    assert forall|j: int| 0 <= j < parts.len() implies newline_free(#[trigger] parts[j]) by {
        lemma_int_text_newline_free(a[j] as int);
    }
    lemma_items_from_newline_free(parts, 0);
}

proof fn lemma_int_array_text_newline_free(a: Seq<i32>)
    ensures
        newline_free(int_array_text(a)),
{
    let parts = a.map_values(|v: i32| int_elem_text(v));
    assert forall|j: int| 0 <= j < parts.len() implies newline_free(#[trigger] parts[j]) by {
        lemma_int_text_newline_free(a[j] as int);
    }
    lemma_items_from_newline_free(parts, 0);
}

proof fn lemma_long_array_text_newline_free(a: Seq<i64>)
    ensures
        newline_free(long_array_text(a)),
{
    let parts = a.map_values(|v: i64| long_elem_text(v));
    assert forall|j: int| 0 <= j < parts.len() implies newline_free(#[trigger] parts[j]) by {
        lemma_int_text_newline_free(a[j] as int);
    }
    lemma_items_from_newline_free(parts, 0);
}

/// Under `SingleLine`, every text piece the writer emits is free of
/// newlines, provided the tree's own strings and names are.
pub proof fn lemma_single_line_pieces_newline_free(m: TagModel, level: u16)
    requires
        text_newline_free(m),
    ensures
        pieces_newline_free(snbt_pieces_of(m, IndentationType::SingleLine, level)),
    decreases m, 0int, 0int,
{
    let ind = IndentationType::SingleLine;
    match m {
        TagModel::Byte(v) => lemma_int_text_newline_free(v as int),
        TagModel::Short(v) => lemma_int_text_newline_free(v as int),
        TagModel::Int(v) => lemma_int_text_newline_free(v as int),
        TagModel::Long(v) => lemma_int_text_newline_free(v as int),
        TagModel::ByteArray(a) => lemma_byte_array_text_newline_free(a),
        TagModel::IntArray(a) => lemma_int_array_text_newline_free(a),
        TagModel::LongArray(a) => lemma_long_array_text_newline_free(a),
        TagModel::List(elems) => {
            if elems.len() > 0 {
                lemma_single_line_list_items_newline_free(elems, 0, level);
            }
        },
        TagModel::Compound(entries) => {
            if entries.len() > 0 {
                lemma_single_line_compound_items_newline_free(entries, 0, level);
            }
        },
        _ => {},
    }
}

proof fn lemma_single_line_list_items_newline_free(elems: Seq<TagModel>, i: int, level: u16)
    requires
        forall|j: int| 0 <= j < elems.len() ==> text_newline_free(#[trigger] elems[j]),
    ensures
        pieces_newline_free(
            list_item_pieces(elems, i, IndentationType::SingleLine, level),
        ),
    decreases elems, 1int, elems.len() - i,
{
    if 0 <= i < elems.len() {
        lemma_single_line_pieces_newline_free(elems[i], next_level(level));
        lemma_single_line_list_items_newline_free(elems, i + 1, level);
    }
}

proof fn lemma_single_line_compound_items_newline_free(
    entries: Seq<(Seq<char>, TagModel)>,
    i: int,
    level: u16,
)
    requires
        forall|j: int|
            0 <= j < entries.len() ==> newline_free((#[trigger] entries[j]).0)
                && text_newline_free(entries[j].1),
    ensures
        pieces_newline_free(
            compound_item_pieces(entries, i, IndentationType::SingleLine, level),
        ),
    decreases entries, 1int, entries.len() - i,
{
    if 0 <= i < entries.len() {
        lemma_single_line_pieces_newline_free(entries[i].1, next_level(level));
        lemma_single_line_compound_items_newline_free(entries, i + 1, level);
    }
}

proof fn lemma_pieces_text_newline_free(ps: Seq<PieceModel>, i: int)
    requires
        pieces_newline_free(ps),
    ensures
        newline_free(pieces_text_from(ps, i)),
    decreases ps.len() - i,
{
    if 0 <= i < ps.len() {
        lemma_pieces_text_newline_free(ps, i + 1);
    }
}

/// Rendering under `SingleLine` emits no newline character, at any
/// depth and for any tree whose own strings and names hold none.
pub proof fn lemma_single_line_no_newline(m: TagModel, level: u16)
    requires
        text_newline_free(m),
    ensures
        newline_free(snbt_text(m, IndentationType::SingleLine, level)),
{
    lemma_single_line_pieces_newline_free(m, level);
    lemma_pieces_text_newline_free(snbt_pieces_of(m, IndentationType::SingleLine, level), 0);
}

/// The text of a line break under `Spaces(n)` at level `L`: one
/// newline, then exactly `L * n` spaces.
pub proof fn lemma_spaces_line_break(spaces: u8, level: u16)
    ensures
        line_break(IndentationType::Spaces(spaces), level).len() == 1 + (level as int) * (
        spaces as int),
        line_break(IndentationType::Spaces(spaces), level)[0] == '\n',
        forall|k: int|
            1 <= k < 1 + (level as int) * (spaces as int) ==> line_break(
                IndentationType::Spaces(spaces),
                level,
            )[k] == ' ',
{
}

/// The three empty containers render to fixed text under every
/// indentation policy and at every level: `{}`, `[]` and `[B; ]`.
pub proof fn lemma_empty_renderings(ind: IndentationType, level: u16)
    ensures
        snbt_text(TagModel::Compound(Seq::empty()), ind, level) == seq!['{', '}'],
        snbt_text(TagModel::List(Seq::empty()), ind, level) == seq!['[', ']'],
        snbt_text(TagModel::ByteArray(Seq::empty()), ind, level) == seq!['[', 'B', ';', ' ', ']'],
{
    assert(pieces_text_from(snbt_pieces_of(TagModel::Compound(Seq::empty()), ind, level), 1)
        =~= Seq::<char>::empty());
    assert(pieces_text_from(snbt_pieces_of(TagModel::List(Seq::empty()), ind, level), 1)
        =~= Seq::<char>::empty());
    assert(pieces_text_from(snbt_pieces_of(TagModel::ByteArray(Seq::empty()), ind, level), 1)
        =~= Seq::<char>::empty());
    assert(snbt_text(TagModel::Compound(Seq::empty()), ind, level) =~= seq!['{', '}']);
    assert(snbt_text(TagModel::List(Seq::empty()), ind, level) =~= seq!['[', ']']);
    let parts = Seq::<i8>::empty().map_values(|v: i8| byte_elem_text(v));
    assert(items_from(parts, 0) =~= Seq::<char>::empty());
    assert(snbt_text(TagModel::ByteArray(Seq::empty()), ind, level) =~= seq![
        '[',
        'B',
        ';',
        ' ',
        ']',
    ]);
}

/// Pushes one literal text piece.
fn push_text(out: &mut Vec<SnbtPiece>, s: String)
    ensures
        piece_models(final(out)@) == piece_models(old(out)@).push(PieceModel::Text(s@)),
{
    let ghost s_view = s@;
    out.push(SnbtPiece::Text(s));
    proof {
        assert(piece_models(out@) =~= piece_models(old(out)@).push(PieceModel::Text(s_view)));
    }
}

/// Appends `[B; ...]` for a byte array.
fn append_byte_array(target: &mut String, a: &Vec<i8>)
    ensures
        final(target)@ == old(target)@ + byte_array_text(a@),
{
    let ghost parts = a@.map_values(|v: i8| byte_elem_text(v));
    proof {
        reveal_strlit("[B; ");
        reveal_strlit("b");
        reveal_strlit(", ");
        reveal_strlit("]");
    }
    target.append("[B; ");
    let mut i: usize = 0;
    while i < a.len()
        invariant
            i <= a@.len(),
            parts == a@.map_values(|v: i8| byte_elem_text(v)),
            target@ + items_from(parts, i as int) == old(target)@ + seq!['[', 'B', ';', ' ']
                + items_from(parts, 0),
        decreases a@.len() - i,
    {
        proof {
            reveal_strlit("b");
            reveal_strlit(", ");
        }
        let ghost before = target@;
        append_int_text(target, a[i] as i64);
        target.append("b");
        if i != a.len() - 1 {
            target.append(", ");
        }
        proof {
            assert(parts[i as int] == byte_elem_text(a@[i as int]));
            if i != a.len() - 1 {
                assert(target@ =~= before + (parts[i as int] + seq![',', ' ']));
            } else {
                assert(target@ =~= before + (parts[i as int] + Seq::<char>::empty()));
            }
            assert(target@ + items_from(parts, i + 1) =~= before + items_from(parts, i as int));
        }
        i = i + 1;
    }
    proof {
        reveal_strlit("]");
    }
    target.append("]");
    proof {
        assert(target@ =~= old(target)@ + byte_array_text(a@));
    }
}

/// Appends `[I; ...]` for an int array.
fn append_int_array(target: &mut String, a: &Vec<i32>)
    ensures
        final(target)@ == old(target)@ + int_array_text(a@),
{
    let ghost parts = a@.map_values(|v: i32| int_elem_text(v));
    proof {
        reveal_strlit("[I; ");
        reveal_strlit(", ");
        reveal_strlit("]");
    }
    target.append("[I; ");
    let mut i: usize = 0;
    while i < a.len()
        invariant
            i <= a@.len(),
            parts == a@.map_values(|v: i32| int_elem_text(v)),
            target@ + items_from(parts, i as int) == old(target)@ + seq!['[', 'I', ';', ' ']
                + items_from(parts, 0),
        decreases a@.len() - i,
    {
        proof {
            reveal_strlit(", ");
        }
        let ghost before = target@;
        append_int_text(target, a[i] as i64);
        if i != a.len() - 1 {
            target.append(", ");
        }
        proof {
            assert(parts[i as int] == int_elem_text(a@[i as int]));
            if i != a.len() - 1 {
                assert(target@ =~= before + (parts[i as int] + seq![',', ' ']));
            } else {
                assert(target@ =~= before + (parts[i as int] + Seq::<char>::empty()));
            }
            assert(target@ + items_from(parts, i + 1) =~= before + items_from(parts, i as int));
        }
        i = i + 1;
    }
    proof {
        reveal_strlit("]");
    }
    target.append("]");
    proof {
        assert(target@ =~= old(target)@ + int_array_text(a@));
    }
}

/// Appends `[L; ...]` for a long array.
fn append_long_array(target: &mut String, a: &Vec<i64>)
    ensures
        final(target)@ == old(target)@ + long_array_text(a@),
{
    let ghost parts = a@.map_values(|v: i64| long_elem_text(v));
    proof {
        reveal_strlit("[L; ");
        reveal_strlit("l");
        reveal_strlit(", ");
        reveal_strlit("]");
    }
    target.append("[L; ");
    let mut i: usize = 0;
    while i < a.len()
        invariant
            i <= a@.len(),
            parts == a@.map_values(|v: i64| long_elem_text(v)),
            target@ + items_from(parts, i as int) == old(target)@ + seq!['[', 'L', ';', ' ']
                + items_from(parts, 0),
        decreases a@.len() - i,
    {
        proof {
            reveal_strlit("l");
            reveal_strlit(", ");
        }
        let ghost before = target@;
        append_int_text(target, a[i]);
        target.append("l");
        if i != a.len() - 1 {
            target.append(", ");
        }
        proof {
            assert(parts[i as int] == long_elem_text(a@[i as int]));
            if i != a.len() - 1 {
                assert(target@ =~= before + (parts[i as int] + seq![',', ' ']));
            } else {
                assert(target@ =~= before + (parts[i as int] + Seq::<char>::empty()));
            }
            assert(target@ + items_from(parts, i + 1) =~= before + items_from(parts, i as int));
        }
        i = i + 1;
    }
    proof {
        reveal_strlit("]");
    }
    target.append("]");
    proof {
        assert(target@ =~= old(target)@ + long_array_text(a@));
    }
}

impl Tag {
    /// Emits the output pieces of this tag at the given nesting level.
    fn write_pieces_part(&self, out: &mut Vec<SnbtPiece>, indent: IndentationType, level: u16)
        ensures
            piece_models(final(out)@) == piece_models(old(out)@) + snbt_pieces_of(
                self@,
                indent,
                level,
            ),
        decreases *self,
    {
        match self {
            Tag::Boolean(val) => {
                proof {
                    reveal_strlit("true");
                    reveal_strlit("false");
                }
                let s = if *val {
                    String::from_str("true")
                } else {
                    String::from_str("false")
                };
                proof {
                    assert(s@ =~= bool_text(*val));
                }
                push_text(out, s);
                proof {
                    assert(piece_models(out@) =~= piece_models(old(out)@) + snbt_pieces_of(
                        self@,
                        indent,
                        level,
                    ));
                }
            },
            Tag::Byte(val) => {
                let mut s = String::new();
                append_int_text(&mut s, *val as i64);
                proof {
                    reveal_strlit("b");
                }
                s.append("b");
                proof {
                    assert(s@ =~= int_text(*val as int) + seq!['b']);
                }
                push_text(out, s);
                proof {
                    assert(piece_models(out@) =~= piece_models(old(out)@) + snbt_pieces_of(
                        self@,
                        indent,
                        level,
                    ));
                }
            },
            Tag::Short(val) => {
                let mut s = String::new();
                append_int_text(&mut s, *val as i64);
                proof {
                    reveal_strlit("s");
                }
                s.append("s");
                proof {
                    assert(s@ =~= int_text(*val as int) + seq!['s']);
                }
                push_text(out, s);
                proof {
                    assert(piece_models(out@) =~= piece_models(old(out)@) + snbt_pieces_of(
                        self@,
                        indent,
                        level,
                    ));
                }
            },
            Tag::Int(val) => {
                let mut s = String::new();
                append_int_text(&mut s, *val as i64);
                proof {
                    assert(s@ =~= int_text(*val as int));
                }
                push_text(out, s);
                proof {
                    assert(piece_models(out@) =~= piece_models(old(out)@) + snbt_pieces_of(
                        self@,
                        indent,
                        level,
                    ));
                }
            },
            Tag::Long(val) => {
                let mut s = String::new();
                append_int_text(&mut s, *val);
                proof {
                    reveal_strlit("l");
                }
                s.append("l");
                proof {
                    assert(s@ =~= int_text(*val as int) + seq!['l']);
                }
                push_text(out, s);
                proof {
                    assert(piece_models(out@) =~= piece_models(old(out)@) + snbt_pieces_of(
                        self@,
                        indent,
                        level,
                    ));
                }
            },
            Tag::Float(bits) => {
                out.push(SnbtPiece::FloatBits(*bits));
                proof {
                    reveal_strlit("f");
                }
                let s = String::from_str("f");
                proof {
                    assert(s@ =~= seq!['f']);
                }
                push_text(out, s);
                proof {
                    assert(piece_models(out@) =~= piece_models(old(out)@) + snbt_pieces_of(
                        self@,
                        indent,
                        level,
                    ));
                }
            },
            Tag::Double(bits) => {
                out.push(SnbtPiece::DoubleBits(*bits));
                proof {
                    reveal_strlit("d");
                }
                let s = String::from_str("d");
                proof {
                    assert(s@ =~= seq!['d']);
                }
                push_text(out, s);
                proof {
                    assert(piece_models(out@) =~= piece_models(old(out)@) + snbt_pieces_of(
                        self@,
                        indent,
                        level,
                    ));
                }
            },
            Tag::String(val) => {
                proof {
                    reveal_strlit("\"");
                }
                let mut s = String::from_str("\"");
                s.append(val.as_str());
                s.append("\"");
                proof {
                    assert(s@ =~= seq!['"'] + val@ + seq!['"']);
                }
                push_text(out, s);
                proof {
                    assert(piece_models(out@) =~= piece_models(old(out)@) + snbt_pieces_of(
                        self@,
                        indent,
                        level,
                    ));
                }
            },
            Tag::ByteArray(a) => {
                let mut s = String::new();
                append_byte_array(&mut s, a);
                push_text(out, s);
                proof {
                    assert(piece_models(out@) =~= piece_models(old(out)@) + snbt_pieces_of(
                        self@,
                        indent,
                        level,
                    ));
                }
            },
            Tag::IntArray(a) => {
                let mut s = String::new();
                append_int_array(&mut s, a);
                push_text(out, s);
                proof {
                    assert(piece_models(out@) =~= piece_models(old(out)@) + snbt_pieces_of(
                        self@,
                        indent,
                        level,
                    ));
                }
            },
            Tag::LongArray(a) => {
                let mut s = String::new();
                append_long_array(&mut s, a);
                push_text(out, s);
                proof {
                    assert(piece_models(out@) =~= piece_models(old(out)@) + snbt_pieces_of(
                        self@,
                        indent,
                        level,
                    ));
                }
            },
            Tag::List(list) => {
                let ghost elems = self@->List_0;
                if list.len() == 0 {
                    proof {
                        reveal_strlit("[]");
                    }
                    let s = String::from_str("[]");
                    proof {
                        assert(s@ =~= seq!['[', ']']);
                    }
                    push_text(out, s);
                    proof {
                        assert(piece_models(out@) =~= piece_models(old(out)@) + snbt_pieces_of(
                            self@,
                            indent,
                            level,
                        ));
                    }
                } else {
                    proof {
                        reveal_strlit("[");
                        reveal_strlit("]");
                        reveal_strlit(", ");
                    }
                    let s = String::from_str("[");
                    proof {
                        assert(s@ =~= seq!['[']);
                    }
                    push_text(out, s);
                    let lvl1 = if level < 65535 {
                        level + 1
                    } else {
                        level
                    };
                    let mut i: usize = 0;
                    while i < list.len()
                        invariant
                            i <= list@.len(),
                            list@.len() > 0,
                            lvl1 == next_level(level),
                            *self == Tag::List(*list),
                            elems == self@->List_0,
                            elems.len() == list@.len(),
                            piece_models(out@) + list_item_pieces(elems, i as int, indent, level)
                                == piece_models(old(out)@) + seq![PieceModel::Text(seq!['['])]
                                + list_item_pieces(elems, 0, indent, level),
                        decreases list@.len() - i,
                    {
                        let ghost before = piece_models(out@);
                        let mut lead = String::new();
                        indent.begin_line(&mut lead, lvl1);
                        push_text(out, lead);
                        let val = &list[i];
                        proof {
                            assert(elems[i as int] == tag_model(list@[i as int]));
                        }
                        val.write_pieces_part(out, indent, lvl1);
                        if i != list.len() - 1 {
                            proof {
                                reveal_strlit(", ");
                            }
                            let sep = String::from_str(", ");
                            proof {
                                assert(sep@ =~= seq![',', ' ']);
                            }
                            push_text(out, sep);
                            proof {
                                assert(piece_models(out@) =~= before + (seq![
                                    PieceModel::Text(line_break(indent, next_level(level))),
                                ] + snbt_pieces_of(elems[i as int], indent, next_level(level))
                                    + seq![PieceModel::Text(seq![',', ' '])]));
                            }
                        } else {
                            proof {
                                assert(piece_models(out@) =~= before + (seq![
                                    PieceModel::Text(line_break(indent, next_level(level))),
                                ] + snbt_pieces_of(elems[i as int], indent, next_level(level))
                                    + Seq::<PieceModel>::empty()));
                            }
                        }
                        proof {
                            assert(piece_models(out@) + list_item_pieces(
                                elems,
                                i + 1,
                                indent,
                                level,
                            ) =~= before + list_item_pieces(elems, i as int, indent, level));
                        }
                        i = i + 1;
                    }
                    let mut close_lead = String::new();
                    indent.begin_line(&mut close_lead, level);
                    push_text(out, close_lead);
                    proof {
                        reveal_strlit("]");
                    }
                    let closer = String::from_str("]");
                    proof {
                        assert(closer@ =~= seq![']']);
                    }
                    push_text(out, closer);
                    proof {
                        assert(piece_models(out@) =~= piece_models(old(out)@) + snbt_pieces_of(
                            self@,
                            indent,
                            level,
                        ));
                    }
                }
            },
            Tag::Compound(comp) => {
                let ghost entries = self@->Compound_0;
                if comp.len() == 0 {
                    proof {
                        reveal_strlit("{}");
                    }
                    let s = String::from_str("{}");
                    proof {
                        assert(s@ =~= seq!['{', '}']);
                    }
                    push_text(out, s);
                    proof {
                        assert(piece_models(out@) =~= piece_models(old(out)@) + snbt_pieces_of(
                            self@,
                            indent,
                            level,
                        ));
                    }
                } else {
                    proof {
                        reveal_strlit("{");
                        reveal_strlit("}");
                        reveal_strlit(": ");
                        reveal_strlit(", ");
                    }
                    let s = String::from_str("{");
                    proof {
                        assert(s@ =~= seq!['{']);
                    }
                    push_text(out, s);
                    let lvl1 = if level < 65535 {
                        level + 1
                    } else {
                        level
                    };
                    let mut i: usize = 0;
                    while i < comp.len()
                        invariant
                            i <= comp@.len(),
                            comp@.len() > 0,
                            lvl1 == next_level(level),
                            *self == Tag::Compound(*comp),
                            entries == self@->Compound_0,
                            entries.len() == comp@.len(),
                            piece_models(out@) + compound_item_pieces(
                                entries,
                                i as int,
                                indent,
                                level,
                            ) == piece_models(old(out)@) + seq![PieceModel::Text(seq!['{'])]
                                + compound_item_pieces(entries, 0, indent, level),
                        decreases comp@.len() - i,
                    {
                        let ghost before = piece_models(out@);
                        proof {
                            reveal_strlit(": ");
                        }
                        let mut lead = String::new();
                        indent.begin_line(&mut lead, lvl1);
                        let entry = &comp[i];
                        lead.append(entry.0.as_str());
                        lead.append(": ");
                        proof {
                            assert(entries[i as int].0 == comp@[i as int].0@);
                            assert(entries[i as int].1 == tag_model(comp@[i as int].1));
                            assert(lead@ =~= line_break(indent, next_level(level))
                                + entries[i as int].0 + seq![':', ' ']);
                        }
                        push_text(out, lead);
                        entry.1.write_pieces_part(out, indent, lvl1);
                        if i != comp.len() - 1 {
                            proof {
                                reveal_strlit(", ");
                            }
                            let sep = String::from_str(", ");
                            proof {
                                assert(sep@ =~= seq![',', ' ']);
                            }
                            push_text(out, sep);
                            proof {
                                assert(piece_models(out@) =~= before + (seq![
                                    PieceModel::Text(
                                        line_break(indent, next_level(level))
                                            + entries[i as int].0 + seq![':', ' '],
                                    ),
                                ] + snbt_pieces_of(entries[i as int].1, indent, next_level(level))
                                    + seq![PieceModel::Text(seq![',', ' '])]));
                            }
                        } else {
                            proof {
                                assert(piece_models(out@) =~= before + (seq![
                                    PieceModel::Text(
                                        line_break(indent, next_level(level))
                                            + entries[i as int].0 + seq![':', ' '],
                                    ),
                                ] + snbt_pieces_of(entries[i as int].1, indent, next_level(level))
                                    + Seq::<PieceModel>::empty()));
                            }
                        }
                        proof {
                            assert(piece_models(out@) + compound_item_pieces(
                                entries,
                                i + 1,
                                indent,
                                level,
                            ) =~= before + compound_item_pieces(entries, i as int, indent, level));
                        }
                        i = i + 1;
                    }
                    let mut close_lead = String::new();
                    indent.begin_line(&mut close_lead, level);
                    push_text(out, close_lead);
                    proof {
                        reveal_strlit("}");
                    }
                    let closer = String::from_str("}");
                    proof {
                        assert(closer@ =~= seq!['}']);
                    }
                    push_text(out, closer);
                    proof {
                        assert(piece_models(out@) =~= piece_models(old(out)@) + snbt_pieces_of(
                            self@,
                            indent,
                            level,
                        ));
                    }
                }
            },
        }
    }


    /// Whether this tree holds no floating-point scalar, so that
    /// [`Tag::write_snbt`] can render all of it to text.
    pub fn is_float_free(&self) -> (r: bool)
        ensures
            r == float_free(tag_model(*self)),
        decreases *self,
    {
        match self {
            Tag::Float(_) => false,
            Tag::Double(_) => false,
            Tag::List(list) => {
                let ghost elems = tag_model(*self)->List_0;
                let mut i: usize = 0;
                while i < list.len()
                    invariant
                        i <= list@.len(),
                        *self == Tag::List(*list),
                        elems == tag_model(*self)->List_0,
                        elems.len() == list@.len(),
                        forall|k: int| 0 <= k < i ==> float_free(#[trigger] elems[k]),
                    decreases list@.len() - i,
                {
                    let element = &list[i];
                    proof {
                        assert(elems[i as int] == tag_model(list@[i as int]));
                    }
                    if !element.is_float_free() {
                        return false;
                    }
                    i = i + 1;
                }
                true
            },
            Tag::Compound(comp) => {
                let ghost entries = tag_model(*self)->Compound_0;
                let mut i: usize = 0;
                while i < comp.len()
                    invariant
                        i <= comp@.len(),
                        *self == Tag::Compound(*comp),
                        entries == tag_model(*self)->Compound_0,
                        entries.len() == comp@.len(),
                        forall|k: int| 0 <= k < i ==> float_free((#[trigger] entries[k]).1),
                    decreases comp@.len() - i,
                {
                    let entry = &comp[i];
                    proof {
                        assert(entries[i as int].1 == tag_model(comp@[i as int].1));
                    }
                    if !entry.1.is_float_free() {
                        return false;
                    }
                    i = i + 1;
                }
                true
            },
            _ => true,
        }
    }

    /// Renders this tag as SNBT text appended to `target`, for a tree
    /// that holds no floating-point scalar.
    pub fn write_snbt(&self, target: &mut String, indent: IndentationType)
        requires
            float_free(tag_model(*self)),
        ensures
            final(target)@ == old(target)@ + snbt_text(tag_model(*self), indent, 0),
    {
        let pieces = self.snbt_pieces(indent);
        proof {
            lemma_float_free_pieces(self@, indent, 0);
        }
        let ghost pms = piece_models(pieces@);
        let mut i: usize = 0;
        while i < pieces.len()
            invariant
                i <= pieces@.len(),
                pms == piece_models(pieces@),
                all_text(pms),
                pms == snbt_pieces_of(tag_model(*self), indent, 0),
                target@ + pieces_text_from(pms, i as int) == old(target)@ + pieces_text_from(
                    pms,
                    0,
                ),
            decreases pieces@.len() - i,
        {
            let ghost before = target@;
            let piece = &pieces[i];
            match piece {
                SnbtPiece::Text(s) => {
                    target.append(s.as_str());
                },
                SnbtPiece::FloatBits(_) => {
                    proof {
                        assert(pms[i as int] is Text);
                        assert(false);
                    }
                },
                SnbtPiece::DoubleBits(_) => {
                    proof {
                        assert(pms[i as int] is Text);
                        assert(false);
                    }
                },
            }
            proof {
                assert(target@ + pieces_text_from(pms, i + 1) =~= before + pieces_text_from(
                    pms,
                    i as int,
                ));
            }
            i = i + 1;
        }
        proof {
            assert(target@ =~= old(target)@ + snbt_text(tag_model(*self), indent, 0));
        }
    }

    /// Renders this tag as a sequence of SNBT output pieces under the
    /// given indentation policy.
    pub fn snbt_pieces(&self, indent: IndentationType) -> (r: Vec<SnbtPiece>)
        ensures
            piece_models(r@) == snbt_pieces_of(self@, indent, 0),
    {
        let mut out: Vec<SnbtPiece> = Vec::new();
        self.write_pieces_part(&mut out, indent, 0);
        proof {
            assert(piece_models(out@) =~= snbt_pieces_of(self@, indent, 0));
        }
        out
    }
}

} // verus!
