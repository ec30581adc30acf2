//! The configuration tree: field descriptors, values, nodes, and the rules by
//! which a leaf is shown as text and set from text.
use vstd::prelude::*;
use vstd::string::*;
use crate::text::{
    all_digits, decimal, int_text, int_value_of, is_digit, lemma_decimal, lemma_int_text_round_trip,
    lemma_strip_quoted, parse_int, push_char, push_decimal, quote_text, quoted, strip_quotes, within,
};

verus! {

/// The type of a field, as its schema declares it.
#[derive(Clone, Copy, Debug, PartialEq, Eq, Structural)]
pub enum FieldType {
    String,
    Bool,
    I8,
    I16,
    I32,
    I64,
    I128,
    Isize,
    U8,
    U16,
    U32,
    U64,
    U128,
    Usize,
    F32,
    F64,
    Nested,
    Unknown,
}

/// Every way in which an edit or a descent can fail.
#[derive(Clone, Copy, Debug, PartialEq, Eq, Structural)]
pub enum ConfigError {
    /// No field of that name at this level.
    NotFound,
    /// A descent was attempted through a leaf.
    NotNested,
    /// A nested field holds no value to descend into.
    AccessFailed,
    /// A subtree of another shape was handed back to a nested field.
    TypeMismatch,
    /// The text does not convert to the field's type.
    ParseError,
    /// An edit was asked for with no path at all.
    EmptyPath,
    /// A document could not be read or written in its format.
    FormatError,
    /// Storage failed.
    IoError,
}

/// The descriptor of one field: its name, its flags and its type.
#[derive(Clone, Debug, PartialEq, Eq)]
pub struct FieldMetadata {
    pub name: String,
    pub is_nested: bool,
    pub is_option: bool,
    pub is_vec: bool,
    pub field_type: FieldType,
}

/// One primitive value.
#[derive(Clone, Debug, PartialEq, Eq)]
pub enum Scalar {
    Bool(bool),
    Signed(i128),
    Unsigned(u128),
    Text(String),
}

/// What a field holds.
#[derive(Debug, PartialEq, Eq)]
pub enum FieldValue {
    /// An optional field that holds nothing.
    Unset,
    Leaf(Scalar),
    /// A repeated field; shown, never entered or edited.
    List(Vec<Scalar>),
    Nested(ConfigNode),
}

#[derive(Debug, PartialEq, Eq)]
pub struct ConfigField {
    pub meta: FieldMetadata,
    pub value: FieldValue,
}

/// One structure of the tree: a title (its type's name) and its fields in order.
#[derive(Debug, PartialEq, Eq)]
pub struct ConfigNode {
    pub title: String,
    pub fields: Vec<ConfigField>,
}

/// What a leaf holds, as a mathematical value.
pub enum LeafModel {
    Unset,
    Bool(bool),
    Int(int),
    Text(Seq<char>),
}

pub open spec fn is_integer(t: FieldType) -> bool {
    match t {
        FieldType::I8 | FieldType::I16 | FieldType::I32 | FieldType::I64 | FieldType::I128
        | FieldType::Isize | FieldType::U8 | FieldType::U16 | FieldType::U32 | FieldType::U64
        | FieldType::U128 | FieldType::Usize => true,
        _ => false,
    }
}

pub open spec fn is_signed(t: FieldType) -> bool {
    match t {
        FieldType::I8 | FieldType::I16 | FieldType::I32 | FieldType::I64 | FieldType::I128
        | FieldType::Isize => true,
        _ => false,
    }
}

/// The magnitude of the least value of an integer type.
pub open spec fn neg_limit(t: FieldType) -> u128 {
    match t {
        FieldType::I8 => 0x80,
        FieldType::I16 => 0x8000,
        FieldType::I32 => 0x8000_0000,
        FieldType::I64 => 0x8000_0000_0000_0000,
        FieldType::I128 => 0x8000_0000_0000_0000_0000_0000_0000_0000,
        FieldType::Isize => (isize::MAX as u128 + 1) as u128,
        _ => 0,
    }
}

/// The greatest value of an integer type.
pub open spec fn pos_limit(t: FieldType) -> u128 {
    match t {
        FieldType::I8 => 0x7f,
        FieldType::I16 => 0x7fff,
        FieldType::I32 => 0x7fff_ffff,
        FieldType::I64 => 0x7fff_ffff_ffff_ffff,
        FieldType::I128 => 0x7fff_ffff_ffff_ffff_ffff_ffff_ffff_ffff,
        FieldType::Isize => isize::MAX as u128,
        FieldType::U8 => 0xff,
        FieldType::U16 => 0xffff,
        FieldType::U32 => 0xffff_ffff,
        FieldType::U64 => 0xffff_ffff_ffff_ffff,
        FieldType::U128 => 0xffff_ffff_ffff_ffff_ffff_ffff_ffff_ffff,
        FieldType::Usize => usize::MAX as u128,
        _ => 0,
    }
}

fn type_limits(t: FieldType) -> (r: (u128, u128))
    ensures
        r == (neg_limit(t), pos_limit(t)),
{
    match t {
        FieldType::I8 => (0x80, 0x7f),
        FieldType::I16 => (0x8000, 0x7fff),
        FieldType::I32 => (0x8000_0000, 0x7fff_ffff),
        FieldType::I64 => (0x8000_0000_0000_0000, 0x7fff_ffff_ffff_ffff),
        FieldType::I128 => (
            0x8000_0000_0000_0000_0000_0000_0000_0000,
            0x7fff_ffff_ffff_ffff_ffff_ffff_ffff_ffff,
        ),
        FieldType::Isize => (isize::MAX as u128 + 1, isize::MAX as u128),
        FieldType::U8 => (0, 0xff),
        FieldType::U16 => (0, 0xffff),
        FieldType::U32 => (0, 0xffff_ffff),
        FieldType::U64 => (0, 0xffff_ffff_ffff_ffff),
        FieldType::U128 => (0, 0xffff_ffff_ffff_ffff_ffff_ffff_ffff_ffff),
        FieldType::Usize => (0, usize::MAX as u128),
        _ => (0, 0),
    }
}

pub open spec fn true_text() -> Seq<char> {
    seq!['t', 'r', 'u', 'e']
}

pub open spec fn false_text() -> Seq<char> {
    seq!['f', 'a', 'l', 's', 'e']
}

/// What an optional field that holds nothing shows.
pub open spec fn unset_marker() -> Seq<char> {
    seq!['<', 'n', 'o', 't', ' ', 's', 'e', 't', '>']
}

pub open spec fn scalar_text(s: Scalar) -> Seq<char> {
    match s {
        Scalar::Bool(b) => if b {
            true_text()
        } else {
            false_text()
        },
        Scalar::Signed(n) => int_text(n as int),
        Scalar::Unsigned(n) => int_text(n as int),
        Scalar::Text(t) => quoted(t@),
    }
}

/// The texts of `items`, separated by a comma and a space.
pub open spec fn list_body(items: Seq<Scalar>) -> Seq<char>
    decreases items.len(),
{
    if items.len() == 0 {
        Seq::empty()
    } else if items.len() == 1 {
        scalar_text(items[0])
    } else {
        list_body(items.drop_last()) + seq![',', ' '] + scalar_text(items.last())
    }
}

/// The text in which a value is shown.
pub open spec fn value_text(v: FieldValue) -> Seq<char> {
    match v {
        FieldValue::Unset => unset_marker(),
        FieldValue::Leaf(s) => scalar_text(s),
        FieldValue::List(items) => seq!['['] + list_body(items@) + seq![']'],
        FieldValue::Nested(n) => n.title@,
    }
}

pub open spec fn scalar_model(s: Scalar) -> LeafModel {
    match s {
        Scalar::Bool(b) => LeafModel::Bool(b),
        Scalar::Signed(n) => LeafModel::Int(n as int),
        Scalar::Unsigned(n) => LeafModel::Int(n as int),
        Scalar::Text(t) => LeafModel::Text(t@),
    }
}

/// What a leaf holds; `None` for a list or a subtree.
pub open spec fn value_model(v: FieldValue) -> Option<LeafModel> {
    match v {
        FieldValue::Unset => Some(LeafModel::Unset),
        FieldValue::Leaf(s) => Some(scalar_model(s)),
        _ => None,
    }
}

pub open spec fn scalar_fits(s: Scalar, t: FieldType) -> bool {
    match s {
        Scalar::Bool(_) => t == FieldType::Bool,
        Scalar::Signed(n) => is_integer(t) && is_signed(t) && within(n as int, neg_limit(t), pos_limit(t)),
        Scalar::Unsigned(n) => is_integer(t) && !is_signed(t) && n <= pos_limit(t),
        Scalar::Text(_) => t == FieldType::String,
    }
}

/// The value agrees with what the descriptor declares.
pub open spec fn value_fits(meta: FieldMetadata, v: FieldValue) -> bool {
    match v {
        FieldValue::Unset => meta.is_option,
        FieldValue::Leaf(s) => !meta.is_nested && !meta.is_vec && scalar_fits(s, meta.field_type),
        FieldValue::List(items) => meta.is_vec && !meta.is_nested && forall|i: int|
            0 <= i < items.len() ==> scalar_fits(#[trigger] items@[i], meta.field_type),
        FieldValue::Nested(_) => meta.is_nested && !meta.is_vec,
    }
}

/// What `text` sets a field of this descriptor to, or `None` where it does
/// not convert; `unset` tells whether the field holds nothing now. On an
/// optional field the unset marker clears it, except on a string field that
/// holds text: there the marker is text like any other, since the row of such
/// a field never shows the bare marker.
pub open spec fn parse_leaf(meta: FieldMetadata, unset: bool, text: Seq<char>) -> Option<LeafModel> {
    if meta.is_nested || meta.is_vec {
        None
    } else if meta.is_option && text == unset_marker() && (unset || meta.field_type
        != FieldType::String) {
        Some(LeafModel::Unset)
    } else if meta.field_type == FieldType::String {
        Some(LeafModel::Text(text))
    } else if meta.field_type == FieldType::Bool {
        if text == true_text() {
            Some(LeafModel::Bool(true))
        } else if text == false_text() {
            Some(LeafModel::Bool(false))
        } else {
            None
        }
    } else if is_integer(meta.field_type) {
        match int_value_of(text, is_signed(meta.field_type)) {
            Some(v) => if within(v, neg_limit(meta.field_type), pos_limit(meta.field_type)) {
                Some(LeafModel::Int(v))
            } else {
                None
            },
            None => None,
        }
    } else {
        None
    }
}

/// The text that an edit of this value starts from: a string's content
/// without its quotes, any other value's text as shown.
pub open spec fn edit_text(t: FieldType, shown: Seq<char>) -> Seq<char> {
    if t == FieldType::String {
        strip_quotes(shown)
    } else {
        shown
    }
}

pub fn same_text(a: &str, b: &str) -> (r: bool)
    ensures
        r == (a@ == b@),
{
    String::from_str(a) == String::from_str(b)
}

pub fn true_string() -> (r: String)
    ensures
        r@ == true_text(),
{
    proof {
        reveal_strlit("true");
    }
    let r = String::from_str("true");
    assert(r@ =~= true_text());
    r
}

pub fn false_string() -> (r: String)
    ensures
        r@ == false_text(),
{
    proof {
        reveal_strlit("false");
    }
    let r = String::from_str("false");
    assert(r@ =~= false_text());
    r
}

pub fn unset_string() -> (r: String)
    ensures
        r@ == unset_marker(),
{
    proof {
        reveal_strlit("<not set>");
    }
    let r = String::from_str("<not set>");
    assert(r@ =~= unset_marker());
    r
}

impl FieldValue {
    pub fn is_unset(&self) -> (r: bool)
        ensures
            r == (*self is Unset),
    {
        match self {
            FieldValue::Unset => true,
            _ => false,
        }
    }
}

fn integer_kind(t: FieldType) -> (r: (bool, bool))
    ensures
        r == (is_integer(t), is_signed(t)),
{
    match t {
        FieldType::I8 | FieldType::I16 | FieldType::I32 | FieldType::I64 | FieldType::I128
        | FieldType::Isize => (true, true),
        FieldType::U8 | FieldType::U16 | FieldType::U32 | FieldType::U64 | FieldType::U128
        | FieldType::Usize => (true, false),
        _ => (false, false),
    }
}

/// The text of one primitive value.
pub fn scalar_to_text(s: &Scalar) -> (r: String)
    ensures
        r@ == scalar_text(*s),
{
    match s {
        Scalar::Bool(b) => if *b {
            true_string()
        } else {
            false_string()
        },
        Scalar::Signed(n) => {
            let mut r = String::new();
            if *n < 0 {
                push_char(&mut r, '-');
                let m: u128 = (-(*n + 1)) as u128 + 1;
                push_decimal(&mut r, m);
                assert(r@ =~= int_text(*n as int));
            } else {
                push_decimal(&mut r, *n as u128);
                assert(r@ =~= int_text(*n as int));
            }
            r
        },
        Scalar::Unsigned(n) => {
            let mut r = String::new();
            push_decimal(&mut r, *n);
            assert(r@ =~= int_text(*n as int));
            r
        },
        Scalar::Text(t) => quote_text(t.as_str()),
    }
}

/// The text in which a value is shown: a leaf as its literal (a string in
/// quotes), a list in brackets, a subtree by its title, and an optional
/// field that holds nothing as the unset marker.
pub fn format_field_value(value: &FieldValue) -> (r: String)
    ensures
        r@ == value_text(*value),
{
    match value {
        FieldValue::Unset => unset_string(),
        FieldValue::Leaf(s) => scalar_to_text(s),
        FieldValue::Nested(n) => n.title.clone(),
        FieldValue::List(items) => {
            let mut r = String::new();
            push_char(&mut r, '[');
            let mut i: usize = 0;
            while i < items.len()
                invariant
                    i <= items@.len(),
                    r@ == seq!['['] + list_body(items@.take(i as int)),
                decreases items@.len() - i,
            {
                if i > 0 {
                    push_char(&mut r, ',');
                    push_char(&mut r, ' ');
                }
                let t = scalar_to_text(&items[i]);
                r.append(t.as_str());
                proof {
                    let next = items@.take(i + 1);
                    assert(next.drop_last() =~= items@.take(i as int));
                    assert(next.last() == items@[i as int]);
                    assert(r@ =~= seq!['['] + list_body(next));
                }
                i = i + 1;
            }
            push_char(&mut r, ']');
            assert(items@.take(items@.len() as int) =~= items@);
            r
        },
    }
}

/// The value that `text` converts to in a field of this descriptor, where
/// `unset` tells whether the field holds nothing now.
pub fn parse_value(meta: &FieldMetadata, unset: bool, text: &str) -> (r: Option<FieldValue>)
    ensures
        match parse_leaf(*meta, unset, text@) {
            Some(m) => r is Some && value_model(r->Some_0) == Some(m) && value_fits(*meta, r->Some_0),
            None => r is None,
        },
{
    if meta.is_nested || meta.is_vec {
        return None;
    }
    if meta.is_option && (unset || meta.field_type != FieldType::String) && same_text(
        text,
        unset_string().as_str(),
    ) {
        return Some(FieldValue::Unset);
    }
    let t = meta.field_type;
    if t == FieldType::String {
        return Some(FieldValue::Leaf(Scalar::Text(String::from_str(text))));
    }
    if t == FieldType::Bool {
        if same_text(text, true_string().as_str()) {
            return Some(FieldValue::Leaf(Scalar::Bool(true)));
        } else if same_text(text, false_string().as_str()) {
            return Some(FieldValue::Leaf(Scalar::Bool(false)));
        } else {
            return None;
        }
    }
    let (integer, signed) = integer_kind(t);
    if !integer {
        return None;
    }
    let (nl, pl) = type_limits(t);
    match parse_int(text, signed, nl, pl) {
        Some((neg, m)) => {
            if signed {
                let v: i128 = if !neg {
                    m as i128
                } else if m == 0 {
                    0
                } else {
                    -((m - 1) as i128) - 1
                };
                Some(FieldValue::Leaf(Scalar::Signed(v)))
            } else {
                let v: u128 = if neg {
                    0
                } else {
                    m
                };
                Some(FieldValue::Leaf(Scalar::Unsigned(v)))
            }
        },
        None => None,
    }
}

/// Sets a leaf field from text. Fails with `ParseError`, and leaves the
/// field as it was, where the text does not convert to the field's type.
pub fn parse_and_set(field: &mut ConfigField, text: &str) -> (r: Result<(), ConfigError>)
    ensures
        match parse_leaf(old(field).meta, old(field).value is Unset, text@) {
            Some(m) => r == Ok::<(), ConfigError>(()) && final(field).meta == old(field).meta
                && value_model(final(field).value) == Some(m)
                && value_fits(final(field).meta, final(field).value),
            None => r == Err::<(), ConfigError>(ConfigError::ParseError) && *final(field)
                == *old(field),
        },
{
    match parse_value(&field.meta, field.value.is_unset(), text) {
        Some(v) => {
            field.value = v;
            Ok(())
        },
        None => Err(ConfigError::ParseError),
    }
}

/// Committing, unchanged, the text that an edit of a leaf starts from sets
/// the leaf to what it already holds.
pub proof fn lemma_unchanged_edit_keeps_value(f: ConfigField)
    requires
        value_fits(f.meta, f.value),
        !f.meta.is_nested,
        !f.meta.is_vec,
    ensures
        parse_leaf(f.meta, f.value is Unset, edit_text(f.meta.field_type, value_text(f.value)))
            == value_model(
            f.value,
        ),
{
    match f.value {
        FieldValue::Unset => {
            assert(unset_marker()[0] == '<');
        },
        FieldValue::Leaf(s) => {
            match s {
                Scalar::Bool(b) => {
                    assert(true_text() != unset_marker() && false_text() != unset_marker()) by {
                        assert(true_text()[0] != unset_marker()[0]);
                        assert(false_text()[0] != unset_marker()[0]);
                    }
                    assert(true_text() != false_text()) by {
                        assert(true_text()[0] != false_text()[0]);
                    }
                },
                Scalar::Signed(n) => {
                    lemma_int_text_round_trip(n as int, true);
                    lemma_int_text_not_marker(n as int);
                },
                Scalar::Unsigned(n) => {
                    lemma_int_text_round_trip(n as int, false);
                    lemma_int_text_not_marker(n as int);
                },
                Scalar::Text(t) => {
                    lemma_strip_quoted(t@);
                },
            }
        },
        _ => {},
    }
}

proof fn lemma_int_text_not_marker(v: int)
    ensures
        int_text(v) != unset_marker(),
{
    if v >= 0 {
        lemma_decimal(v as nat);
        assert(is_digit(int_text(v)[0]));
    }
    assert(int_text(v)[0] != unset_marker()[0]);
}

} // verus!
