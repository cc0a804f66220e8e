//! The typed value tree the codec operates on, and its mathematical model.
//!
//! A `Value` is the host-side picture of one NBT value: a scalar, a string, a
//! raw array, a homogeneous list, or a record of named fields. Floating-point
//! wire kinds are carried as their IEEE-754 bit patterns: the codec frames and
//! moves the bits and does no arithmetic on them.
//!
//! The model (`ValueModel`) is the same tree over mathematical sequences, with
//! every string replaced by the UTF-8 bytes it travels as on the wire. All
//! contracts of the codec speak of models.

use vstd::prelude::*;

use crate::error::Error;
use crate::kind::Kind;

verus! {

broadcast use vstd::std_specs::vec::group_vec_axioms;

// ---------------------------------------------------------------------------
// The UTF-8 correspondence between strings and their wire bytes.
// ---------------------------------------------------------------------------

/// The character sequence a byte sequence denotes under UTF-8, or nothing when
/// the bytes are not valid UTF-8. This names the result of
/// `alloc::string::String::from_utf8`, which depends on the bytes alone.
pub uninterp spec fn utf8_to_chars(bytes: Seq<u8>) -> Option<Seq<char>>;

/// The UTF-8 byte encoding of a character sequence. This names the result of
/// `str::as_bytes`, which depends on the characters alone.
pub uninterp spec fn utf8_bytes(chars: Seq<char>) -> Seq<u8>;

/// Relies on `str::as_bytes`: it returns the UTF-8 encoding of the string's
/// characters, which is valid UTF-8 and decodes back to the same characters
/// (`String::from_utf8(s.as_bytes().to_vec()) == Ok(s)`).
#[verifier::external_body]
pub fn string_to_bytes(s: &String) -> (r: Vec<u8>)
    ensures
        r@ == utf8_bytes(s@),
        utf8_to_chars(r@) == Some(s@),
{
    s.as_bytes().to_vec()
}

/// Relies on `String::from_utf8`: it succeeds exactly on valid UTF-8 input
/// (in particular, always on empty input), and the returned string's
/// characters are the ones the bytes encode, so its canonical encoding
/// (`str::as_bytes`) is the input itself.
#[verifier::external_body]
pub fn string_from_bytes(bytes: Vec<u8>) -> (r: Result<String, Error>)
    ensures
        match r {
            Ok(s) => utf8_to_chars(bytes@) == Some(s@) && utf8_bytes(s@) == bytes@,
            Err(e) => utf8_to_chars(bytes@) is None && e == Error::InvalidUtf8,
        },
        bytes@.len() == 0 ==> r is Ok,
{
    match String::from_utf8(bytes) {
        Ok(s) => Ok(s),
        Err(_) => Err(Error::InvalidUtf8),
    }
}

/// The byte sequences acceptable as a wire string: the empty string travels
/// with no validation, every other one must be valid UTF-8.
pub open spec fn valid_str(b: Seq<u8>) -> bool {
    b.len() == 0 || utf8_to_chars(b) is Some
}

// ---------------------------------------------------------------------------
// The value tree.
// ---------------------------------------------------------------------------

/// One NBT value.
#[derive(Debug, PartialEq)]
pub enum Value {
    Byte(i8),
    Short(i16),
    Int(i32),
    Long(i64),
    /// IEEE-754 bits of a 32-bit float.
    Float(u32),
    /// IEEE-754 bits of a 64-bit float.
    Double(u64),
    ByteArray(Vec<i8>),
    String(String),
    /// A homogeneous list, remembering the kind every element must have.
    List(Kind, Vec<Value>),
    /// A record: named fields in wire order.
    Compound(Vec<(String, Value)>),
    IntArray(Vec<i32>),
    LongArray(Vec<i64>),
}

/// The mathematical model of a `Value`: the same tree over sequences, with
/// strings as their UTF-8 wire bytes.
pub enum ValueModel {
    Byte(i8),
    Short(i16),
    Int(i32),
    Long(i64),
    Float(u32),
    Double(u64),
    ByteArray(Seq<i8>),
    String(Seq<u8>),
    List(Kind, Seq<ValueModel>),
    Compound(Seq<(Seq<u8>, ValueModel)>),
    IntArray(Seq<i32>),
    LongArray(Seq<i64>),
}

pub open spec fn value_model(v: Value) -> ValueModel
    decreases v,
{
    match v {
        Value::Byte(b) => ValueModel::Byte(b),
        Value::Short(s) => ValueModel::Short(s),
        Value::Int(i) => ValueModel::Int(i),
        Value::Long(l) => ValueModel::Long(l),
        Value::Float(bits) => ValueModel::Float(bits),
        Value::Double(bits) => ValueModel::Double(bits),
        Value::ByteArray(bs) => ValueModel::ByteArray(bs@),
        Value::String(s) => ValueModel::String(utf8_bytes(s@)),
        Value::List(k, elems) => ValueModel::List(k, value_models(elems@)),
        Value::Compound(fields) => ValueModel::Compound(field_models(fields@)),
        Value::IntArray(xs) => ValueModel::IntArray(xs@),
        Value::LongArray(xs) => ValueModel::LongArray(xs@),
    }
}

pub open spec fn value_models(s: Seq<Value>) -> Seq<ValueModel>
    decreases s,
{
    if s.len() == 0 {
        Seq::empty()
    } else {
        seq![value_model(s[0])] + value_models(s.drop_first())
    }
}

pub open spec fn field_models(s: Seq<(String, Value)>) -> Seq<(Seq<u8>, ValueModel)>
    decreases s,
{
    if s.len() == 0 {
        Seq::empty()
    } else {
        seq![(utf8_bytes(s[0].0@), value_model(s[0].1))] + field_models(s.drop_first())
    }
}

/// The model of a sequence of values is the sequence of their models,
/// element by element; likewise for named fields.
pub proof fn lemma_value_models_index(s: Seq<Value>)
    ensures
        value_models(s).len() == s.len(),
        forall|i: int| 0 <= i < s.len() ==> value_models(s)[i] == value_model(s[i]),
    decreases s.len(),
{
    if s.len() > 0 {
        lemma_value_models_index(s.drop_first());
    }
}

pub proof fn lemma_field_models_index(s: Seq<(String, Value)>)
    ensures
        field_models(s).len() == s.len(),
        forall|i: int|
            0 <= i < s.len() ==> field_models(s)[i] == (utf8_bytes(s[i].0@), value_model(s[i].1)),
    decreases s.len(),
{
    if s.len() > 0 {
        lemma_field_models_index(s.drop_first());
    }
}

impl View for Value {
    type V = ValueModel;

    open spec fn view(&self) -> ValueModel {
        value_model(*self)
    }
}

impl ValueModel {
    /// The wire kind this value travels under when it stands alone: the tag a
    /// record field of this value carries. For a homogeneous list this is the
    /// generic list kind, whatever the list's own element kind.
    pub open spec fn kind_of(self) -> Kind {
        match self {
            ValueModel::Byte(_) => Kind::I8,
            ValueModel::Short(_) => Kind::I16,
            ValueModel::Int(_) => Kind::I32,
            ValueModel::Long(_) => Kind::I64,
            ValueModel::Float(_) => Kind::F32,
            ValueModel::Double(_) => Kind::F64,
            ValueModel::ByteArray(_) => Kind::I8Array,
            ValueModel::String(_) => Kind::String,
            ValueModel::List(_, _) => Kind::List,
            ValueModel::Compound(_) => Kind::Compound,
            ValueModel::IntArray(_) => Kind::I32Array,
            ValueModel::LongArray(_) => Kind::I64Array,
        }
    }

    /// Whether this value is a sequence: one whose encoding opens with a
    /// length and whose elements travel without names.
    pub open spec fn is_sequence(self) -> bool {
        match self {
            ValueModel::ByteArray(_) => true,
            ValueModel::List(_, _) => true,
            ValueModel::IntArray(_) => true,
            ValueModel::LongArray(_) => true,
            _ => false,
        }
    }
}

impl Value {
    /// The wire kind this value travels under; see `ValueModel::kind_of`.
    pub fn kind(&self) -> (r: Kind)
        ensures
            r == self@.kind_of(),
    {
        match self {
            Value::Byte(_) => Kind::I8,
            Value::Short(_) => Kind::I16,
            Value::Int(_) => Kind::I32,
            Value::Long(_) => Kind::I64,
            Value::Float(_) => Kind::F32,
            Value::Double(_) => Kind::F64,
            Value::ByteArray(_) => Kind::I8Array,
            Value::String(_) => Kind::String,
            Value::List(_, _) => Kind::List,
            Value::Compound(_) => Kind::Compound,
            Value::IntArray(_) => Kind::I32Array,
            Value::LongArray(_) => Kind::I64Array,
        }
    }

    /// Read this value as a boolean. Booleans are not a wire kind of their
    /// own: a boolean field must be backed by a byte whose payload is exactly
    /// 0 or 1; any other byte fails naming the offending value, and any other
    /// kind fails naming both the kind found and the kind expected.
    pub fn as_bool(&self) -> (r: Result<bool, Error>)
        ensures
            match r {
                Ok(b) => self@ == ValueModel::Byte(if b { 1i8 } else { 0i8 }),
                Err(e) => match self@ {
                    ValueModel::Byte(v) => (v != 0 && v != 1) && e == Error::NonBooleanByte(v),
                    _ => e == Error::UnexpectedTag(
                        crate::bytes::spec_u8_of_i8(self@.kind_of().spec_to_id()),
                        1,
                    ),
                },
            },
    {
        match self {
            Value::Byte(0) => Ok(false),
            Value::Byte(1) => Ok(true),
            Value::Byte(b) => Err(Error::NonBooleanByte(*b)),
            _ => {
                let id = self.kind().to_id();
                Err(Error::UnexpectedTag(crate::bytes::u8_from_i8(id), 1))
            },
        }
    }
}

} // verus!
