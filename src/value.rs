//! The values the codec reads and writes, the schemas that describe them, and
//! the wire encoding of each value as a spec function.
use vstd::prelude::*;
use vstd::utf8::encode_utf8;

use crate::error::{Error, KeyError};
use crate::length::{be_bytes, encode_length, valid_universal_key_len};

verus! {

/// A value of a field, of a sequence element or of a nested record.
///
/// Floating-point numbers travel as the `U32` / `U64` of their IEEE-754 bits.
#[derive(Debug, PartialEq)]
pub enum Value {
    Bool(bool),
    U8(u8),
    U16(u16),
    U32(u32),
    U64(u64),
    I8(i8),
    I16(i16),
    I32(i32),
    I64(i64),
    Char(char),
    Str(String),
    Bytes(Vec<u8>),
    Unit,
    /// An optional value that is not there.
    Absent,
    /// An optional value that is there.
    Present(Box<Value>),
    /// A sequence or a tuple: the elements back to back.
    List(Vec<Value>),
    /// A nested record.
    Record(Vec<Field>),
}

/// One field of a record: its key, whether it is left out entirely when
/// absent, and its value.
#[derive(Debug, PartialEq)]
pub struct Field {
    /// The field's key; only 0 to 255 can be written.
    pub key: i32,
    /// When set, an `Absent` value writes no record at all.
    pub skip_if_absent: bool,
    pub value: Value,
}

/// The outermost record: a universal key naming its schema, and its fields.
#[derive(Debug, PartialEq)]
pub struct Message {
    pub universal_key: Vec<u8>,
    pub fields: Vec<Field>,
}

/// Fixed-width types, the only ones that may stand in a sequence or a tuple.
#[derive(Debug, Clone, Copy, PartialEq, Eq)]
pub enum Scalar {
    Bool,
    U8,
    U16,
    U32,
    U64,
    I8,
    I16,
    I32,
    I64,
    Char,
}

/// The type of a field, as a decoder needs it.
#[derive(Debug, PartialEq)]
pub enum Kind {
    Scalar(Scalar),
    Str,
    Bytes,
    Unit,
    Opt(Box<Kind>),
    Sequence(Scalar),
    Tuple(Vec<Scalar>),
    Record(Vec<FieldKind>),
}

/// The description of one field of a record.
#[derive(Debug, PartialEq)]
pub struct FieldKind {
    pub key: i32,
    pub skip_if_absent: bool,
    pub kind: Kind,
}

/// The description of a message: its universal key and its fields.
#[derive(Debug, PartialEq)]
pub struct Schema {
    pub universal_key: Vec<u8>,
    pub fields: Vec<FieldKind>,
}

/// The number of bytes a scalar occupies.
pub open spec fn scalar_width(s: Scalar) -> nat {
    match s {
        Scalar::Bool | Scalar::U8 | Scalar::I8 => 1,
        Scalar::U16 | Scalar::I16 => 2,
        Scalar::U32 | Scalar::I32 | Scalar::Char => 4,
        Scalar::U64 | Scalar::I64 => 8,
    }
}

/// The big-endian bytes of a scalar value (signed values in two's complement,
/// a character as its 32-bit code point); empty for a value that is no scalar.
pub open spec fn scalar_bytes(v: Value) -> Seq<u8> {
    match v {
        Value::Bool(b) => seq![if b { 1u8 } else { 0u8 }],
        Value::U8(x) => be_bytes(x as nat, 1),
        Value::U16(x) => be_bytes(x as nat, 2),
        Value::U32(x) => be_bytes(x as nat, 4),
        Value::U64(x) => be_bytes(x as nat, 8),
        Value::I8(x) => be_bytes((x as u8) as nat, 1),
        Value::I16(x) => be_bytes((x as u16) as nat, 2),
        Value::I32(x) => be_bytes((x as u32) as nat, 4),
        Value::I64(x) => be_bytes((x as u64) as nat, 8),
        Value::Char(c) => be_bytes((c as u32) as nat, 4),
        _ => Seq::empty(),
    }
}

/// Whether a field gives a record on the wire.
pub open spec fn is_written(f: Field) -> bool {
    !(f.skip_if_absent && f.value is Absent)
}

/// Whether a record with key `k` is written by one of the fields `fs`.
pub open spec fn key_written(fs: Seq<Field>, k: u8) -> bool {
    exists|i: int| 0 <= i < fs.len() && is_written(fs[i]) && fs[i].key == k as i32
}

/// The content bytes of a value: scalars at their fixed width, strings as
/// UTF-8, byte blobs as they are, sequences back to back, a nested record as
/// its field records.
pub open spec fn enc_value(v: Value) -> Result<Seq<u8>, Error>
    decreases v,
{
    match v {
        Value::Str(s) => Ok(encode_utf8(s@)),
        Value::Bytes(b) => Ok(b@),
        Value::Unit => Ok(Seq::empty()),
        Value::Absent => Ok(Seq::empty()),
        Value::Present(b) => enc_value(*b),
        Value::List(items) => enc_list(items@),
        Value::Record(fields) => enc_fields(fields@, Seq::empty()),
        _ => Ok(scalar_bytes(v)),
    }
}

/// The elements of a sequence, back to back.
pub open spec fn enc_list(s: Seq<Value>) -> Result<Seq<u8>, Error>
    decreases s,
{
    if s.len() == 0 {
        Ok(Seq::empty())
    } else {
        match enc_list(s.subrange(0, s.len() - 1)) {
            Err(e) => Err(e),
            Ok(prefix) => match enc_value(s[s.len() - 1]) {
                Err(e) => Err(e),
                Ok(b) => Ok(prefix + b),
            },
        }
    }
}

/// The records of the fields `fs`, in order: for each written field its key,
/// the length of its content and the content. Keys in `reserved` may not be
/// used. A key outside 0..=255, a reserved key, or a key written twice fails.
pub open spec fn enc_fields(fs: Seq<Field>, reserved: Seq<u8>) -> Result<Seq<u8>, Error>
    decreases fs,
{
    if fs.len() == 0 {
        Ok(Seq::empty())
    } else {
        let init = fs.subrange(0, fs.len() - 1);
        let f = fs[fs.len() - 1];
        match enc_fields(init, reserved) {
            Err(e) => Err(e),
            Ok(prefix) => {
                if !is_written(f) {
                    Ok(prefix)
                } else if !(0 <= f.key <= 255) {
                    Err(Error::Key(KeyError::OutOfRange(f.key)))
                } else {
                    match enc_value(f.value) {
                        Err(e) => Err(e),
                        Ok(b) => {
                            if reserved.contains(f.key as u8) {
                                Err(Error::Key(KeyError::Reserved(f.key as u8)))
                            } else if key_written(init, f.key as u8) {
                                Err(Error::Key(KeyError::Duplicate(f.key as u8)))
                            } else {
                                Ok(prefix + seq![f.key as u8] + encode_length(b.len()) + b)
                            }
                        },
                    }
                }
            },
        }
    }
}

/// The encoding of a message: universal key, content length, content; keys in
/// `reserved` may not be used by its fields.
pub open spec fn enc_message(m: Message, reserved: Seq<u8>) -> Result<Seq<u8>, Error> {
    if !valid_universal_key_len(m.universal_key@.len()) {
        Err(Error::Key(KeyError::UniversalKeyLength(m.universal_key@.len() as usize)))
    } else {
        match enc_fields(m.fields@, reserved) {
            Err(e) => Err(e),
            Ok(c) => Ok(m.universal_key@ + encode_length(c.len()) + c),
        }
    }
}

} // verus!
