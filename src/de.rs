//! The structured decoder. A buffer is read against a schema: each record
//! header is read, its (key, length) pair is pushed on the pending-length
//! stack, and the reader of the field's value consumes exactly that many bytes
//! and pops it. Records whose key the schema does not know are skipped.
use vstd::prelude::*;
use vstd::utf8::{decode_utf8, is_scalar, valid_utf8};

use crate::checksum::{checksum_header, CheckSumCalc, CHECKSUM_KEY, CHECKSUM_LENGTH};
use crate::error::{Error, KeyError};
use crate::length::{
    be_value, decode_length, extend_bytes, parse_length, read_be, valid_universal_key_len,
};
use crate::value::{Field, FieldKind, Kind, Message, Scalar, Schema, Value, scalar_width};

verus! {

/// The value of a scalar read from exactly its width of bytes; a `Char` must
/// be a Unicode scalar value.
pub open spec fn scalar_value(s: Scalar, b: Seq<u8>) -> Result<Value, Error> {
    let n = be_value(b);
    match s {
        Scalar::Bool => Ok(Value::Bool(n != 0)),
        Scalar::U8 => Ok(Value::U8(n as u8)),
        Scalar::U16 => Ok(Value::U16(n as u16)),
        Scalar::U32 => Ok(Value::U32(n as u32)),
        Scalar::U64 => Ok(Value::U64(n as u64)),
        Scalar::I8 => Ok(Value::I8((n as u8) as i8)),
        Scalar::I16 => Ok(Value::I16((n as u16) as i16)),
        Scalar::I32 => Ok(Value::I32((n as u32) as i32)),
        Scalar::I64 => Ok(Value::I64((n as u64) as i64)),
        Scalar::Char => {
            if is_scalar(n as u32) {
                Ok(Value::Char((n as u32) as char))
            } else {
                Err(Error::ExpectedChar(n as u32))
            }
        },
    }
}

/// The bytes a tuple of the scalars `ss` occupies.
pub open spec fn tuple_width(ss: Seq<Scalar>) -> nat
    decreases ss.len(),
{
    if ss.len() == 0 {
        0
    } else {
        tuple_width(ss.drop_last()) + scalar_width(ss.last())
    }
}

/// `n` copies of `s`.
pub open spec fn repeat(s: Scalar, n: nat) -> Seq<Scalar> {
    Seq::new(n, |_i: int| s)
}

/// Where element `i` of a run of scalars `ss` starts.
pub open spec fn elem_offset(ss: Seq<Scalar>, i: int) -> nat {
    tuple_width(ss.subrange(0, i))
}

/// The bytes of element `i` of a run of scalars `ss` laid out in `b`.
pub open spec fn elem_bytes(ss: Seq<Scalar>, b: Seq<u8>, i: int) -> Seq<u8> {
    b.subrange(elem_offset(ss, i) as int, (elem_offset(ss, i) + scalar_width(ss[i])) as int)
}

/// The first error met reading the scalars `ss` back to back from `b`.
pub open spec fn elems_check(ss: Seq<Scalar>, b: Seq<u8>) -> Result<(), Error>
    decreases ss.len(),
{
    if ss.len() == 0 {
        Ok(())
    } else {
        match elems_check(ss.drop_last(), b) {
            Err(e) => Err(e),
            Ok(_) => match scalar_value(ss.last(), elem_bytes(ss, b, ss.len() - 1)) {
                Err(e) => Err(e),
                Ok(_) => Ok(()),
            },
        }
    }
}

/// `items` are the scalars `ss` read back to back from `b`.
pub open spec fn elems_decode(ss: Seq<Scalar>, b: Seq<u8>, items: Seq<Value>) -> bool {
    &&& items.len() == ss.len()
    &&& forall|i: int|
        0 <= i < ss.len() ==> #[trigger] items[i] == scalar_value(ss[i], elem_bytes(ss, b, i))->Ok_0
}

/// The scalars that a sequence or tuple kind reads from `len` bytes.
pub open spec fn elem_kinds(kind: Kind, len: nat) -> Seq<Scalar> {
    match kind {
        Kind::Sequence(s) => repeat(s, len / scalar_width(s)),
        Kind::Tuple(ss) => ss@,
        _ => Seq::empty(),
    }
}

/// The index of the first field of `fks` with key `k`.
pub open spec fn field_index(fks: Seq<FieldKind>, k: u8) -> Option<int>
    decreases fks.len(),
{
    if fks.len() == 0 {
        None
    } else {
        match field_index(fks.drop_last(), k) {
            Some(j) => Some(j),
            None => {
                if fks.last().key == k as i32 {
                    Some(fks.len() - 1)
                } else {
                    None
                }
            },
        }
    }
}

/// The key of the first field that the record lacks and that is not optional.
pub open spec fn first_missing(fks: Seq<FieldKind>, slots: Seq<Option<(int, int)>>) -> Option<i32>
    decreases fks.len(),
{
    if fks.len() == 0 {
        None
    } else {
        match first_missing(fks.drop_last(), slots) {
            Some(k) => Some(k),
            None => {
                if slots[fks.len() - 1] is None && !(fks.last().kind is Opt) {
                    Some(fks.last().key)
                } else {
                    None
                }
            },
        }
    }
}

/// No field has a record yet.
pub open spec fn no_slots(n: nat) -> Seq<Option<(int, int)>> {
    Seq::new(n, |_i: int| None)
}

/// Whether decoding `b` as `kind` succeeds, and if not, the error.
pub open spec fn dec_check(kind: Kind, b: Seq<u8>) -> Result<(), Error>
    decreases kind, 0int, 0int,
{
    match kind {
        Kind::Scalar(s) => {
            if b.len() != scalar_width(s) {
                Err(Error::TypeLength)
            } else {
                match scalar_value(s, b) {
                    Ok(_) => Ok(()),
                    Err(e) => Err(e),
                }
            }
        },
        Kind::Str => {
            if valid_utf8(b) {
                Ok(())
            } else {
                Err(Error::ExpectedString)
            }
        },
        Kind::Bytes => Ok(()),
        Kind::Unit => {
            if b.len() == 0 {
                Ok(())
            } else {
                Err(Error::TypeLength)
            }
        },
        Kind::Opt(k) => {
            if b.len() == 0 {
                Ok(())
            } else {
                dec_check(*k, b)
            }
        },
        Kind::Sequence(s) => {
            if b.len() % scalar_width(s) != 0 {
                Err(Error::ExpectedSeqEnd)
            } else {
                elems_check(elem_kinds(kind, b.len()), b)
            }
        },
        Kind::Tuple(ss) => {
            if tuple_width(ss@) != b.len() {
                Err(Error::ExpectedSeqEnd)
            } else {
                elems_check(ss@, b)
            }
        },
        Kind::Record(fks) => record_check(fks@, b),
    }
}

/// Whether decoding the record content `c` against the fields `fks`
/// succeeds, and if not, the error.
pub open spec fn record_check(fks: Seq<FieldKind>, c: Seq<u8>) -> Result<(), Error>
    decreases fks, 1int, 0int,
{
    match walk(fks, c, 0, no_slots(fks.len())) {
        Err(e) => Err(e),
        Ok(slots) => match first_missing(fks, slots) {
            Some(k) => Err(Error::MissingField(k)),
            None => Ok(()),
        },
    }
}

/// Walks the records of `c` from `pos`, in order: reads each header, checks
/// that the record fits, skips a record whose key no field has, and for a
/// known key checks the value and notes where it lies. A key met twice fails.
pub open spec fn walk(
    fks: Seq<FieldKind>,
    c: Seq<u8>,
    pos: int,
    slots: Seq<Option<(int, int)>>,
) -> Result<Seq<Option<(int, int)>>, Error>
    decreases fks, 0int, c.len() - pos,
{
    if pos >= c.len() || pos < 0 {
        Ok(slots)
    } else {
        let key = c[pos];
        match decode_length(c.subrange(pos + 1, c.len() as int)) {
            Err(e) => Err(e),
            Ok((lc, n)) => {
                let start = pos + 1 + lc;
                let end = start + n;
                if end > c.len() {
                    Err(Error::ExpectedMapEnd)
                } else {
                    match field_index(fks, key) {
                        None => walk(fks, c, end, slots),
                        Some(j) => {
                            if 0 <= j < slots.len() && slots[j] is Some {
                                Err(Error::Key(KeyError::Duplicate(key)))
                            } else if 0 <= j < fks.len() {
                                match dec_check(fks[j].kind, c.subrange(start, end)) {
                                    Err(e) => Err(e),
                                    Ok(_) => walk(fks, c, end, slots.update(j, Some((start, end)))),
                                }
                            } else {
                                Err(Error::ExpectedMapEnd)
                            }
                        },
                    }
                }
            },
        }
    }
}

/// `v` is what decoding `b` as `kind` gives (when `dec_check` succeeds).
pub open spec fn decodes_to(kind: Kind, b: Seq<u8>, v: Value) -> bool
    decreases kind, 0int, 0int,
{
    match kind {
        Kind::Scalar(s) => v == scalar_value(s, b)->Ok_0,
        Kind::Str => v is Str && v->Str_0@ == decode_utf8(b),
        Kind::Bytes => v is Bytes && v->Bytes_0@ == b,
        Kind::Unit => v is Unit,
        Kind::Opt(k) => {
            if b.len() == 0 {
                v is Absent
            } else {
                v is Present && decodes_to(*k, b, *v->Present_0)
            }
        },
        Kind::Sequence(_) => v is List && elems_decode(elem_kinds(kind, b.len()), b, v->List_0@),
        Kind::Tuple(ss) => v is List && elems_decode(ss@, b, v->List_0@),
        Kind::Record(fks) => v is Record && record_decodes(fks@, b, v->Record_0@),
    }
}

/// `fields` are what decoding the record content `c` against `fks` gives.
pub open spec fn record_decodes(fks: Seq<FieldKind>, c: Seq<u8>, fields: Seq<Field>) -> bool
    decreases fks, 1int, 0int,
{
    fields_decode(fks, c, walk(fks, c, 0, no_slots(fks.len()))->Ok_0, fields)
}

/// Each field takes its key and skip flag from its description, and its value
/// from the record noted for it, or `Absent` where none was.
pub open spec fn fields_decode(
    fks: Seq<FieldKind>,
    c: Seq<u8>,
    slots: Seq<Option<(int, int)>>,
    fields: Seq<Field>,
) -> bool
    decreases fks, 0int, 0int,
{
    &&& fields.len() == fks.len()
    &&& fks.len() > 0 ==> {
        let fk = fks.last();
        let f = fields.last();
        &&& fields_decode(fks.drop_last(), c, slots, fields.drop_last())
        &&& f.key == fk.key
        &&& f.skip_if_absent == fk.skip_if_absent
        &&& match slots[fks.len() - 1] {
            None => f.value is Absent,
            Some((a, b)) => decodes_to(fk.kind, c.subrange(a, b), f.value),
        }
    }
}

/// Decoding a whole buffer against a schema: the universal key must have a
/// supported length and match, the outer length must cover the rest of the
/// buffer exactly, and the content must decode as the schema's fields.
pub open spec fn dec_message(schema: Schema, buf: Seq<u8>) -> Result<(), Error> {
    let uk = schema.universal_key@;
    if !valid_universal_key_len(uk.len()) {
        Err(Error::Key(KeyError::UniversalKeyLength(uk.len() as usize)))
    } else if buf.len() <= uk.len() {
        Err(Error::ContentLength)
    } else {
        match decode_length(buf.subrange(uk.len() as int, buf.len() as int)) {
            Err(e) => Err(e),
            Ok((lc, n)) => {
                if buf.subrange(0, uk.len() as int) != uk {
                    Err(Error::Key(KeyError::UniversalKeyMismatch))
                } else if uk.len() + lc + n != buf.len() {
                    Err(Error::ContentLength)
                } else {
                    record_check(schema.fields@, message_content(schema, buf))
                }
            },
        }
    }
}

/// The content of a message buffer: what follows the universal key and the
/// outer length.
pub open spec fn message_content(schema: Schema, buf: Seq<u8>) -> Seq<u8> {
    let uk_len = schema.universal_key@.len();
    let lc = decode_length(buf.subrange(uk_len as int, buf.len() as int))->Ok_0.0;
    buf.subrange(uk_len + lc, buf.len() as int)
}

/// `m` is what decoding `buf` against `schema` gives (when `dec_message`
/// succeeds).
pub open spec fn decodes_message(schema: Schema, buf: Seq<u8>, m: Message) -> bool {
    &&& m.universal_key@ == schema.universal_key@
    &&& record_decodes(schema.fields@, message_content(schema, buf), m.fields@)
}

/// Relies on `char::from_u32`: it gives the character exactly for Unicode
/// scalar values.
#[verifier::external_body]
fn char_from_u32(v: u32) -> (r: Option<char>)
    ensures
        is_scalar(v) ==> r == Some(v as char),
        !is_scalar(v) ==> r is None,
{
    char::from_u32(v)
}

/// Relies on `std::str::from_utf8`: it accepts exactly the well-formed UTF-8
/// byte sequences, and the string holds the characters they encode.
#[verifier::external_body]
fn utf8_to_string(b: &[u8]) -> (r: Option<String>)
    ensures
        valid_utf8(b@) ==> r is Some && r->Some_0@ == decode_utf8(b@),
        !valid_utf8(b@) ==> r is None,
{
    match std::str::from_utf8(b) {
        Ok(s) => Some(s.to_string()),
        Err(_) => None,
    }
}

impl Scalar {
    /// The number of bytes the scalar occupies.
    pub fn width(&self) -> (r: usize)
        ensures
            r == scalar_width(*self),
    {
        match self {
            Scalar::Bool | Scalar::U8 | Scalar::I8 => 1,
            Scalar::U16 | Scalar::I16 => 2,
            Scalar::U32 | Scalar::I32 | Scalar::Char => 4,
            Scalar::U64 | Scalar::I64 => 8,
        }
    }
}

/// Whether a failed read of `kind` leaves the cursor and the pending-length
/// stack as they were: every kind but a record, which reads its own records
/// as it goes.
pub open spec fn fails_in_place(kind: Kind) -> bool
    decreases kind,
{
    match kind {
        Kind::Record(_) => false,
        Kind::Opt(k) => fails_in_place(*k),
        _ => true,
    }
}

/// The record at `pos` is refused before its value is read: its length field
/// does not decode, it overruns the content, or its key names a field that
/// already has a record.
pub open spec fn header_rejects(
    fks: Seq<FieldKind>,
    c: Seq<u8>,
    pos: int,
    slots: Seq<Option<(int, int)>>,
) -> bool {
    match decode_length(c.subrange(pos + 1, c.len() as int)) {
        Err(_) => true,
        Ok((lc, n)) => {
            ||| pos + 1 + lc + n > c.len()
            ||| match field_index(fks, c[pos]) {
                Some(j) => 0 <= j < slots.len() && slots[j] is Some,
                None => false,
            }
        },
    }
}

/// Field `f` stands as decoding so far says: key and skip flag from `fk`,
/// filled exactly when a record was noted for it, and then decoded from it.
pub open spec fn field_holds(
    fk: FieldKind,
    c: Seq<u8>,
    slot: Option<(int, int)>,
    f: Field,
    filled: bool,
) -> bool {
    &&& f.key == fk.key
    &&& f.skip_if_absent == fk.skip_if_absent
    &&& (filled <==> slot is Some)
    &&& match slot {
        None => f.value is Absent,
        Some((a, b)) => decodes_to(fk.kind, c.subrange(a, b), f.value),
    }
}

/// Every field stands as decoding so far says.
pub open spec fn slots_hold(
    fks: Seq<FieldKind>,
    c: Seq<u8>,
    slots: Seq<Option<(int, int)>>,
    fields: Seq<Field>,
    filled: Seq<bool>,
) -> bool {
    &&& slots.len() == fks.len()
    &&& fields.len() == fks.len()
    &&& filled.len() == fks.len()
    &&& forall|i: int|
        0 <= i < fks.len() ==> #[trigger] field_holds(fks[i], c, slots[i], fields[i], filled[i])
}

pub proof fn lemma_field_index(fks: Seq<FieldKind>, k: u8)
    ensures
        match field_index(fks, k) {
            Some(j) => 0 <= j < fks.len() && fks[j].key == k as i32 && forall|i: int|
                0 <= i < j ==> fks[i].key != k as i32,
            None => forall|i: int| 0 <= i < fks.len() ==> fks[i].key != k as i32,
        },
    decreases fks.len(),
{
    if fks.len() > 0 {
        lemma_field_index(fks.drop_last(), k);
        assert forall|i: int| 0 <= i < fks.len() - 1 implies fks.drop_last()[i] == fks[i] by {}
    }
}

pub proof fn lemma_first_missing(fks: Seq<FieldKind>, slots: Seq<Option<(int, int)>>)
    ensures
        match first_missing(fks, slots) {
            Some(k) => exists|j: int|
                0 <= j < fks.len() && slots[j] is None && !(fks[j].kind is Opt) && fks[j].key == k
                    && forall|i: int|
                    0 <= i < j ==> !(slots[i] is None && !(fks[i].kind is Opt)),
            None => forall|i: int| 0 <= i < fks.len() ==> !(slots[i] is None && !(fks[i].kind is Opt)),
        },
    decreases fks.len(),
{
    if fks.len() > 0 {
        lemma_first_missing(fks.drop_last(), slots);
        if let Some(k) = first_missing(fks.drop_last(), slots) {
            let j = choose|j: int|
                0 <= j < fks.drop_last().len() && slots[j] is None && !(fks.drop_last()[j].kind is Opt)
                    && fks.drop_last()[j].key == k && forall|i: int|
                    0 <= i < j ==> !(slots[i] is None && !(fks.drop_last()[i].kind is Opt));
            assert(fks[j] == fks.drop_last()[j]);
            assert forall|i: int| 0 <= i < j implies !(slots[i] is None && !(fks[i].kind is Opt)) by {
                assert(fks[i] == fks.drop_last()[i]);
            }
        } else {
            assert forall|i: int| 0 <= i < fks.len() - 1 implies !(slots[i] is None && !(
            fks[i].kind is Opt)) by {
                assert(fks[i] == fks.drop_last()[i]);
            }
        }
    }
}

/// The per-field description of a decoded record implies `fields_decode`.
pub proof fn lemma_fields_decode(
    fks: Seq<FieldKind>,
    c: Seq<u8>,
    slots: Seq<Option<(int, int)>>,
    fields: Seq<Field>,
)
    requires
        fields.len() == fks.len(),
        slots.len() >= fks.len(),
        forall|j: int|
            0 <= j < fks.len() ==> {
                &&& #[trigger] fields[j].key == fks[j].key
                &&& fields[j].skip_if_absent == fks[j].skip_if_absent
                &&& match slots[j] {
                    None => fields[j].value is Absent,
                    Some((a, b)) => decodes_to(fks[j].kind, c.subrange(a, b), fields[j].value),
                }
            },
    ensures
        fields_decode(fks, c, slots, fields),
    decreases fks.len(),
{
    if fks.len() > 0 {
        let n = fks.len() - 1;
        assert forall|j: int| 0 <= j < n implies {
            &&& #[trigger] fields.drop_last()[j].key == fks.drop_last()[j].key
            &&& fields.drop_last()[j].skip_if_absent == fks.drop_last()[j].skip_if_absent
            &&& match slots[j] {
                None => fields.drop_last()[j].value is Absent,
                Some((a, b)) => decodes_to(
                    fks.drop_last()[j].kind,
                    c.subrange(a, b),
                    fields.drop_last()[j].value,
                ),
            }
        } by {
            assert(fields[j].key == fks[j].key);
        }
        lemma_fields_decode(fks.drop_last(), c, slots, fields.drop_last());
        assert(fields[n].key == fks[n].key);
    }
}

pub proof fn lemma_tuple_width_prefix(ss: Seq<Scalar>, i: int)
    requires
        0 <= i < ss.len(),
    ensures
        tuple_width(ss.subrange(0, i + 1)) == tuple_width(ss.subrange(0, i)) + scalar_width(ss[i]),
        tuple_width(ss.subrange(0, i + 1)) <= tuple_width(ss),
    decreases ss.len(),
{
    assert(ss.subrange(0, i + 1).drop_last() =~= ss.subrange(0, i));
    if i + 1 == ss.len() {
        assert(ss.subrange(0, i + 1) =~= ss);
    } else {
        lemma_tuple_width_prefix(ss.drop_last(), i);
        assert(ss.drop_last().subrange(0, i + 1) =~= ss.subrange(0, i + 1));
        assert(ss.drop_last().subrange(0, i) =~= ss.subrange(0, i));
    }
}

pub proof fn lemma_tuple_width_repeat(s: Scalar, n: nat)
    ensures
        tuple_width(repeat(s, n)) == n * scalar_width(s),
    decreases n,
{
    if n > 0 {
        assert(repeat(s, n).drop_last() =~= repeat(s, (n - 1) as nat));
        lemma_tuple_width_repeat(s, (n - 1) as nat);
        assert(n * scalar_width(s) == (n - 1) * scalar_width(s) + scalar_width(s)) by (nonlinear_arith);
    }
}

/// The elements of a prefix of `ss` sit where they sit in `ss`.
pub proof fn lemma_elems_prefix(ss: Seq<Scalar>, b: Seq<u8>, n: int, i: int)
    requires
        0 <= i < n <= ss.len(),
    ensures
        elem_bytes(ss.subrange(0, n), b, i) == elem_bytes(ss, b, i),
{
    assert(ss.subrange(0, n).subrange(0, i) =~= ss.subrange(0, i));
}

/// An error met part way through a run of scalars is the error of the run.
pub proof fn lemma_elems_err_extends(ss: Seq<Scalar>, b: Seq<u8>, n: int)
    requires
        0 <= n <= ss.len(),
        elems_check(ss.subrange(0, n), b) is Err,
    ensures
        elems_check(ss, b) == elems_check(ss.subrange(0, n), b),
    decreases ss.len() - n,
{
    if n < ss.len() {
        let next = ss.subrange(0, n + 1);
        assert(next.drop_last() =~= ss.subrange(0, n));
        lemma_elems_err_extends(ss, b, n + 1);
    } else {
        assert(ss.subrange(0, n) =~= ss);
    }
}

/// A decoder's state: the whole input, the cursor, and the pending-length
/// stack of (key, content length) pairs read from record headers.
pub struct Deserializer<'de> {
    input: &'de [u8],
    position: usize,
    next_len: Vec<(u8, usize)>,
}

impl<'de> Deserializer<'de> {
    /// A decoder at the start of `input`.
    pub fn from_bytes(input: &'de [u8]) -> (r: Self)
        ensures
            r.input() == input@,
            r.position() == 0,
            r.pending() == Seq::<(u8, usize)>::empty(),
    {
        Deserializer { input, position: 0, next_len: Vec::new() }
    }

    pub closed spec fn input(&self) -> Seq<u8> {
        self.input@
    }

    pub closed spec fn position(&self) -> nat {
        self.position as nat
    }

    pub closed spec fn pending(&self) -> Seq<(u8, usize)> {
        self.next_len@
    }

    /// Reads the scalar `s` at `pos`.
    fn read_scalar(&self, s: Scalar, pos: usize) -> (r: Result<Value, Error>)
        requires
            pos + scalar_width(s) <= self.input@.len(),
        ensures
            r == scalar_value(s, self.input@.subrange(pos as int, pos + scalar_width(s))),
    {
        let n = read_be(self.input, pos, s.width());
        match s {
            Scalar::Bool => Ok(Value::Bool(n != 0)),
            Scalar::U8 => Ok(Value::U8(n as u8)),
            Scalar::U16 => Ok(Value::U16(n as u16)),
            Scalar::U32 => Ok(Value::U32(n as u32)),
            Scalar::U64 => Ok(Value::U64(n)),
            Scalar::I8 => Ok(Value::I8((n as u8) as i8)),
            Scalar::I16 => Ok(Value::I16((n as u16) as i16)),
            Scalar::I32 => Ok(Value::I32((n as u32) as i32)),
            Scalar::I64 => Ok(Value::I64(n as i64)),
            Scalar::Char => match char_from_u32(n as u32) {
                Some(c) => Ok(Value::Char(c)),
                None => Err(Error::ExpectedChar(n as u32)),
            },
        }
    }

    /// Reads the scalars of a sequence or tuple kind back to back from the
    /// `len` bytes at `pos`.
    fn read_elems(&self, kind: &Kind, pos: usize, len: usize) -> (r: Result<Vec<Value>, Error>)
        requires
            kind is Sequence || kind is Tuple,
            pos + len <= self.input@.len(),
            tuple_width(elem_kinds(*kind, len as nat)) == len,
            kind is Sequence ==> (len as nat) % scalar_width(kind->Sequence_0) == 0,
        ensures
            ({
                let b = self.input@.subrange(pos as int, pos + len);
                let ss = elem_kinds(*kind, len as nat);
                match elems_check(ss, b) {
                    Ok(_) => r is Ok && elems_decode(ss, b, r->Ok_0@),
                    Err(e) => r == Err::<Vec<Value>, Error>(e),
                }
            }),
    {
        let ghost b = self.input@.subrange(pos as int, pos + len);
        let ghost ss = elem_kinds(*kind, len as nat);
        let n: usize = match kind {
            Kind::Sequence(s) => len / s.width(),
            Kind::Tuple(ts) => ts.len(),
            _ => 0,
        };
        assert(n == ss.len());
        let total = self.input.len();
        let mut items: Vec<Value> = Vec::new();
        let mut p: usize = pos;
        let mut i: usize = 0;
        proof {
            assert(ss.subrange(0, 0) =~= Seq::<Scalar>::empty());
        }
        while i < n
            invariant
                n == ss.len(),
                i <= n,
                ss == elem_kinds(*kind, len as nat),
                kind is Sequence || kind is Tuple,
                b == self.input@.subrange(pos as int, pos + len),
                pos + len <= self.input@.len(),
                total == self.input@.len(),
                tuple_width(ss) == len,
                p == pos + elem_offset(ss, i as int),
                elems_check(ss.subrange(0, i as int), b) is Ok,
                items@.len() == i,
                forall|j: int|
                    0 <= j < i ==> #[trigger] items@[j] == scalar_value(
                        ss[j],
                        elem_bytes(ss, b, j),
                    )->Ok_0,
            decreases n - i,
        {
            let s = match kind {
                Kind::Sequence(s) => *s,
                Kind::Tuple(ts) => ts[i],
                _ => Scalar::U8,
            };
            assert(s == ss[i as int]);
            proof {
                lemma_tuple_width_prefix(ss, i as int);
                assert(ss.subrange(0, i as int) =~= ss.subrange(0, i as int));
            }
            let w = s.width();
            let ghost eb = elem_bytes(ss, b, i as int);
            assert(self.input@.subrange(p as int, p + w) =~= eb);
            let v = self.read_scalar(s, p);
            let ghost next = ss.subrange(0, i + 1);
            proof {
                assert(next.drop_last() =~= ss.subrange(0, i as int));
                lemma_elems_prefix(ss, b, i + 1, i as int);
                assert(next.last() == s);
            }
            match v {
                Err(e) => {
                    proof {
                        lemma_elems_err_extends(ss, b, i + 1);
                    }
                    return Err(e);
                },
                Ok(x) => {
                    items.push(x);
                },
            }
            assert(p + w <= pos + len);
            p = p + w;
            i = i + 1;
        }
        proof {
            assert(ss.subrange(0, n as int) =~= ss);
        }
        Ok(items)
    }

    /// The index of the first field with key `k`.
    fn find_field(fks: &Vec<FieldKind>, k: u8) -> (r: Option<usize>)
        ensures
            r matches Some(j) ==> field_index(fks@, k) == Some(j as int) && j < fks@.len(),
            r is None ==> field_index(fks@, k) is None,
    {
        proof {
            lemma_field_index(fks@, k);
        }
        let mut j: usize = 0;
        while j < fks.len()
            invariant
                j <= fks@.len(),
                forall|i: int| 0 <= i < j ==> fks@[i].key != k as i32,
            decreases fks@.len() - j,
        {
            if fks[j].key == k as i32 {
                proof {
                    lemma_field_index(fks@, k);
                    assert(fks@[j as int].key == k as i32);
                    if let Some(m) = field_index(fks@, k) {
                        if m < j {
                            assert(fks@[m].key != k as i32);
                        }
                        if m > j {
                            assert(fks@[j as int].key != k as i32);
                        }
                        assert(m == j);
                    }
                }
                return Some(j);
            }
            j = j + 1;
        }
        proof {
            lemma_field_index(fks@, k);
            if let Some(m) = field_index(fks@, k) {
                assert(fks@[m].key != k as i32);
            }
        }
        None
    }
    /// Moves the cursor past the pending record's content and pops its entry:
    /// after its value is read, or to skip a record no field wants.
    fn consume_pending(&mut self)
        requires
            old(self).next_len@.len() > 0,
            old(self).position + old(self).next_len@.last().1 <= old(self).input@.len(),
        ensures
            final(self).input == old(self).input,
            final(self).position == old(self).position + old(self).next_len@.last().1,
            final(self).next_len@ == old(self).next_len@.drop_last(),
    {
        let total = self.input.len();
        let (_key, len) = self.next_len.pop().unwrap();
        assert(self.position + len <= total);
        self.position = self.position + len;
    }

    /// Reads the value of the pending record as `kind`: exactly its pending
    /// length of bytes, after which the pending entry is popped.
    fn deserialize_value(&mut self, kind: &Kind) -> (r: Result<Value, Error>)
        requires
            old(self).next_len@.len() > 0,
            old(self).position + old(self).next_len@.last().1 <= old(self).input@.len(),
        ensures
            final(self).input == old(self).input,
            ({
                let len = old(self).next_len@.last().1;
                let b = old(self).input@.subrange(
                    old(self).position as int,
                    old(self).position + len,
                );
                match dec_check(*kind, b) {
                    Ok(_) => {
                        &&& r is Ok
                        &&& decodes_to(*kind, b, r->Ok_0)
                        &&& final(self).position == old(self).position + len
                        &&& final(self).next_len@ == old(self).next_len@.drop_last()
                    },
                    Err(e) => {
                        &&& r == Err::<Value, Error>(e)
                        &&& fails_in_place(*kind) ==> {
                            &&& final(self).position == old(self).position
                            &&& final(self).next_len@ == old(self).next_len@
                        }
                    },
                }
            }),
        decreases *kind, 0int,
    {
        let len = self.next_len[self.next_len.len() - 1].1;
        let pos = self.position;
        let total = self.input.len();
        assert(pos + len <= total);
        match kind {
            Kind::Scalar(s) => {
                if len != s.width() {
                    return Err(Error::TypeLength);
                }
                let v = self.read_scalar(*s, pos);
                match v {
                    Err(e) => Err(e),
                    Ok(x) => {
                        self.consume_pending();
                        Ok(x)
                    },
                }
            },
            Kind::Str => {
                match utf8_to_string(&self.input[pos..pos + len]) {
                    None => Err(Error::ExpectedString),
                    Some(text) => {
                        self.consume_pending();
                        Ok(Value::Str(text))
                    },
                }
            },
            Kind::Bytes => {
                let mut bytes: Vec<u8> = Vec::new();
                extend_bytes(&mut bytes, &self.input[pos..pos + len]);
                self.consume_pending();
                Ok(Value::Bytes(bytes))
            },
            Kind::Unit => {
                if len != 0 {
                    return Err(Error::TypeLength);
                }
                self.consume_pending();
                Ok(Value::Unit)
            },
            Kind::Opt(inner) => {
                if len == 0 {
                    self.consume_pending();
                    Ok(Value::Absent)
                } else {
                    match self.deserialize_value(&**inner) {
                        Err(e) => Err(e),
                        Ok(v) => Ok(Value::Present(Box::new(v))),
                    }
                }
            },
            Kind::Sequence(s) => {
                let w = s.width();
                if len % w != 0 {
                    return Err(Error::ExpectedSeqEnd);
                }
                proof {
                    lemma_tuple_width_repeat(*s, (len / w) as nat);
                    assert((len / w) * w == len) by (nonlinear_arith)
                        requires
                            len % w == 0,
                            w > 0,
                    ;
                }
                match self.read_elems(kind, pos, len) {
                    Err(e) => Err(e),
                    Ok(items) => {
                        self.consume_pending();
                        Ok(Value::List(items))
                    },
                }
            },
            Kind::Tuple(ss) => {
                let mut width: usize = 0;
                let mut i: usize = 0;
                proof {
                    assert(ss@.subrange(0, 0) =~= Seq::<Scalar>::empty());
                }
                while i < ss.len()
                    invariant
                        *kind == Kind::Tuple(*ss),
                        len == old(self).next_len@.last().1,
                        pos == old(self).position,
                        pos + len <= old(self).input@.len(),
                        i <= ss@.len(),
                        width == tuple_width(ss@.subrange(0, i as int)),
                        width <= len,
                    decreases ss@.len() - i,
                {
                    proof {
                        lemma_tuple_width_prefix(ss@, i as int);
                    }
                    let w = ss[i].width();
                    if w > len - width {
                        proof {
                            assert(tuple_width(ss@) > len);
                        }
                        return Err(Error::ExpectedSeqEnd);
                    }
                    width = width + w;
                    i = i + 1;
                }
                proof {
                    assert(ss@.subrange(0, ss@.len() as int) =~= ss@);
                }
                if width != len {
                    return Err(Error::ExpectedSeqEnd);
                }
                match self.read_elems(kind, pos, len) {
                    Err(e) => Err(e),
                    Ok(items) => {
                        self.consume_pending();
                        Ok(Value::List(items))
                    },
                }
            },
            Kind::Record(fks) => {
                match self.read_record(fks, pos + len) {
                    Err(e) => Err(e),
                    Ok(fields) => {
                        self.next_len.pop();
                        Ok(Value::Record(fields))
                    },
                }
            },
        }
    }

    /// Reads one record at the cursor, below `end`: its header, then its value
    /// into the field its key names, or past it when no field has that key.
    fn read_field(
        &mut self,
        fks: &Vec<FieldKind>,
        start: usize,
        end: usize,
        fields: &mut Vec<Field>,
        filled: &mut Vec<bool>,
        Ghost(slots): Ghost<Seq<Option<(int, int)>>>,
    ) -> (r: Result<Ghost<Seq<Option<(int, int)>>>, Error>)
        requires
            start <= old(self).position < end <= old(self).input@.len(),
            slots_hold(
                fks@,
                old(self).input@.subrange(start as int, end as int),
                slots,
                old(fields)@,
                old(filled)@,
            ),
        ensures
            final(self).input == old(self).input,
            ({
                let c = old(self).input@.subrange(start as int, end as int);
                let rel = old(self).position - start;
                match r {
                    Ok(next) => {
                        &&& old(self).position < final(self).position <= end
                        &&& final(self).next_len@ == old(self).next_len@
                        &&& walk(fks@, c, rel, slots) == walk(
                            fks@,
                            c,
                            final(self).position - start,
                            next@,
                        )
                        &&& slots_hold(fks@, c, next@, final(fields)@, final(filled)@)
                    },
                    Err(e) => {
                        &&& walk(fks@, c, rel, slots) == Err::<Seq<Option<(int, int)>>, Error>(e)
                        &&& final(fields)@ == old(fields)@
                        &&& final(filled)@ == old(filled)@
                        &&& header_rejects(fks@, c, rel, slots) ==> {
                            &&& final(self).position == old(self).position
                            &&& final(self).next_len@ == old(self).next_len@
                        }
                    },
                }
            }),
        decreases *fks, 0int,
    {
        let ghost c = self.input@.subrange(start as int, end as int);
        let pos = self.position;
        let ghost rel: int = pos - start;
        let key = self.input[pos];
        proof {
            assert(c[rel] == key);
            assert(c.subrange(rel + 1, c.len() as int) =~= self.input@.subrange(
                pos + 1,
                end as int,
            ));
        }
        let header = parse_length(&self.input[pos + 1..end]);
        let (lc, len) = match header {
            Err(e) => {
                return Err(e);
            },
            Ok(h) => h,
        };
        if len > end - (pos + 1 + lc) {
            return Err(Error::ExpectedMapEnd);
        }
        let vstart = pos + 1 + lc;
        let vend = vstart + len;
        proof {
            assert(c.subrange(vstart - start, vend - start) =~= self.input@.subrange(
                vstart as int,
                vend as int,
            ));
        }
        proof {
            assert(decode_length(c.subrange(rel + 1, c.len() as int)) == Ok::<(usize, usize), Error>((lc, len)));
            assert(rel + 1 + lc + len <= c.len());
        }
        let found = Self::find_field(fks, key);
        if let Some(fi) = found {
            proof {
                assert(field_holds(fks@[fi as int], c, slots[fi as int], fields@[fi as int], filled@[fi as int]));
            }
            if filled[fi] {
                proof {
                    assert(field_index(fks@, key) == Some(fi as int));
                    assert(slots[fi as int] is Some);
                }
                return Err(Error::Key(KeyError::Duplicate(key)));
            }
        }
        self.position = vstart;
        self.next_len.push((key, len));
        match found {
            None => {
                self.consume_pending();
                proof {
                    assert(self.next_len@ =~= old(self).next_len@);
                    assert(walk(fks@, c, rel, slots) == walk(fks@, c, vend - start, slots));
                }
                Ok(Ghost(slots))
            },
            Some(fi) => {
                proof {
                    assert(decreases_to!(*fks => fks@));
                    assert(decreases_to!(fks@ => fks@[fi as int]));
                    assert(decreases_to!(fks@[fi as int] => fks@[fi as int].kind));
                }
                let v = self.deserialize_value(&fks[fi].kind);
                match v {
                    Err(e) => Err(e),
                    Ok(x) => {
                        let f = Field {
                            key: fks[fi].key,
                            skip_if_absent: fks[fi].skip_if_absent,
                            value: x,
                        };
                        let ghost old_fields = fields@;
                        let ghost old_filled = filled@;
                        fields.set(fi, f);
                        filled.set(fi, true);
                        let ghost next = slots.update(fi as int, Some((vstart - start, vend - start)));
                        proof {
                            assert(self.next_len@ =~= old(self).next_len@);
                            assert(field_index(fks@, key) == Some(fi as int));
                            assert(walk(fks@, c, rel, slots) == walk(fks@, c, vend - start, next));
                            assert forall|i: int| 0 <= i < fks@.len() implies field_holds(
                                fks@[i],
                                c,
                                next[i],
                                fields@[i],
                                filled@[i],
                            ) by {
                                if i != fi {
                                    assert(field_holds(fks@[i], c, slots[i], old_fields[i], old_filled[i]));
                                }
                            }
                        }
                        Ok(Ghost(next))
                    },
                }
            },
        }
    }

    /// Reads the records from the cursor up to `end` as the fields `fks`.
    fn read_record(&mut self, fks: &Vec<FieldKind>, end: usize) -> (r: Result<Vec<Field>, Error>)
        requires
            old(self).position <= end <= old(self).input@.len(),
        ensures
            final(self).input == old(self).input,
            ({
                let c = old(self).input@.subrange(old(self).position as int, end as int);
                match record_check(fks@, c) {
                    Ok(_) => {
                        &&& r is Ok
                        &&& record_decodes(fks@, c, r->Ok_0@)
                        &&& final(self).position == end
                        &&& final(self).next_len@ == old(self).next_len@
                    },
                    Err(e) => r == Err::<Vec<Field>, Error>(e),
                }
            }),
        decreases *fks, 1int,
    {
        let start = self.position;
        let ghost c = self.input@.subrange(start as int, end as int);
        let n = fks.len();
        let mut fields: Vec<Field> = Vec::new();
        let mut filled: Vec<bool> = Vec::new();
        let mut j: usize = 0;
        while j < n
            invariant
                n == fks@.len(),
                j <= n,
                fields@.len() == j,
                filled@.len() == j,
                forall|i: int|
                    0 <= i < j ==> field_holds(fks@[i], c, None, #[trigger] fields@[i], filled@[i]),
            decreases n - j,
        {
            fields.push(
                Field { key: fks[j].key, skip_if_absent: fks[j].skip_if_absent, value: Value::Absent },
            );
            filled.push(false);
            j = j + 1;
        }
        let ghost mut slots = no_slots(n as nat);
        proof {
            assert forall|i: int| 0 <= i < n implies field_holds(
                fks@[i],
                c,
                slots[i],
                fields@[i],
                filled@[i],
            ) by {
                assert(field_holds(fks@[i], c, None, fields@[i], filled@[i]));
            }
        }
        while self.position < end
            invariant
                n == fks@.len(),
                start == old(self).position,
                start <= self.position <= end,
                end <= self.input@.len(),
                self.input == old(self).input,
                c == self.input@.subrange(start as int, end as int),
                self.next_len@ == old(self).next_len@,
                walk(fks@, c, 0, no_slots(n as nat)) == walk(
                    fks@,
                    c,
                    self.position - start,
                    slots,
                ),
                slots_hold(fks@, c, slots, fields@, filled@),
            decreases end - self.position,
        {
            match self.read_field(fks, start, end, &mut fields, &mut filled, Ghost(slots)) {
                Err(e) => {
                    return Err(e);
                },
                Ok(next) => {
                    proof {
                        slots = next@;
                    }
                },
            }
        }
        proof {
            assert(walk(fks@, c, self.position - start, slots) == Ok::<
                Seq<Option<(int, int)>>,
                Error,
            >(slots));
        }
        let mut k: usize = 0;
        while k < n
            invariant
                n == fks@.len(),
                k <= n,
                self.input == old(self).input,
                self.position == end,
                self.next_len@ == old(self).next_len@,
                c == old(self).input@.subrange(old(self).position as int, end as int),
                walk(fks@, c, 0, no_slots(n as nat)) == Ok::<Seq<Option<(int, int)>>, Error>(slots),
                slots_hold(fks@, c, slots, fields@, filled@),
                forall|i: int| 0 <= i < k ==> !(slots[i] is None && !(fks@[i].kind is Opt)),
            decreases n - k,
        {
            let optional = match fks[k].kind {
                Kind::Opt(_) => true,
                _ => false,
            };
            proof {
                assert(field_holds(fks@[k as int], c, slots[k as int], fields@[k as int], filled@[k as int]));
            }
            if !filled[k] && !optional {
                proof {
                    lemma_first_missing(fks@, slots);
                    if let Some(m) = first_missing(fks@, slots) {
                        let jm = choose|jm: int|
                            0 <= jm < fks@.len() && slots[jm] is None && !(fks@[jm].kind is Opt)
                                && fks@[jm].key == m && forall|i: int|
                                0 <= i < jm ==> !(slots[i] is None && !(fks@[i].kind is Opt));
                        assert(jm == k);
                    }
                }
                return Err(Error::MissingField(fks[k].key));
            }
            k = k + 1;
        }
        proof {
            lemma_first_missing(fks@, slots);
            assert forall|i: int| 0 <= i < n implies {
                &&& #[trigger] fields@[i].key == fks@[i].key
                &&& fields@[i].skip_if_absent == fks@[i].skip_if_absent
                &&& match slots[i] {
                    None => fields@[i].value is Absent,
                    Some((a, b)) => decodes_to(fks@[i].kind, c.subrange(a, b), fields@[i].value),
                }
            } by {
                assert(field_holds(fks@[i], c, slots[i], fields@[i], filled@[i]));
            }
            lemma_fields_decode(fks@, c, slots, fields@);
        }
        Ok(fields)
    }

    /// Reads a whole message against `schema`.
    fn deserialize_struct(&mut self, schema: &Schema) -> (r: Result<Message, Error>)
        requires
            old(self).position == 0,
        ensures
            match dec_message(*schema, old(self).input@) {
                Ok(_) => r is Ok && decodes_message(*schema, old(self).input@, r->Ok_0),
                Err(e) => r == Err::<Message, Error>(e),
            },
    {
        let uk = schema.universal_key.as_slice();
        let key_len = match crate::length::check_universal_key_len(uk) {
            Err(e) => {
                return Err(e);
            },
            Ok(n) => n,
        };
        if self.input.len() <= key_len {
            return Err(Error::ContentLength);
        }
        let header = parse_length(&self.input[key_len..self.input.len()]);
        let (length_len, content_len) = match header {
            Err(e) => {
                return Err(e);
            },
            Ok(h) => h,
        };
        let mut same = true;
        let mut i: usize = 0;
        while i < key_len
            invariant
                key_len == uk@.len(),
                key_len < self.input@.len(),
                i <= key_len,
                same <==> forall|j: int| 0 <= j < i ==> self.input@[j] == uk@[j],
            decreases key_len - i,
        {
            if self.input[i] != uk[i] {
                same = false;
            }
            i = i + 1;
        }
        proof {
            if same {
                assert(self.input@.subrange(0, key_len as int) =~= uk@);
            } else {
                let j = choose|j: int| 0 <= j < key_len && self.input@[j] != uk@[j];
                assert(self.input@.subrange(0, key_len as int)[j] != uk@[j]);
            }
        }
        if !same {
            return Err(Error::Key(KeyError::UniversalKeyMismatch));
        }
        if content_len > self.input.len() - key_len - length_len || content_len != self.input.len()
            - key_len - length_len {
            return Err(Error::ContentLength);
        }
        self.position = key_len + length_len;
        let fields = self.read_record(&schema.fields, self.input.len());
        match fields {
            Err(e) => Err(e),
            Ok(fs) => {
                let mut universal_key: Vec<u8> = Vec::new();
                extend_bytes(&mut universal_key, uk);
                Ok(Message { universal_key, fields: fs })
            },
        }
    }
}

/// Decodes a buffer against `schema`. Records whose key the schema does not
/// know are skipped; optional fields with no record come out `Absent`.
pub fn from_bytes(s: &[u8], schema: &Schema) -> (r: Result<Message, Error>)
    ensures
        match dec_message(*schema, s@) {
            Ok(_) => r is Ok && decodes_message(*schema, s@, r->Ok_0),
            Err(e) => r == Err::<Message, Error>(e),
        },
{
    let mut deserializer = Deserializer::from_bytes(s);
    deserializer.deserialize_struct(schema)
}

/// Checking the checksum trailer of `s`: its last four bytes must be the
/// trailer's key and length and a big-endian checksum, and that checksum must
/// equal the one computed over everything before it.
pub open spec fn checksum_check<C: CheckSumCalc>(s: Seq<u8>, calc: C) -> Result<(), Error> {
    if s.len() < 4 || s.subrange(s.len() - 4, s.len() - 2) != checksum_header() {
        Err(Error::HasNotChecksum)
    } else {
        let stored = be_value(s.subrange(s.len() - 2, s.len() as int)) as u16;
        let computed = calc.spec_checksum(s.subrange(0, s.len() - 2));
        if stored != computed {
            Err(Error::ChecksumMismatch { stored, computed })
        } else {
            Ok(())
        }
    }
}

/// Checks the checksum trailer of `s` with `crc`.
pub fn checksum<C: CheckSumCalc>(s: &[u8], crc: &C) -> (r: Result<(), Error>)
    ensures
        r == checksum_check(s@, *crc),
{
    let n = s.len();
    if n < 4 || s[n - 4] != CHECKSUM_KEY || s[n - 3] != CHECKSUM_LENGTH {
        proof {
            if n >= 4 {
                assert(s@.subrange(n - 4, n - 2)[0] == s@[n - 4]);
                assert(s@.subrange(n - 4, n - 2)[1] == s@[n - 3]);
            }
        }
        return Err(Error::HasNotChecksum);
    }
    proof {
        assert(s@.subrange(n - 4, n - 2) =~= checksum_header());
    }
    let stored = read_be(s, n - 2, 2) as u16;
    let computed = crc.checksum(&s[0..n - 2]);
    if stored != computed {
        return Err(Error::ChecksumMismatch { stored, computed });
    }
    Ok(())
}

/// Checks the checksum trailer of `s` with `crc`, then decodes `s` against
/// `schema` (the trailer is a record no field has, and is skipped).
pub fn from_bytes_with_checksum<C: CheckSumCalc>(s: &[u8], schema: &Schema, crc: C) -> (r: Result<
    Message,
    Error,
>)
    ensures
        match checksum_check(s@, crc) {
            Err(e) => r == Err::<Message, Error>(e),
            Ok(_) => match dec_message(*schema, s@) {
                Ok(_) => r is Ok && decodes_message(*schema, s@, r->Ok_0),
                Err(e) => r == Err::<Message, Error>(e),
            },
        },
{
    match checksum(s, &crc) {
        Err(e) => Err(e),
        Ok(()) => from_bytes(s, schema),
    }
}

} // verus!
