use std::time::SystemTime;

use serde_klv::{
    from_bytes, to_bytes, Error, Field, FieldKind, KLVMap, KLVSerializer, KeyError, Kind, Message,
    Scalar, Schema, Value,
};

fn field(key: i32, value: Value) -> Field {
    Field { key, skip_if_absent: false, value }
}

fn skip_field(key: i32, value: Value) -> Field {
    Field { key, skip_if_absent: true, value }
}

fn fk(key: i32, kind: Kind) -> FieldKind {
    FieldKind { key, skip_if_absent: false, kind }
}

fn skip_fk(key: i32, kind: Kind) -> FieldKind {
    FieldKind { key, skip_if_absent: true, kind }
}

fn opt(kind: Kind) -> Kind {
    Kind::Opt(Box::new(kind))
}

fn some(v: Value) -> Value {
    Value::Present(Box::new(v))
}

fn text(s: &str) -> Value {
    Value::Str(s.to_string())
}

fn message(uk: &[u8], fields: Vec<Field>) -> Message {
    Message { universal_key: uk.to_vec(), fields }
}

fn schema(uk: &[u8], fields: Vec<FieldKind>) -> Schema {
    Schema { universal_key: uk.to_vec(), fields }
}

fn find_subsequence(haystack: &[u8], needle: &[u8]) -> Option<usize> {
    haystack
        .windows(needle.len())
        .position(|window| window == needle)
}

/// Runs the encoder step by step: the outermost frame's content must hold
/// `expected`, and the finished buffer must decode back to `t`.
fn check_frames(t: &Message, sc: &Schema, expected: &[u8]) {
    let mut serializer = KLVSerializer::default();
    serializer.serialize_struct(t).unwrap();
    assert!(find_subsequence(serializer.get_cache(), expected).is_some());
    let s = serializer.concat();
    assert_eq!(s, to_bytes(t).unwrap());
    let x = from_bytes(&s, sc).unwrap();
    assert_eq!(t, &x);
}

fn is_key_error<T>(r: Result<T, Error>) -> bool {
    matches!(r, Err(Error::Key(_)))
}

#[test]
fn test_empty() {
    let t = message(
        b"DUMY",
        vec![skip_field(1, Value::Absent), skip_field(2, Value::Absent)],
    );
    let sc = schema(
        b"DUMY",
        vec![skip_fk(1, opt(Kind::Str)), skip_fk(2, opt(Kind::Str))],
    );
    let s = to_bytes(&t).unwrap();
    assert_eq!(s.len(), 5);
    let x = from_bytes(&s, &sc).unwrap();
    assert_eq!(x, t);
    let x = KLVMap::try_from_bytes(&s).unwrap();
    assert_eq!(x.content_len(), 0);
    assert_eq!(x.iter().len(), 0);
}

#[test]
fn test_serialize_error_by_key() {
    let t = message(b"TESTDATA00000000", vec![field(-1, Value::Bool(true))]);
    assert!(is_key_error(to_bytes(&t)));

    let t = message(b"TESTDATA00000000", vec![field(256, Value::Bool(true))]);
    assert!(is_key_error(to_bytes(&t)));

    let t = message(
        b"TESTDATA00000000",
        vec![field(10, Value::Bool(true)), field(10, Value::U8(128))],
    );
    assert!(is_key_error(to_bytes(&t)));

    let t = message(b"TestNoUniversalKey", vec![field(10, Value::Bool(true))]);
    assert!(is_key_error(to_bytes(&t)));

    let t = message(b"TESTDATA00000000", vec![field(10, Value::Bool(true))]);
    let reference = to_bytes(&t).unwrap();
    let other = schema(
        b"TESTDATA00000001",
        vec![fk(10, Kind::Scalar(Scalar::Bool))],
    );
    assert!(is_key_error(from_bytes(&reference, &other)));
}

#[test]
fn test_serialize_str() {
    let t = message(b"TESTDATA00000000", vec![field(30, text("this is str\09joi4t@"))]);
    let sc = schema(b"TESTDATA00000000", vec![fk(30, Kind::Str)]);
    let s = to_bytes(&t).unwrap();
    let x = from_bytes(&s, &sc).unwrap();
    assert_eq!(t, x);
}

#[test]
fn test_serialize_char() {
    let t = message(
        b"TESTDATA00000000",
        vec![
            field(30, Value::Char('\n')),
            field(31, Value::Char(std::char::from_u32(257).unwrap())),
            field(32, Value::Char(std::char::from_u32(u16::MAX as u32 + 1).unwrap())),
        ],
    );
    let sc = schema(
        b"TESTDATA00000000",
        vec![
            fk(30, Kind::Scalar(Scalar::Char)),
            fk(31, Kind::Scalar(Scalar::Char)),
            fk(32, Kind::Scalar(Scalar::Char)),
        ],
    );
    let s = to_bytes(&t).unwrap();
    let x = from_bytes(&s, &sc).unwrap();
    assert_eq!(t, x);
}

#[test]
fn test_serialize_optional_string() {
    let t = message(
        b"TESTDATA00000000",
        vec![
            field(30, text("this is String")),
            field(31, some(text("this is Some"))),
            field(32, Value::Absent),
            skip_field(120, Value::Absent),
            skip_field(121, some(text("none skip"))),
        ],
    );
    let sc = schema(
        b"TESTDATA00000000",
        vec![
            fk(30, Kind::Str),
            fk(31, opt(Kind::Str)),
            fk(32, opt(Kind::Str)),
            skip_fk(120, opt(Kind::Str)),
            skip_fk(121, opt(Kind::Str)),
        ],
    );
    let s = to_bytes(&t).unwrap();
    assert!(find_subsequence(&s, &[32, 0]).is_some());
    assert!(find_subsequence(&s, &[120, 0]).is_none());
    assert!(find_subsequence(&s, &[121, 9]).is_some());
    let x = from_bytes(&s, &sc).unwrap();
    assert_eq!(t, x);
}

#[test]
fn test_serialize_timestamp_micro() {
    let micros = SystemTime::now()
        .duration_since(SystemTime::UNIX_EPOCH)
        .unwrap()
        .as_micros() as u64;
    let t = message(
        b"TESTDATA00000000",
        vec![field(30, text("TestTimestamp struct")), field(31, Value::U64(micros))],
    );
    let sc = schema(
        b"TESTDATA00000000",
        vec![fk(30, Kind::Str), fk(31, Kind::Scalar(Scalar::U64))],
    );
    let s = to_bytes(&t).unwrap();
    let x = from_bytes(&s, &sc).unwrap();
    assert_eq!(x.fields[0].value, text("TestTimestamp struct"));
    assert_eq!(x.fields[1].value, Value::U64(micros));
}

#[test]
fn test_serialize_non_ascii_universal_key() {
    let uk = b"\x06\x0e\x2b\x34\x02\x0b\x01\x01\x0e\x01\x0e\x01\x01\x01\x00\x00";
    let t = message(uk, vec![field(30, text("TestTimestamp struct"))]);
    let sc = schema(uk, vec![fk(30, Kind::Str)]);
    let s = to_bytes(&t).unwrap();
    let x = from_bytes(&s, &sc).unwrap();
    assert_eq!(t, x);
}

#[test]
fn test_serialize_bytes_any() {
    let t = message(
        b"TESTDATA00000000",
        vec![
            field(60, Value::Bytes(vec![255, 128, 64, 32])),
            field(70, Value::Bytes(vec![0, 1, 2, 4, 8, 16, 32, 64])),
            field(71, Value::Unit),
        ],
    );
    let sc = schema(
        b"TESTDATA00000000",
        vec![fk(60, Kind::Bytes), fk(70, Kind::Bytes), fk(71, Kind::Unit)],
    );
    let s = to_bytes(&t).unwrap();
    let x = from_bytes(&s, &sc).unwrap();
    assert_eq!(t, x);
}

#[test]
fn test_serialize_asymmetry() {
    let t = message(
        b"TESTDATA00000000",
        vec![
            field(30, Value::U16(123)),
            field(31, some(Value::U16(345))),
            field(32, Value::Absent),
            skip_field(120, Value::Absent),
            skip_field(121, some(Value::U16(678))),
        ],
    );
    let short = schema(b"TESTDATA00000000", vec![fk(30, Kind::Scalar(Scalar::U16))]);
    let s = to_bytes(&t).unwrap();
    let x = from_bytes(&s, &short).unwrap();
    assert_eq!(x.fields.len(), 1);
    assert_eq!(x.fields[0].value, Value::U16(123));
}

#[test]
fn test_serialize_dump() {
    let child = Value::Record(vec![
        field(10, text("TestString")),
        field(11, Value::I8(127)),
    ]);
    let t = message(
        b"TESTDATA00000000",
        vec![
            field(10, Value::U8(127)),
            field(11, Value::U64(u32::MAX as u64 + 1)),
            field(31, some(Value::U16(1016))),
            field(32, Value::Absent),
            skip_field(120, some(Value::U16(2016))),
            skip_field(121, Value::Absent),
            field(60, text("this is string")),
            field(61, Value::Bytes(b"this is byte".to_vec())),
            field(62, Value::U64(1_000_233_000)),
            field(63, child),
        ],
    );
    let s = to_bytes(&t).unwrap();
    let x = KLVMap::try_from_bytes(&s).unwrap();

    assert_eq!(x.universal_key(), "TESTDATA00000000".as_bytes());
    assert!(x.content_len() > 0);
    assert_eq!(x.iter().len(), 9);

    for v in x.iter() {
        assert!(v.key > 0);
    }
}

fn parent_schema(child: Kind) -> Schema {
    schema(
        b"XYZZ",
        vec![
            fk(10, Kind::Scalar(Scalar::I8)),
            fk(11, Kind::Scalar(Scalar::I64)),
            fk(20, opt(child)),
        ],
    )
}

fn parent(child: Value) -> Message {
    message(
        b"XYZZ",
        vec![
            field(10, Value::I8(-64)),
            field(11, Value::I64(1 + 2_i64.pow(16) + 2_i64.pow(32) + 2_i64.pow(48))),
            field(20, some(child)),
        ],
    )
}

#[test]
fn test_struct() {
    let child = Value::Record(vec![field(10, Value::I16(16)), field(11, Value::I32(32))]);
    let t = parent(child);
    let sc = parent_schema(Kind::Record(vec![
        fk(10, Kind::Scalar(Scalar::I16)),
        fk(11, Kind::Scalar(Scalar::I32)),
    ]));
    check_frames(&t, &sc, &[20, 10, 10, 2, 0, 16, 11, 4, 0, 0, 0, 32]);
}

#[test]
fn test_sequence() {
    let seq = Value::List(vec![
        Value::I32(1),
        Value::I32(2_i32.pow(8) + 1),
        Value::I32(2_i32.pow(16) + 1),
        Value::I32(2_i32.pow(24) + 1),
    ]);
    let t = parent(seq);
    let sc = parent_schema(Kind::Sequence(Scalar::I32));
    check_frames(
        &t,
        &sc,
        &[20, 16, 0, 0, 0, 1, 0, 0, 1, 1, 0, 1, 0, 1, 1, 0, 0, 1],
    );
}

fn min_tuple() -> Value {
    Value::List(vec![
        Value::I8(i8::MIN),
        Value::I16(i16::MIN),
        Value::I32(i32::MIN),
        Value::I64(i64::MIN),
    ])
}

fn min_tuple_kind() -> Kind {
    Kind::Tuple(vec![Scalar::I8, Scalar::I16, Scalar::I32, Scalar::I64])
}

#[test]
fn test_tuple() {
    let t = parent(min_tuple());
    let sc = parent_schema(min_tuple_kind());
    check_frames(
        &t,
        &sc,
        &[20, 15, 128, 128, 0, 128, 0, 0, 0, 128, 0, 0, 0, 0, 0, 0, 0],
    );
}

#[test]
fn test_tuple_struct() {
    let t = parent(min_tuple());
    let sc = parent_schema(min_tuple_kind());
    check_frames(
        &t,
        &sc,
        &[20, 15, 128, 128, 0, 128, 0, 0, 0, 128, 0, 0, 0, 0, 0, 0, 0],
    );
}

#[test]
fn exact_bytes_of_a_small_message() {
    let t = message(
        b"AB",
        vec![field(1, Value::U16(0x0102)), field(2, text("hi")), field(3, Value::Bool(true))],
    );
    let s = to_bytes(&t).unwrap();
    assert_eq!(s, vec![b'A', b'B', 11, 1, 2, 1, 2, 2, 2, b'h', b'i', 3, 1, 1]);
}

#[test]
fn long_content_uses_a_long_length_field() {
    let t = message(b"A", vec![field(1, Value::Bytes(vec![7; 200]))]);
    let s = to_bytes(&t).unwrap();
    assert_eq!(&s[..7], &[b'A', 0x81, 203, 1, 0x81, 200, 7]);
    let sc = schema(b"A", vec![fk(1, Kind::Bytes)]);
    assert_eq!(from_bytes(&s, &sc).unwrap(), t);
}

#[test]
fn same_key_at_different_depths_is_fine() {
    let inner = Value::Record(vec![field(10, Value::U8(1))]);
    let t = message(b"XYZZ", vec![field(10, Value::U8(2)), field(11, inner)]);
    let s = to_bytes(&t).unwrap();
    let sc = schema(
        b"XYZZ",
        vec![
            fk(10, Kind::Scalar(Scalar::U8)),
            fk(11, Kind::Record(vec![fk(10, Kind::Scalar(Scalar::U8))])),
        ],
    );
    assert_eq!(from_bytes(&s, &sc).unwrap(), t);
}

#[test]
fn duplicate_and_out_of_range_keys_name_the_key() {
    let t = message(b"XYZZ", vec![field(5, Value::U8(1)), field(5, Value::U8(2))]);
    assert_eq!(to_bytes(&t), Err(Error::Key(KeyError::Duplicate(5))));
    let t = message(b"XYZZ", vec![field(300, Value::U8(1))]);
    assert_eq!(to_bytes(&t), Err(Error::Key(KeyError::OutOfRange(300))));
    let t = message(b"XYZ", vec![]);
    assert_eq!(to_bytes(&t), Err(Error::Key(KeyError::UniversalKeyLength(3))));
}

#[test]
fn skipped_absent_field_writes_nothing() {
    let with_skip = message(b"XYZZ", vec![skip_field(9, Value::Absent)]);
    assert_eq!(to_bytes(&with_skip).unwrap(), vec![b'X', b'Y', b'Z', b'Z', 0]);
    let without_skip = message(b"XYZZ", vec![field(9, Value::Absent)]);
    assert_eq!(to_bytes(&without_skip).unwrap(), vec![b'X', b'Y', b'Z', b'Z', 2, 9, 0]);
}

#[test]
fn decode_errors() {
    let sc = schema(b"XYZZ", vec![fk(1, Kind::Scalar(Scalar::U16))]);
    // wrong width for a fixed-width field
    assert_eq!(from_bytes(&[b'X', b'Y', b'Z', b'Z', 3, 1, 1, 5], &sc), Err(Error::TypeLength));
    // a record that claims more than its frame holds
    assert_eq!(
        from_bytes(&[b'X', b'Y', b'Z', b'Z', 3, 1, 5, 0], &sc),
        Err(Error::ExpectedMapEnd)
    );
    // outer length shorter than the buffer
    assert_eq!(
        from_bytes(&[b'X', b'Y', b'Z', b'Z', 1, 1, 2, 0, 5], &sc),
        Err(Error::ContentLength)
    );
    // a required field that is not there
    assert_eq!(from_bytes(&[b'X', b'Y', b'Z', b'Z', 0], &sc), Err(Error::MissingField(1)));
    // the same key twice
    assert_eq!(
        from_bytes(&[b'X', b'Y', b'Z', b'Z', 8, 1, 2, 0, 5, 1, 2, 0, 6], &sc),
        Err(Error::Key(KeyError::Duplicate(1)))
    );
    // invalid UTF-8
    let sc = schema(b"XYZZ", vec![fk(1, Kind::Str)]);
    assert_eq!(
        from_bytes(&[b'X', b'Y', b'Z', b'Z', 3, 1, 1, 0xff], &sc),
        Err(Error::ExpectedString)
    );
    // not a Unicode scalar value
    let sc = schema(b"XYZZ", vec![fk(1, Kind::Scalar(Scalar::Char))]);
    assert_eq!(
        from_bytes(&[b'X', b'Y', b'Z', b'Z', 6, 1, 4, 0, 0, 0xd8, 0], &sc),
        Err(Error::ExpectedChar(0xd800))
    );
    // a sequence that is not a whole number of elements
    let sc = schema(b"XYZZ", vec![fk(1, Kind::Sequence(Scalar::U16))]);
    assert_eq!(
        from_bytes(&[b'X', b'Y', b'Z', b'Z', 5, 1, 3, 0, 1, 2], &sc),
        Err(Error::ExpectedSeqEnd)
    );
    // an unsupported length octet
    assert_eq!(
        from_bytes(&[b'X', b'Y', b'Z', b'Z', 0x80], &sc),
        Err(Error::UnsupportedLength(0x80))
    );
}

#[test]
fn unknown_records_are_skipped() {
    let sc = schema(b"XYZZ", vec![fk(2, Kind::Scalar(Scalar::U8))]);
    let x = from_bytes(&[b'X', b'Y', b'Z', b'Z', 7, 1, 2, 9, 9, 2, 1, 42], &sc).unwrap();
    assert_eq!(x, message(b"XYZZ", vec![field(2, Value::U8(42))]));
}

#[test]
fn present_but_empty_string_reads_back_absent() {
    let t = message(b"XYZZ", vec![field(1, some(text("")))]);
    let s = to_bytes(&t).unwrap();
    let sc = schema(b"XYZZ", vec![fk(1, opt(Kind::Str))]);
    let x = from_bytes(&s, &sc).unwrap();
    assert_eq!(x.fields[0].value, Value::Absent);
}

#[test]
fn schema_key_that_is_a_prefix_of_the_buffer_key() {
    let t = message(b"TESTDATA00000000", vec![field(10, Value::Bool(true))]);
    let s = to_bytes(&t).unwrap();
    let sc = schema(b"TEST", vec![fk(10, Kind::Scalar(Scalar::Bool))]);
    assert_eq!(from_bytes(&s, &sc), Err(Error::ContentLength));
    let sc = schema(b"TESTDATA0000000X", vec![fk(10, Kind::Scalar(Scalar::Bool))]);
    assert_eq!(from_bytes(&s, &sc), Err(Error::Key(KeyError::UniversalKeyMismatch)));
}

#[test]
fn buffer_shorter_than_the_key() {
    let sc = schema(b"TESTDATA00000000", vec![]);
    assert_eq!(from_bytes(b"TESTDATA", &sc), Err(Error::ContentLength));
}
