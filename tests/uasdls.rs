use byteorder::{BigEndian, ByteOrder};
use serde_klv::{
    from_bytes, from_bytes_with_checksum, to_bytes, to_bytes_with_crc, CheckSumCalc, Error,
    Field, FieldKind, Kind, Message, Scalar, Schema, Value, CRC,
};

const UAS_KEY: &[u8; 16] = b"\x06\x0e\x2b\x34\x02\x0b\x01\x01\x0e\x01\x03\x01\x01\x00\x00\x00";

fn fk(key: i32, kind: Kind) -> FieldKind {
    FieldKind { key, skip_if_absent: false, kind }
}

fn optional(key: i32, s: Kind) -> FieldKind {
    FieldKind { key, skip_if_absent: true, kind: Kind::Opt(Box::new(s)) }
}

fn sc(s: Scalar) -> Kind {
    Kind::Scalar(s)
}

fn uas_schema() -> Schema {
    Schema {
        universal_key: UAS_KEY.to_vec(),
        fields: vec![
            fk(2, sc(Scalar::U64)),
            fk(5, sc(Scalar::U16)),
            fk(6, sc(Scalar::I16)),
            fk(7, sc(Scalar::I16)),
            optional(11, Kind::Str),
            optional(12, Kind::Str),
            optional(13, sc(Scalar::I32)),
            optional(14, sc(Scalar::I32)),
            optional(15, sc(Scalar::U16)),
            optional(16, sc(Scalar::U16)),
            optional(17, sc(Scalar::U16)),
            optional(18, sc(Scalar::U32)),
            optional(19, sc(Scalar::I32)),
            optional(20, sc(Scalar::I32)),
            optional(21, sc(Scalar::U32)),
            optional(22, sc(Scalar::U32)),
            optional(23, sc(Scalar::I32)),
            optional(24, sc(Scalar::I32)),
            optional(25, sc(Scalar::U16)),
            optional(40, sc(Scalar::I32)),
            optional(41, sc(Scalar::I32)),
            optional(42, sc(Scalar::U16)),
            optional(56, sc(Scalar::U8)),
            optional(57, sc(Scalar::U32)),
            fk(65, sc(Scalar::U8)),
        ],
    }
}

fn value_of(m: &Message, key: i32) -> &Value {
    &m.fields.iter().find(|f| f.key == key).unwrap().value
}

#[test]
fn uasdls_test_checksum() {
    let testdata = &[0x06_u8, 0x0e, 0x2b, 0x34, 0x02, 0x00, 0x81, 0xbb];
    let c = CRC {};
    let checksum = c.checksum(testdata);
    let expect = BigEndian::read_u16(&[0xb4, 0xfd]);
    assert_eq!(checksum, expect);
}

#[test]
fn test_uas_datalink_ls() {
    let buf = vec![
        0x06, 0x0e, 0x2b, 0x34, 0x02, 0x0b, 0x01, 0x01, 0x0e, 0x01, 0x03, 0x01, 0x01, 0x00, 0x00,0x00,
        129, 0x91,
        2, 8, 0, 0x4, 0x6c, 0x8e, 0x20, 0x03, 0x83, 0x85,
        65, 1, 1,
        5, 2, 0x3d, 0x3b,
        6, 2, 0x15, 0x80,
        7, 2, 0x01, 0x52,
        11, 3, 0x45, 0x4f, 0x4e,
        12, 14, 0x47, 0x65, 0x6f, 0x64, 0x65, 0x74, 0x69, 0x63, 0x20, 0x57, 0x47, 0x53, 0x38, 0x34,
        13, 4, 0x4d, 0xc4, 0xdc, 0xbb,
        14, 4, 0xb1, 0xa8, 0x6c, 0xfe,
        15, 2, 0x1f, 0x4a,
        16, 2, 0x00, 0x85,
        17, 2, 0x00, 0x4b,
        18, 4, 0x20, 0xc8, 0xd2, 0x7d,
        19, 4, 0xfc, 0xdd, 0x02, 0xd8,
        20, 4, 0xfe, 0xb8, 0xcb, 0x61,
        21, 4, 0x00, 0x8f, 0x3e, 0x61,
        22, 4, 0x00, 0x00, 0x01, 0xc9,
        23, 4, 0x4d, 0xdd, 0x8c, 0x2a,
        24, 4, 0xb1, 0xbe, 0x9e, 0xf4,
        25, 2, 0x0b, 0x85,
        40, 4, 0x4d, 0xdd, 0x8c, 0x2a,
        41, 4, 0xb1, 0xbe, 0x9e, 0xf4,
        42, 2, 0x0b, 0x85,
        56, 1, 0x2e,
        57, 4, 0x00, 0x8d, 0xd4, 0x29,
        1, 2, 0x1c, 0x5f
        ];

    let x = from_bytes_with_checksum(&buf, &uas_schema(), CRC {}).unwrap();
    // 2009-06-17T16:53:05.099653Z in microseconds since the epoch
    assert_eq!(value_of(&x, 2), &Value::U64(1_245_257_585_099_653));
    assert_eq!(value_of(&x, 65), &Value::U8(1));
    assert_eq!(value_of(&x, 5), &Value::U16(15675));
    assert_eq!(value_of(&x, 13), &Value::Present(Box::new(Value::I32(1304747195))));
    assert_eq!(value_of(&x, 11), &Value::Present(Box::new(Value::Str("EON".to_string()))));
    assert_eq!(
        value_of(&x, 12),
        &Value::Present(Box::new(Value::Str("Geodetic WGS84".to_string())))
    );
}

fn default_message(timestamp: u64, heading: u16, pitch: i16, roll: i16) -> Message {
    let schema = uas_schema();
    let fields = schema
        .fields
        .iter()
        .map(|f| {
            let value = match f.key {
                2 => Value::U64(timestamp),
                5 => Value::U16(heading),
                6 => Value::I16(pitch),
                7 => Value::I16(roll),
                65 => Value::U8(0),
                _ => Value::Absent,
            };
            Field { key: f.key, skip_if_absent: f.skip_if_absent, value }
        })
        .collect();
    Message { universal_key: UAS_KEY.to_vec(), fields }
}

#[test]
fn test_serialize() {
    let t = default_message(1_000_233_000, 123, -345, 456);
    let s = to_bytes(&t).unwrap();
    let x = from_bytes(&s, &uas_schema()).unwrap();
    assert_eq!(t, x);
}

#[test]
fn uas_round_trip_with_block_check() {
    let t = default_message(1_000_233_000, 1, -2, 3);
    let s = to_bytes_with_crc(&t, CRC).unwrap();
    let x = from_bytes_with_checksum(&s, &uas_schema(), CRC).unwrap();
    assert_eq!(t, x);
}

#[test]
fn test_deserialize_error() {
    let buf = vec![
        0x06, 0x0e, 0x2b, 0x34, 0x02, 0x0b, 0x01, 0x01, 0x0e, 0x01, 0x03, 0x01, 0x01, 0x00, 0x00,
        0x01, 0x01,
    ];
    let err = from_bytes(&buf, &uas_schema()).unwrap_err();
    match err {
        Error::Key(_) => {}
        _ => unreachable!(),
    }
    let buf = vec![
        0x06, 0x0e, 0x2b, 0x34, 0x02, 0x0b, 0x01, 0x01, 0x0e, 0x01, 0x03, 0x01, 0x01, 0x00, 0x00,
        0x00,
    ];
    let err = from_bytes(&buf, &uas_schema()).unwrap_err();
    match err {
        Error::ContentLength => {}
        _ => unreachable!(),
    }
}

#[test]
fn block_check_sums_high_and_low_bytes() {
    assert_eq!(CRC.checksum(&[]), 0);
    assert_eq!(CRC.checksum(&[1]), 0x0100);
    assert_eq!(CRC.checksum(&[1, 2]), 0x0102);
    assert_eq!(CRC.checksum(&[0xff, 0xff, 0x01, 0x01]), 0x0100);
}

#[test]
fn block_check_catches_every_bit_flip() {
    let t = default_message(42, 7, -7, 70);
    let s = to_bytes_with_crc(&t, CRC).unwrap();
    assert!(serde_klv::checksum(&s, &CRC).is_ok());
    for i in 0..s.len() {
        for bit in 0..8 {
            let mut attacked = s.clone();
            attacked[i] ^= 1 << bit;
            let r = serde_klv::checksum(&attacked, &CRC);
            if i + 4 >= s.len() && i + 2 < s.len() {
                assert_eq!(r, Err(Error::HasNotChecksum));
            } else {
                assert!(matches!(r, Err(Error::ChecksumMismatch { .. })));
            }
        }
    }
}
