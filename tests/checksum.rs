use byteorder::{BigEndian, ByteOrder};
use serde_klv::{
    checksum, from_bytes, from_bytes_with_checksum, to_bytes, to_bytes_with_crc, CheckSumCalc,
    Error, Field, FieldKind, KeyError, Kind, Message, Scalar, Schema, Value, WrappedCRC,
};

fn field(key: i32, value: Value) -> Field {
    Field { key, skip_if_absent: false, value }
}

fn fk(key: i32, kind: Kind) -> FieldKind {
    FieldKind { key, skip_if_absent: false, kind }
}

fn test_string(s: &str) -> Message {
    Message {
        universal_key: b"TESTDATA00000000".to_vec(),
        fields: vec![field(30, Value::Str(s.to_string())), field(40, Value::U64(123))],
    }
}

fn test_string_schema() -> Schema {
    Schema {
        universal_key: b"TESTDATA00000000".to_vec(),
        fields: vec![fk(30, Kind::Str), fk(40, Kind::Scalar(Scalar::U64))],
    }
}

#[test]
fn test_checksum_error() {
    let t = test_string("ja895puhjekptgsh5uiltja4:rg98ue");
    let buf = to_bytes_with_crc(&t, WrappedCRC::default()).unwrap();
    assert!(checksum(&buf, &WrappedCRC::default()).is_ok());

    for i in 0..buf.len() {
        for bit in 0..8 {
            let mut attacked = buf.clone();
            attacked[i] ^= 1 << bit;
            assert!(checksum(&attacked, &WrappedCRC::default()).is_err());
            assert!(
                from_bytes_with_checksum(&attacked, &test_string_schema(), WrappedCRC::default())
                    .is_err()
            );

            // two flipped bits are caught too
            let j = (i * 7 + bit + 1) % buf.len();
            attacked[j] ^= 1 << ((bit + 3) % 8);
            if attacked != buf {
                assert!(checksum(&attacked, &WrappedCRC::default()).is_err());
            }
        }
        assert!(checksum(&buf, &WrappedCRC::default()).is_ok());
    }
}

#[test]
fn test_checksum_reserved() {
    let t = Message {
        universal_key: b"TESTDATA00000000".to_vec(),
        fields: vec![field(1, Value::U16(0)), field(40, Value::U64(123))],
    };
    let child_kind = Kind::Record(vec![
        fk(1, Kind::Scalar(Scalar::U16)),
        fk(40, Kind::Scalar(Scalar::U64)),
    ]);
    let sc = Schema {
        universal_key: b"TESTDATA00000000".to_vec(),
        fields: vec![fk(1, Kind::Scalar(Scalar::U16)), fk(40, Kind::Scalar(Scalar::U64))],
    };

    // without a checksum, key 1 is an ordinary key
    {
        let buf = to_bytes(&t).unwrap();
        let x = from_bytes(&buf, &sc).unwrap();
        assert_eq!(&t, &x);
    }

    // with a checksum, key 1 is reserved at the outermost depth
    {
        let err = to_bytes_with_crc(&t, WrappedCRC::default());
        assert!(err.is_err());
        assert_eq!(err, Err(Error::Key(KeyError::Reserved(1))));
    }

    // deeper down it is free
    let t = Message {
        universal_key: b"TESTDATA00000000".to_vec(),
        fields: vec![field(10, Value::Record(t.fields))],
    };
    let parent_schema = Schema {
        universal_key: b"TESTDATA00000000".to_vec(),
        fields: vec![fk(10, child_kind)],
    };
    let buf = to_bytes_with_crc(&t, WrappedCRC::default()).unwrap();
    let x = from_bytes(&buf, &parent_schema).unwrap();
    assert_eq!(&t, &x);
}

#[test]
fn checksum_test_checksum() {
    let t = test_string("123");
    let buf = to_bytes_with_crc(&t, WrappedCRC::default()).unwrap();

    let crc = WrappedCRC::default();
    let crc_code = crc.checksum(&buf[0..buf.len() - 2]);
    assert_eq!(BigEndian::read_u16(&buf[buf.len() - 2..]), crc_code);
    assert_eq!(&buf[buf.len() - 4..buf.len() - 2], &[1, 2]);

    let x = from_bytes(&buf, &test_string_schema()).unwrap();
    assert_eq!(&t, &x);
    let x = from_bytes_with_checksum(&buf, &test_string_schema(), WrappedCRC::default()).unwrap();
    assert_eq!(&t, &x);
}

#[test]
fn crc16_known_value() {
    // the check value of CRC-16/ISO-IEC-14443-3-A
    assert_eq!(WrappedCRC::default().checksum(b"123456789"), 0xbf05);
}

#[test]
fn checksum_mismatch_reports_both_values() {
    let t = test_string("123");
    let mut buf = to_bytes_with_crc(&t, WrappedCRC::default()).unwrap();
    let n = buf.len();
    let stored = BigEndian::read_u16(&buf[n - 2..]);
    buf[n - 1] ^= 0x01;
    assert_eq!(
        checksum(&buf, &WrappedCRC::default()),
        Err(Error::ChecksumMismatch { stored: stored ^ 0x01, computed: stored })
    );
}

#[test]
fn missing_trailer() {
    let t = test_string("123");
    let buf = to_bytes(&t).unwrap();
    assert_eq!(checksum(&buf, &WrappedCRC::default()), Err(Error::HasNotChecksum));
    assert_eq!(checksum(&[1, 2], &WrappedCRC::default()), Err(Error::HasNotChecksum));
    assert_eq!(
        from_bytes_with_checksum(&buf, &test_string_schema(), WrappedCRC::default()),
        Err(Error::HasNotChecksum)
    );
}

#[test]
fn checksum_trailer_layout() {
    let t = Message { universal_key: b"AB".to_vec(), fields: vec![field(5, Value::U8(9))] };
    let buf = to_bytes_with_crc(&t, WrappedCRC::default()).unwrap();
    assert_eq!(&buf[..9], &[b'A', b'B', 7, 5, 1, 9, 1, 2, buf[8]]);
    assert_eq!(buf.len(), 10);
    let code = WrappedCRC::default().checksum(&buf[..8]);
    assert_eq!(&buf[8..], &code.to_be_bytes());
}
