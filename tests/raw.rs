use serde_klv::{to_bytes, Error, Field, KLVMap, KLVRaw, Message, Value};

fn field(key: i32, value: Value) -> Field {
    Field { key, skip_if_absent: false, value }
}

#[test]
fn generic_parse_example() {
    let buf = vec![0, 0, 0, 0, 3, 10, 1, 128];
    let x = KLVMap::try_from_bytes(&buf).unwrap();
    assert_eq!(x.universal_key(), "\0\0\0\0".as_bytes());
    assert_eq!(x.content_len(), 3);
    assert_eq!(x.iter().len(), 1);
    let r = &x.iter()[0];
    assert_eq!(r.key, 10);
    assert_eq!(r.position, 5);
    assert_eq!(r.length, 1);
    assert_eq!(r.value, Some(&[128u8][..]));
}

#[test]
fn generic_parse_of_an_encoded_message() {
    let t = Message {
        universal_key: b"TESTDATA00000000".to_vec(),
        fields: vec![
            field(10, Value::U8(1)),
            field(11, Value::Absent),
            field(12, Value::Record(vec![field(1, Value::U16(7))])),
        ],
    };
    let buf = to_bytes(&t).unwrap();
    let x = KLVMap::try_from_bytes(&buf).unwrap();
    assert_eq!(x.universal_key(), b"TESTDATA00000000");
    assert_eq!(x.content_len(), buf.len() - 17);
    assert_eq!(x.iter().len(), 3);
    assert_eq!(x.iter()[1].key, 11);
    assert_eq!(x.iter()[1].value, None);
    assert_eq!(x.iter()[2].value, Some(&[1u8, 2, 0, 7][..]));
}

#[test]
fn generic_parse_first_fit() {
    // a one-byte key also fits here, so it is the one taken
    let buf = vec![7, 2, 1, 0];
    let x = KLVMap::try_from_bytes(&buf).unwrap();
    assert_eq!(x.universal_key(), &[7]);
    assert_eq!(x.content_len(), 2);
}

#[test]
fn generic_parse_errors() {
    assert!(matches!(KLVMap::try_from_bytes(&[1]), Err(Error::ContentLength)));
    assert!(matches!(KLVMap::try_from_bytes(&[1, 2, 3]), Err(Error::ContentLength)));
    assert!(matches!(KLVMap::try_from_bytes(&[0, 0, 0, 0, 2, 1, 5]), Err(Error::ExpectedMapEnd)));
}

#[test]
fn raw_record_from() {
    let data = [1u8, 2, 3];
    let r = KLVRaw::from(4, 9, 2, &data);
    assert_eq!((r.key, r.position, r.length), (4, 9, 2));
    assert_eq!(r.value, Some(&data[0..2]));
    let r = KLVRaw::from(4, 9, 0, &data);
    assert_eq!(r.value, None);
}

#[test]
fn generic_parse_may_pick_a_shorter_key() {
    // the second byte of this four-byte key reads as a length that fits the
    // whole buffer, so a one-byte key is taken, and the records after it do
    // not line up
    let t = Message { universal_key: vec![0, 5, 0, 0], fields: vec![field(9, Value::Absent)] };
    let buf = to_bytes(&t).unwrap();
    assert_eq!(buf, vec![0, 5, 0, 0, 2, 9, 0]);
    assert!(matches!(KLVMap::try_from_bytes(&buf), Err(Error::ExpectedMapEnd)));
}
