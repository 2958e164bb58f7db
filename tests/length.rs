use serde_klv::{check_universal_key_len, parse_length, Error, KeyError, LengthOctet};

fn verify_length(buf: &[u8], expected_length: usize, expected_content_length: usize) {
    let (length_bytes, content_length) = parse_length(buf).unwrap();
    assert_eq!(length_bytes, expected_length);
    assert_eq!(content_length, expected_content_length);
}

fn encoded(size: usize) -> Vec<u8> {
    let mut buf = Vec::new();
    LengthOctet::length_to_buf(&mut buf, size);
    buf
}

#[test]
fn test_length_octets() {
    let td = [
        (0, LengthOctet::Short(0)),
        (0b0000_0001, LengthOctet::Short(1)),
        (0b0111_1111, LengthOctet::Short(127)),
        (0b1000_0000, LengthOctet::Indefinite),
        (0b1000_0001, LengthOctet::Long(1)),
        (0b1000_0010, LengthOctet::Long(2)),
        (0b1111_1111, LengthOctet::Reserved),
    ];

    for (b, expect) in td {
        let lo = LengthOctet::from_u8(b);
        assert_eq!(lo, expect);
    }
}

#[test]
fn test_parse_length_size1() {
    let cases = [([1_u8], (1, 1)), ([3_u8], (1, 3))];
    for (buf, (expected_length, expected_content_length)) in cases {
        verify_length(&buf, expected_length, expected_content_length);
    }
}

#[test]
fn test_parse_length_size2() {
    let cases = [([0x81, 1], (2, 1)), ([0x81, 8], (2, 8))];
    for (buf, (expected_length, expected_content_length)) in cases {
        verify_length(&buf, expected_length, expected_content_length);
    }
}

#[test]
fn test_parse_length_size3() {
    let cases = [
        ([0x82, 0, 1], (3, 1)),
        ([0x82, 0, 9], (3, 9)),
        ([0x82, 1, 1], (3, 1 * 256 + 1)),
    ];
    for (buf, (expected_length, expected_content_length)) in cases {
        verify_length(&buf, expected_length, expected_content_length);
    }
}

#[test]
fn test_parse_length_size4() {
    let cases = [
        ([0x84, 0, 0, 0, 1], (5, 1)),
        ([0x84, 0, 0, 1, 0], (5, 256)),
        ([0x84, 0, 1, 0, 1], (5, 65536 + 1)),
    ];
    for (buf, (expected_length, expected_content_length)) in cases {
        verify_length(&buf, expected_length, expected_content_length);
    }
}

#[test]
fn test_parse_length_size8() {
    let cases = [
        ([0x88, 0, 0, 0, 0, 0, 0, 0, 1], (9, 1)),
        ([0x88, 0, 0, 0, 3, 0, 0, 0, 1], (9, 1 + 3 * 4294967296)),
        (
            [0x88, 0, 0, 0, 0, 1, 2, 0, 1],
            (9, 1 + 2 * 65536 + 1 * 16777216),
        ),
    ];
    for (buf, (expected_length, expected_content_length)) in cases {
        verify_length(&buf, expected_length, expected_content_length);
    }
}

#[test]
fn parse_length_three_byte_form() {
    verify_length(&[0x83, 1, 0, 2], 4, 65536 + 2);
}

#[test]
fn length_round_trip_at_the_edges() {
    let sizes: [usize; 9] = [
        0,
        127,
        128,
        255,
        256,
        65535,
        65536,
        1 << 24,
        (1usize << 32) - 1,
    ];
    for size in sizes {
        let buf = encoded(size);
        let (consumed, decoded) = parse_length(&buf).unwrap();
        assert_eq!(consumed, buf.len());
        assert_eq!(decoded, size);
    }
}

#[test]
fn length_encodings_are_minimal() {
    assert_eq!(encoded(0), vec![0]);
    assert_eq!(encoded(127), vec![127]);
    assert_eq!(encoded(128), vec![0x81, 128]);
    assert_eq!(encoded(255), vec![0x81, 255]);
    assert_eq!(encoded(256), vec![0x82, 1, 0]);
    assert_eq!(encoded(65535), vec![0x82, 255, 255]);
    assert_eq!(encoded(65536), vec![0x84, 0, 1, 0, 0]);
    assert_eq!(encoded(1 << 32), vec![0x88, 0, 0, 0, 1, 0, 0, 0, 0]);
}

#[test]
fn length_to_buf_appends_and_counts() {
    let mut buf = vec![9, 9];
    let n = LengthOctet::length_to_buf(&mut buf, 300);
    assert_eq!(n, 3);
    assert_eq!(buf, vec![9, 9, 0x82, 1, 44]);
}

#[test]
fn unsupported_length_octets() {
    assert_eq!(parse_length(&[0x80, 1]), Err(Error::UnsupportedLength(0x80)));
    assert_eq!(parse_length(&[0xff, 1]), Err(Error::UnsupportedLength(0xff)));
    assert_eq!(
        parse_length(&[0x85, 0, 0, 0, 0, 1]),
        Err(Error::UnsupportedLength(0x85))
    );
}

#[test]
fn truncated_length_field() {
    assert_eq!(parse_length(&[]), Err(Error::ContentLength));
    assert_eq!(parse_length(&[0x82, 1]), Err(Error::ContentLength));
}

#[test]
fn universal_key_lengths() {
    for n in [1usize, 2, 4, 16] {
        assert_eq!(check_universal_key_len(&vec![0u8; n]), Ok(n));
    }
    for n in [0usize, 3, 5, 15, 17] {
        assert_eq!(
            check_universal_key_len(&vec![0u8; n]),
            Err(Error::Key(KeyError::UniversalKeyLength(n)))
        );
    }
}
