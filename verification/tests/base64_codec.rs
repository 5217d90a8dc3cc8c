use noyalib::base64::{decode, encode};

#[test]
fn roundtrip_empty() {
    assert!(decode("").unwrap().is_empty());
    assert!(encode(&[]).is_empty());
}

#[test]
fn roundtrip_one_byte() {
    for b in 0u8..=255 {
        let s = encode(&[b]);
        assert_eq!(s.len(), 4);
        assert_eq!(decode(&s).unwrap(), vec![b]);
    }
}

#[test]
fn roundtrip_two_bytes() {
    let bytes = [0xab, 0xcd];
    let s = encode(&bytes);
    assert_eq!(s, "q80=");
    assert_eq!(decode(&s).unwrap(), bytes);
}

#[test]
fn roundtrip_three_bytes() {
    let bytes = [0x01, 0x02, 0x03];
    let s = encode(&bytes);
    assert_eq!(s, "AQID");
    assert_eq!(decode(&s).unwrap(), bytes);
}

#[test]
fn roundtrip_hello() {
    let s = encode(b"Hello, World!");
    assert_eq!(s, "SGVsbG8sIFdvcmxkIQ==");
    assert_eq!(decode(&s).unwrap(), b"Hello, World!");
}

#[test]
fn decode_tolerates_whitespace_and_newlines() {
    let s = "SGVs\n  bG8s\n  IFdv\n  cmxk\n  IQ==\n";
    assert_eq!(decode(s).unwrap(), b"Hello, World!");
}

#[test]
fn decode_rejects_invalid_alphabet() {
    assert!(decode("**==").is_err());
}

#[test]
fn decode_rejects_bad_padding_position() {
    assert!(decode("AB==CDEF").is_err());
}

#[test]
fn decode_rejects_bad_length() {
    assert!(decode("ABC").is_err());
}

#[test]
fn roundtrip_random_byte_pattern() {
    let bytes: Vec<u8> = (0..=255_u8).cycle().take(1023).collect();
    let s = encode(&bytes);
    assert_eq!(decode(&s).unwrap(), bytes);
}

#[test]
fn decode_error_messages_name_the_failure() {
    assert_eq!(
        decode("ABC").unwrap_err(),
        "base64 length not a multiple of 4 (after stripping whitespace)"
    );
    assert_eq!(decode("*AAA").unwrap_err(), "invalid base64 character (alphabet)");
    assert_eq!(decode("AB==CDEF").unwrap_err(), "invalid base64 padding");
    // An invalid symbol in third position is reported as padding.
    assert_eq!(decode("AB*A").unwrap_err(), "invalid base64 padding");
}

#[test]
fn decode_accepts_single_and_double_padding_in_last_quartet() {
    assert_eq!(decode("QQ==").unwrap(), b"A");
    assert_eq!(decode("QUI=").unwrap(), b"AB");
    assert_eq!(decode("QUJD").unwrap(), b"ABC");
}

#[test]
fn encode_length_is_four_per_started_triple() {
    for n in 0..10usize {
        let data = vec![7u8; n];
        assert_eq!(encode(&data).len(), 4 * ((n + 2) / 3));
    }
}

#[test]
fn decode_ignores_blanks_anywhere() {
    assert_eq!(decode(" Q\tU\r\nJ D ").unwrap(), b"ABC");
}
