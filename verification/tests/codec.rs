use redrock::codec::{
    decode_i64, decode_meta, decode_str, decode_u64, encode_i64, encode_meta, encode_str,
    encode_u64,
};

#[test]
fn string_is_length_prefixed() {
    let bytes = encode_str("alpha").unwrap();
    assert_eq!(bytes, vec![5, 0, 0, 0, 0, 0, 0, 0, b'a', b'l', b'p', b'h', b'a']);
}

#[test]
fn empty_string_is_eight_zero_bytes() {
    assert_eq!(encode_str("").unwrap(), vec![0u8; 8]);
    assert_eq!(decode_str(&[0u8; 8]).unwrap(), "");
}

#[test]
fn string_length_counts_utf8_bytes() {
    let bytes = encode_str("é").unwrap();
    assert_eq!(bytes, vec![2, 0, 0, 0, 0, 0, 0, 0, 0xc3, 0xa9]);
}

#[test]
fn string_round_trip() {
    for s in ["", "a", "alpha", "with space", "日本語", "a\u{0}b", "😀"] {
        let bytes = encode_str(s).unwrap();
        assert_eq!(decode_str(&bytes).unwrap(), s);
    }
}

#[test]
fn long_string_round_trip() {
    let s = "x".repeat(70_000);
    let bytes = encode_str(&s).unwrap();
    assert_eq!(bytes.len(), 70_008);
    assert_eq!(&bytes[..8], &[0x70, 0x11, 0x01, 0, 0, 0, 0, 0]);
    assert_eq!(decode_str(&bytes).unwrap(), s);
}

#[test]
fn string_decode_ignores_trailing_bytes() {
    let mut bytes = encode_str("ab").unwrap();
    bytes.push(0xff);
    bytes.push(0x00);
    assert_eq!(decode_str(&bytes).unwrap(), "ab");
}

#[test]
fn string_decode_rejects_short_buffer() {
    assert!(decode_str(&[]).is_err());
    assert!(decode_str(&[1, 0, 0, 0, 0, 0, 0]).is_err());
}

#[test]
fn string_decode_rejects_missing_payload() {
    assert!(decode_str(&[3, 0, 0, 0, 0, 0, 0, 0, b'a', b'b']).is_err());
    assert!(decode_str(&[0xff, 0xff, 0xff, 0xff, 0xff, 0xff, 0xff, 0xff]).is_err());
}

#[test]
fn string_decode_rejects_invalid_utf8() {
    assert!(decode_str(&[1, 0, 0, 0, 0, 0, 0, 0, 0xff]).is_err());
    assert!(decode_str(&[2, 0, 0, 0, 0, 0, 0, 0, 0xc3, 0x28]).is_err());
}

#[test]
fn decode_error_has_a_message() {
    let e = decode_str(&[]).unwrap_err();
    assert!(!e.message().is_empty());
    assert_eq!(e.to_string(), e.message());
    let text = e.message().to_string();
    assert_eq!(e.into_string(), text);
}

#[test]
fn meta_is_eight_little_endian_bytes() {
    assert_eq!(encode_meta(2).unwrap(), vec![2, 0, 0, 0, 0, 0, 0, 0]);
    assert_eq!(
        encode_meta(0x0102030405060708).unwrap(),
        vec![8, 7, 6, 5, 4, 3, 2, 1]
    );
    assert_eq!(encode_meta(u64::MAX).unwrap(), vec![0xff; 8]);
}

#[test]
fn meta_round_trip() {
    for n in [0u64, 1, 255, 256, 65_535, 1 << 40, u64::MAX] {
        assert_eq!(decode_meta(&encode_meta(n).unwrap()).unwrap(), n);
    }
}

#[test]
fn meta_decode_rejects_short_buffer() {
    assert!(decode_meta(&[]).is_err());
    assert!(decode_meta(&[1, 2, 3, 4, 5, 6, 7]).is_err());
}

#[test]
fn meta_decode_ignores_trailing_bytes() {
    assert_eq!(decode_meta(&[1, 0, 0, 0, 0, 0, 0, 0, 9, 9]).unwrap(), 1);
}

#[test]
fn unsigned_counter_is_eight_big_endian_bytes() {
    assert_eq!(encode_u64(0), vec![0u8; 8]);
    assert_eq!(encode_u64(1), vec![0, 0, 0, 0, 0, 0, 0, 1]);
    assert_eq!(encode_u64(0x0102030405060708), vec![1, 2, 3, 4, 5, 6, 7, 8]);
    assert_eq!(encode_u64(u64::MAX), vec![0xff; 8]);
}

#[test]
fn unsigned_counter_agrees_with_std() {
    for n in [0u64, 1, 255, 256, 918733457491587, 1 << 63, u64::MAX - 1, u64::MAX] {
        assert_eq!(encode_u64(n), n.to_be_bytes().to_vec());
        assert_eq!(decode_u64(&n.to_be_bytes()), Some(n));
    }
}

#[test]
fn unsigned_counter_round_trip() {
    for n in [0u64, 1, 42, 1 << 32, u64::MAX] {
        assert_eq!(decode_u64(&encode_u64(n)), Some(n));
    }
}

#[test]
fn unsigned_counter_decode_of_short_buffer_is_absent() {
    assert_eq!(decode_u64(&[]), None);
    assert_eq!(decode_u64(&[0, 0, 0, 0, 0, 0, 1]), None);
}

#[test]
fn unsigned_counter_decode_reads_the_first_eight_bytes() {
    assert_eq!(decode_u64(&[0, 0, 0, 0, 0, 0, 1, 0, 7, 7]), Some(256));
}

#[test]
fn signed_counter_is_twos_complement() {
    assert_eq!(encode_i64(0), vec![0u8; 8]);
    assert_eq!(encode_i64(1), vec![0, 0, 0, 0, 0, 0, 0, 1]);
    assert_eq!(encode_i64(-1), vec![0xff; 8]);
    assert_eq!(encode_i64(-2), vec![0xff, 0xff, 0xff, 0xff, 0xff, 0xff, 0xff, 0xfe]);
    assert_eq!(encode_i64(i64::MIN), vec![0x80, 0, 0, 0, 0, 0, 0, 0]);
    assert_eq!(encode_i64(i64::MAX), vec![0x7f, 0xff, 0xff, 0xff, 0xff, 0xff, 0xff, 0xff]);
}

#[test]
fn signed_counter_agrees_with_std() {
    for n in [0i64, 1, -1, 255, -256, i64::MIN, i64::MIN + 1, i64::MAX, -918733457491587] {
        assert_eq!(encode_i64(n), n.to_be_bytes().to_vec());
        assert_eq!(decode_i64(&n.to_be_bytes()), Some(n));
    }
}

#[test]
fn signed_counter_round_trip() {
    for n in [0i64, 1, -1, i64::MIN, i64::MAX, 1 << 40, -(1 << 40)] {
        assert_eq!(decode_i64(&encode_i64(n)), Some(n));
    }
}

#[test]
fn signed_counter_decode_of_short_buffer_is_absent() {
    assert_eq!(decode_i64(&[]), None);
    assert_eq!(decode_i64(&[0xff; 7]), None);
}

#[test]
fn string_and_counter_layouts_differ() {
    // A counter is not wrapped: its eight bytes are the value itself.
    assert_eq!(encode_u64(5).len(), 8);
    assert_eq!(encode_str("5").unwrap().len(), 9);
    assert_ne!(encode_u64(1), encode_meta(1).unwrap());
}
