use chainshot::hex::{hex_decode_bytes, hex_with_prefix, parse_h256};

#[test]
fn encodes_bytes_as_lowercase_hex() {
    assert_eq!(hex_with_prefix(&vec![0xab, 0xcd]), b"0xabcd".to_vec());
    assert_eq!(hex_with_prefix(&vec![0x00, 0x0f, 0xf0]), b"0x000ff0".to_vec());
    assert_eq!(hex_with_prefix(&vec![]), b"0x".to_vec());
}

#[test]
fn decodes_either_case() {
    assert_eq!(hex_decode_bytes(&b"abcd".to_vec()), Some(vec![0xab, 0xcd]));
    assert_eq!(hex_decode_bytes(&b"ABCD".to_vec()), Some(vec![0xab, 0xcd]));
    assert_eq!(hex_decode_bytes(&b"09aF".to_vec()), Some(vec![0x09, 0xaf]));
    assert_eq!(hex_decode_bytes(&b"".to_vec()), Some(vec![]));
}

#[test]
fn decode_rejects_bad_shapes() {
    assert_eq!(hex_decode_bytes(&b"abc".to_vec()), None);
    assert_eq!(hex_decode_bytes(&b"zz".to_vec()), None);
}

#[test]
fn parses_prefixed_hash_text() {
    let mut s = b"0x".to_vec();
    for _ in 0..32 {
        s.push(b'a');
        s.push(b'b');
    }
    assert_eq!(parse_h256(&s), Some(vec![0xab; 32]));
}

#[test]
fn parse_h256_rejects_wrong_shapes() {
    assert_eq!(parse_h256(&b"0xabcd".to_vec()), None);
    let mut no_prefix = Vec::new();
    for _ in 0..66 {
        no_prefix.push(b'a');
    }
    assert_eq!(parse_h256(&no_prefix), None);
    let mut bad_digit = b"0x".to_vec();
    for _ in 0..63 {
        bad_digit.push(b'a');
    }
    bad_digit.push(b'!');
    assert_eq!(parse_h256(&bad_digit), None);
}

#[test]
fn hash_text_round_trip() {
    let mut bytes = Vec::new();
    for i in 0..32u8 {
        bytes.push(i * 7);
    }
    let text = hex_with_prefix(&bytes);
    assert_eq!(text.len(), 66);
    assert_eq!(parse_h256(&text), Some(bytes));
}
