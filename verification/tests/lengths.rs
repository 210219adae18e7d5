use base16384::{Base16384, Base16384Utf8, PADDING_OFFSET};

#[test]
fn encode_len_table() {
    // n / 7 * 4 full-group symbols plus {0:0, 1:2, 2:3, 3:3, 4:4, 5:4, 6:5}
    let extra = [0usize, 2, 3, 3, 4, 4, 5];
    for n in 0..60 {
        assert_eq!(Base16384::encode_len(n), n / 7 * 4 + extra[n % 7]);
        assert_eq!(Base16384Utf8::encode_len(n), (n / 7 * 4 + extra[n % 7]) * 3);
    }
    assert_eq!(Base16384::encode_len(0), 0);
    assert_eq!(Base16384::encode_len(7), 4);
    assert_eq!(Base16384::encode_len(8), 6);
    assert_eq!(Base16384::encode_len(32), 20);
    assert_eq!(Base16384::encode_len(1024000), 585144);
}

#[test]
fn decode_len_table() {
    assert_eq!(Base16384::decode_len(4, None), 7);
    assert_eq!(Base16384::decode_len(8, None), 14);
    assert_eq!(Base16384::decode_len(6, Some(PADDING_OFFSET + 1)), 8);
    assert_eq!(Base16384::decode_len(20, Some(PADDING_OFFSET + 4)), 32);
    assert_eq!(Base16384::decode_len(1, Some(PADDING_OFFSET)), 0);
    assert_eq!(Base16384Utf8::decode_len(12, None), 7);
    assert_eq!(Base16384Utf8::decode_len(18, Some(PADDING_OFFSET + 1)), 8);
}

#[test]
fn encode_len_matches_encode() {
    for n in 0..40 {
        let data: Vec<u8> = (0..n).map(|i| (i % 97) as u8).collect();
        let encoded = Base16384::encode(&data);
        assert_eq!(encoded.len(), Base16384::encode_len(n));
        let utf8 = Base16384Utf8::encode(&data);
        assert_eq!(utf8.len(), Base16384Utf8::encode_len(n));
    }
}

#[test]
fn decode_len_inverts_encode_len() {
    for n in 0..40 {
        let data: Vec<u8> = (0..n).map(|i| (i % 97) as u8).collect();
        let encoded = Base16384::encode(&data);
        let padding = encoded.last().cloned().and_then(Base16384::padding);
        assert_eq!(Base16384::decode_len(encoded.len(), padding), n);
    }
}
