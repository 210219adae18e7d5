use base16384::{Base16384, Base16384DecodeError, Base16384Utf8};

fn triplets_of(symbols: &[u16]) -> Vec<u8> {
    symbols
        .iter()
        .flat_map(|&s| {
            [
                0xE0 | (s >> 12) as u8,
                0x80 | ((s >> 6) & 0x3F) as u8,
                0x80 | (s & 0x3F) as u8,
            ]
        })
        .collect()
}

#[test]
fn utf8_decode_equals_symbol_decode() {
    for len in 0..30 {
        let data: Vec<u8> = (0..len).map(|i| ((i * 53 + 5) % 128) as u8).collect();
        let symbols = Base16384::encode(&data);
        let triplets = triplets_of(&symbols);
        assert_eq!(Base16384Utf8::encode(&data), triplets);
        assert_eq!(
            Base16384Utf8::decode(&triplets).unwrap(),
            Base16384::decode(&symbols).unwrap()
        );
    }
}

#[test]
fn utf8_decode_error_matches_symbol_decode_error() {
    // a bad symbol at group position 1 is reported at byte offset 3
    let symbols = vec![0x4E01, 0x4DFF, 0x4E01, 0x4E01];
    let triplets = triplets_of(&symbols);
    assert_eq!(
        Base16384::decode(&symbols),
        Err(Base16384DecodeError::InvalidCharacter { index: 1 })
    );
    assert_eq!(
        Base16384Utf8::decode(&triplets),
        Err(Base16384DecodeError::InvalidCharacter { index: 3 })
    );
}
