use base16384::{Base16384, Base16384DecodeError, Base16384Utf8};

#[test]
fn non_group_length_is_invalid() {
    for n in [1usize, 2, 3, 5, 6, 7, 9] {
        let data = vec![0x4E01u16; n];
        assert_eq!(
            Base16384::decode(&data),
            Err(Base16384DecodeError::InvalidLength),
            "length {n}"
        );
    }
}

#[test]
fn non_group_length_after_marker_is_invalid() {
    // one marker for remainder 1 strips two symbols; three remain unchecked
    let data = vec![0x4E01, 0x4E01, 0x4E01, 0x4E02, 0x3D01];
    assert_eq!(
        Base16384::decode(&data),
        Err(Base16384DecodeError::InvalidLength)
    );
}

#[test]
fn symbol_below_start_is_invalid_character() {
    // the first group is sound; the bad symbol sits at position 1 of the
    // second group, and the decoder reports that in-group position
    let data = vec![
        0x4E01, 0x4E01, 0x4E01, 0x4E01, 0x4E01, 0x4DFF, 0x4E01, 0x4E01,
    ];
    assert_eq!(
        Base16384::decode(&data),
        Err(Base16384DecodeError::InvalidCharacter { index: 1 })
    );
}

#[test]
fn symbol_at_range_top_is_invalid_character() {
    let data = vec![0x4E01, 0x4E01, 0x8DFF, 0x4E01];
    assert_eq!(
        Base16384::decode(&data),
        Err(Base16384DecodeError::InvalidCharacter { index: 2 })
    );
}

#[test]
fn bad_symbol_in_tail_is_invalid_character() {
    // remainder symbols are checked inside their padded group
    let data = vec![0x4DFF, 0x3D01];
    assert_eq!(
        Base16384::decode(&data),
        Err(Base16384DecodeError::InvalidCharacter { index: 0 })
    );
}

#[test]
fn utf8_length_not_multiple_of_three_is_invalid() {
    for n in [1usize, 2, 4, 5, 7] {
        let data = vec![0xE4u8; n];
        assert_eq!(
            Base16384Utf8::decode(&data),
            Err(Base16384DecodeError::InvalidLength),
            "length {n}"
        );
    }
}

#[test]
fn utf8_non_group_length_is_invalid() {
    // three sound triplets are nine bytes: not a whole number of groups
    let data = [[0xE4u8, 0xB8, 0x80]; 3].concat();
    assert_eq!(
        Base16384Utf8::decode(&data),
        Err(Base16384DecodeError::InvalidLength)
    );
}

#[test]
fn utf8_bad_triplet_is_reported_by_byte_offset() {
    // the second triplet of the group carries 0x4DFF, below the data range
    let mut data = Vec::new();
    data.extend([0xE4, 0xB8, 0x80]);
    data.extend([0xE4, 0xB7, 0xBF]);
    data.extend([0xE4, 0xB8, 0x80]);
    data.extend([0xE4, 0xB8, 0x80]);
    assert_eq!(
        Base16384Utf8::decode(&data),
        Err(Base16384DecodeError::InvalidCharacter { index: 3 })
    );
}

#[test]
fn utf8_bad_triplet_in_tail_is_reported_by_byte_offset() {
    // tail triplet carrying 0x4DFF, then the remainder-one marker
    let mut data = Vec::new();
    data.extend([0xE4, 0xB7, 0xBF]);
    data.extend([0xE3, 0xB4, 0x81]);
    assert_eq!(
        Base16384Utf8::decode(&data),
        Err(Base16384DecodeError::InvalidCharacter { index: 0 })
    );
}
