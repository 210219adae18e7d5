use base16384::{Base16384, Base16384Utf8, PADDING_OFFSET, START};

#[test]
fn marker_encodes_remainder_length() {
    for r in 1..7usize {
        let data = vec![1u8; 14 + r];
        let encoded = Base16384::encode(&data);
        assert_eq!(*encoded.last().unwrap(), PADDING_OFFSET + r as u16);
    }
}

#[test]
fn padding_recognizes_markers_only() {
    for r in 0..7u16 {
        assert_eq!(Base16384::padding(PADDING_OFFSET + r), Some(PADDING_OFFSET + r));
    }
    assert_eq!(Base16384::padding(PADDING_OFFSET + 7), None);
    assert_eq!(Base16384::padding(PADDING_OFFSET - 1), None);
    assert_eq!(Base16384::padding(START), None);
    assert_eq!(Base16384::padding(START + 0x3FFE), None);
    assert_eq!(Base16384::padding(0), None);
    assert_eq!(Base16384::padding(u16::MAX), None);
}

#[test]
fn padding_utf8_recognizes_markers_only() {
    // 0x3D04 is the triplet E3 B4 84
    assert_eq!(Base16384Utf8::padding([0xE3, 0xB4, 0x84]), Some(0x3D04));
    // a data symbol's triplet is not a marker
    assert_eq!(Base16384Utf8::padding([0xE4, 0xB8, 0x80]), None);
    // an unframed triplet is not a marker even if its payload bits match
    assert_eq!(Base16384Utf8::padding([0x03, 0xB4, 0x84]), None);
    assert_eq!(Base16384Utf8::padding([0xE3, 0x74, 0x84]), None);
    assert_eq!(Base16384Utf8::padding([0xE3, 0xB4, 0x44]), None);
}

#[test]
fn empty_input_encodes_to_empty() {
    assert_eq!(Base16384::encode(&[]), Vec::<u16>::new());
    assert_eq!(Base16384Utf8::encode(&[]), Vec::<u8>::new());
    assert_eq!(Base16384::decode(&[]).unwrap(), Vec::<u8>::new());
    assert_eq!(Base16384Utf8::decode(&[]).unwrap(), Vec::<u8>::new());
}

#[test]
fn whole_groups_emit_no_marker() {
    for k in 1..5usize {
        let data = vec![9u8; 7 * k];
        let encoded = Base16384::encode(&data);
        assert_eq!(encoded.len(), 4 * k);
        assert!(encoded.iter().all(|&s| (START..START + 0x3FFF).contains(&s)));
    }
}

#[test]
fn lone_zero_marker_decodes_to_empty() {
    // a stream of just the remainder-zero marker strips to an empty body
    assert_eq!(Base16384::decode(&[PADDING_OFFSET]).unwrap(), Vec::<u8>::new());
}
