use save::hex::{decode_hex_nibbles, try_decode_hex_nibbles, InvalidByte, MaskedBytes};

#[test]
fn hex() {
    assert_eq!(
        "MaskedBytes { bytes: [250, 224], mask: [255, 240] }",
        format!("{:?}", decode_hex_nibbles("FAE")),
    );
    assert_eq!(
        "MaskedBytes { bytes: [18, 52, 86, 120], mask: [255, 255, 255, 255] }",
        format!("{:?}", decode_hex_nibbles("0x12345678")),
    );
    assert_eq!(
        "MaskedBytes { bytes: [], mask: [] }",
        format!("{:?}", decode_hex_nibbles("")),
    );
    assert_eq!(
        "MaskedBytes { bytes: [0], mask: [0] }",
        format!("{:?}", decode_hex_nibbles("_")),
    );
    assert_eq!(
        "MaskedBytes { bytes: [18, 32, 60, 32, 52], mask: [255, 255, 255, 255, 255] }",
        format!("{:?}", MaskedBytes::from("\x12 < \x34".to_string())),
    );
    assert_eq!(
        "MaskedBytes { bytes: [0, 1, 35, 64], mask: [0, 255, 255, 240] }",
        format!("{:?}", decode_hex_nibbles("__01 2 3 4")),
    );
    assert_eq!(
        "MaskedBytes { bytes: [18, 52, 80], mask: [255, 255, 240] }",
        format!("{:?}", decode_hex_nibbles("0x12345")),
    );
    assert_eq!(
        "MaskedBytes { bytes: [0, 0, 255], mask: [255, 0, 255] }",
        format!("{:?}", decode_hex_nibbles("00__FF")),
    );
}

#[test]
fn hex_upper_case_prefix_and_lower_case_digits() {
    let masked = decode_hex_nibbles("0Xabcdef");
    assert_eq!(masked.bytes, vec![0xab, 0xcd, 0xef]);
    assert_eq!(masked.mask, vec![0xff, 0xff, 0xff]);
}

#[test]
fn hex_separators_are_skipped() {
    let masked = decode_hex_nibbles("1,2;3\t4\n5\"6'7 8");
    assert_eq!(masked.bytes, vec![0x12, 0x34, 0x56, 0x78]);
    assert_eq!(masked.mask, vec![0xff; 4]);
}

#[test]
fn hex_prefix_is_only_read_at_the_start() {
    assert_eq!(
        try_decode_hex_nibbles(" 0x12").unwrap_err(),
        InvalidByte { byte: b'x', offset: 2 }
    );
}

#[test]
fn hex_invalid_byte_is_reported() {
    assert_eq!(
        try_decode_hex_nibbles("12g4").unwrap_err(),
        InvalidByte { byte: b'g', offset: 2 }
    );
    assert_eq!(
        try_decode_hex_nibbles("0x-").unwrap_err(),
        InvalidByte { byte: b'-', offset: 2 }
    );
    assert!(try_decode_hex_nibbles("0x12_4").is_ok());
}

#[test]
fn masked_bytes_new_keeps_both_parts() {
    let masked = MaskedBytes::new(vec![1, 2, 3], vec![0xf0, 0x0f, 0xff]);
    assert_eq!(masked.bytes, vec![1, 2, 3]);
    assert_eq!(masked.mask, vec![0xf0, 0x0f, 0xff]);
    let exact = MaskedBytes::from(vec![9_u8, 8]);
    assert_eq!(exact.bytes, vec![9, 8]);
    assert_eq!(exact.mask, vec![0xff, 0xff]);
    let nothing = MaskedBytes::default();
    assert!(nothing.bytes.is_empty() && nothing.mask.is_empty());
}

#[test]
fn masked_bytes_pairs_each_byte_with_its_mask() {
    let masked = decode_hex_nibbles("FA_E");
    assert_eq!(masked.pairs(), vec![(0xfa, 0xff), (0x0e, 0x0f)]);
    assert_eq!(MaskedBytes::default().pairs(), vec![]);
}
