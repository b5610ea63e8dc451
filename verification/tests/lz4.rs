use kessel_parquet::lz4::decompress;

#[test]
fn kat_literal_only_block() {
    let src = vec![0x50, 0x68, 0x65, 0x6c, 0x6c, 0x6f];
    let out = decompress(&src, 5).expect("decompress");
    assert_eq!(out, b"hello");
}

#[test]
fn kat_lit_then_match() {
    let src = vec![
        0x40, 0x61, 0x62, 0x63, 0x64, 0x04, 0x00,
        0x50, 0x77, 0x78, 0x79, 0x7a, 0x21,
    ];
    let out = decompress(&src, 13).expect("decompress");
    assert_eq!(out, b"abcdabcdwxyz!");
}

#[test]
fn kat_long_literal_extra_bytes() {
    let literals: Vec<u8> = b"0123456789abcdefghij".to_vec();
    let mut src = vec![0xf0, 0x05];
    src.extend_from_slice(&literals);
    let out = decompress(&src, 20).expect("decompress");
    assert_eq!(out, literals);
}

#[test]
fn kat_rejects_zero_offset() {
    let src = vec![0x40, 0x61, 0x62, 0x63, 0x64, 0x00, 0x00];
    let err = decompress(&src, 8).unwrap_err();
    assert!(format!("{err:?}").contains("zero offset"), "got: {err:?}");
}

#[test]
fn kat_rejects_size_mismatch() {
    let src = vec![0x50, 0x68, 0x65, 0x6c, 0x6c, 0x6f];
    let err = decompress(&src, 10).unwrap_err();
    let msg = format!("{err:?}");
    assert!(msg.contains("decoded 5") || msg.contains("expected 10"), "got: {msg}");
}

#[test]
fn lz4_kat_overlapping_copy_rle() {
    let src = vec![
        0x10, 0x61, 0x01, 0x00,
        0x10, 0x7a,
    ];
    let out = decompress(&src, 6).expect("rle decompress");
    assert_eq!(out, b"aaaaaz");
}
