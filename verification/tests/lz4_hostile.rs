use kessel_parquet::lz4::decompress;

#[test]
fn sp149_pt_lz4_zero_offset_rejected() {
    let src = vec![0x40, 0x61, 0x62, 0x63, 0x64, 0x00, 0x00];
    assert!(decompress(&src, 8).is_err());
}

#[test]
fn sp149_pt_lz4_offset_exceeds_output_rejected() {
    let src = vec![0x00, 0x01, 0x00];
    assert!(decompress(&src, 4).is_err());
}

#[test]
fn sp149_pt_lz4_truncated_literal_rejected() {
    let src = vec![0xa0, 1, 2, 3, 4, 5];
    assert!(decompress(&src, 10).is_err());
}

#[test]
fn sp149_pt_lz4_size_mismatch_rejected() {
    let src = vec![0x50, 0x68, 0x65, 0x6c, 0x6c, 0x6f];
    assert!(decompress(&src, 100).is_err());
}

#[test]
fn sp149_pt_lz4_empty_src_with_expected_zero() {
    let out = decompress(&[], 0).expect("empty in empty out");
    assert_eq!(out, vec![]);
}

#[test]
fn sp149_pt_lz4_truncated_offset_rejected() {
    let src = vec![0x40, 0x61, 0x62, 0x63, 0x64, 0x04];
    let err = decompress(&src, 8).unwrap_err();
    let msg = format!("{err:?}");
    assert!(msg.contains("truncated offset") || msg.contains("offset"),
            "expected truncated-offset error, got: {msg}");
}

#[test]
fn sp149_pt_lz4_truncated_lit_len_extra_rejected() {
    let src = vec![0xf0];
    let err = decompress(&src, 16).unwrap_err();
    let msg = format!("{err:?}");
    assert!(msg.contains("truncated lit-len") || msg.contains("lit-len"),
            "expected lit-len-extra truncation error, got: {msg}");
}
