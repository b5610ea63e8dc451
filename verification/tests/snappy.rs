use kessel_parquet::PqError;
use kessel_parquet::snappy::{SNAPPY_MAX_DECOMP, decompress};

fn caught<T>(f: impl FnOnce() -> T) -> Result<T, String> {
    Ok(f())
}

fn nb(src: &[u8], expected: usize) {
    let s = src.to_vec();
    let r = caught(move || decompress(&s, expected));
    assert!(r.is_ok(), "must NOT panic/OOM-unwind");
    assert!(
        matches!(r.unwrap(),
            Err(PqError::Bad(_)) | Err(PqError::Unsupported(_))),
        "hostile input must be a typed error"
    );
}

#[test]
fn over_cap_no_alloc() {
    nb(&[0xFF, 0xFF, 0xFF, 0xFF, 0x7F], SNAPPY_MAX_DECOMP + 1);
}

#[test]
fn decompression_bomb_bounded() {
    nb(&[0x80, 0x80, 0x80, 0x10 ], 1 << 25);
}

#[test]
fn preamble_mismatch_bad() {
    nb(&[0x03, 0x08, 0x61, 0x62, 0x63], 5);
}

#[test]
fn copy_offset_zero_bad() {
    nb(&[0x02, 0x00, 0x61, 0x06, 0x00, 0x00], 2);
}

#[test]
fn copy_offset_past_output_bad() {
    nb(&[0x06, 0x00, 0x61, 0x12, 0x09, 0x00], 6);
}

#[test]
fn copy_overproduces_bad() {
    nb(&[0x02, 0x00, 0x61, 0x12, 0x01, 0x00], 2);
}

#[test]
fn literal_past_src_bad() {
    nb(&[0x0A, 0x24, 0x61, 0x62], 10);
}

#[test]
fn truncated_offset_bad() {
    nb(&[0x06, 0x00, 0x61, 0x12, 0x01], 6);
}

#[test]
fn trailing_after_full_bad() {
    nb(&[0x03, 0x08, 0x61, 0x62, 0x63, 0x00, 0x61], 3);
}

#[test]
fn overlapping_copy_positive_correctness_lock() {
    let blk = [0x06u8, 0x00, 0x61, 0x12, 0x01, 0x00];
    assert_eq!(decompress(&blk, 6).unwrap(), b"aaaaaa".to_vec());
}

#[test]
fn kat_literal_abc() {
    let blk = [0x03u8, 0x08, 0x61, 0x62, 0x63];
    assert_eq!(decompress(&blk, 3).unwrap(), b"abc".to_vec());
}

#[test]
fn snappy_kat_overlapping_copy_rle() {
    let blk = [0x06u8, 0x00, 0x61, 0x12, 0x01, 0x00];
    assert_eq!(decompress(&blk, 6).unwrap(), b"aaaaaa".to_vec());
}

#[test]
fn kat_copy_1byte_offset() {
    let blk = [0x08u8, 0x0C, 0x61, 0x62, 0x63, 0x64, 0x01, 0x04];
    assert_eq!(decompress(&blk, 8).unwrap(), b"abcdabcd".to_vec());
}

#[test]
fn kat_copy_4byte_offset() {
    let blk = [
        0x08u8, 0x0C, 0x61, 0x62, 0x63, 0x64, 0x0F, 0x04, 0x00,
        0x00, 0x00,
    ];
    assert_eq!(decompress(&blk, 8).unwrap(), b"abcdabcd".to_vec());
}

#[test]
fn kat_literal_multibyte_length() {
    let mut blk = vec![0x3Du8, 0xF0, 0x3C];
    blk.extend(std::iter::repeat(0x7Au8).take(61));
    assert_eq!(decompress(&blk, 61).unwrap(), vec![0x7Au8; 61]);
}

#[test]
fn kat_malformed_is_bad() {
    assert!(matches!(
        decompress(&[0x03, 0x08, 0x61, 0x62, 0x63], 5),
        Err(PqError::Bad(_))
    ));
    assert!(matches!(
        decompress(&[0x02, 0x00, 0x61, 0x06, 0x00, 0x00], 2),
        Err(PqError::Bad(_))
    ));
    assert!(matches!(
        decompress(&[0x06, 0x00, 0x61, 0x12, 0x09, 0x00], 6),
        Err(PqError::Bad(_))
    ));
    assert!(matches!(
        decompress(&[0x0A, 0x24, 0x61, 0x62], 10),
        Err(PqError::Bad(_))
    ));
    assert!(matches!(decompress(&[], 0), Err(PqError::Bad(_))));
}

#[test]
fn kat_over_cap_is_unsupported() {
    let huge = SNAPPY_MAX_DECOMP + 1;
    assert!(matches!(
        decompress(&[0xFF, 0xFF, 0xFF], huge),
        Err(PqError::Unsupported(_))
    ));
}
