use kessel_parquet::{PqValue, meta, plain};
use kessel_parquet::page::{decode_data_page_v2_nested, decode_page_v1_nested};

#[test]
fn nested_v1_decode_one_rep_three_def_levels() {
    let mut payload = Vec::new();
    payload.extend_from_slice(&2u32.to_le_bytes());
    payload.extend_from_slice(&[0x03, 0x06]);
    payload.extend_from_slice(&3u32.to_le_bytes());
    payload.extend_from_slice(&[0x03, 0x3B, 0x00]);
    payload.extend_from_slice(&10i64.to_le_bytes());
    payload.extend_from_slice(&20i64.to_le_bytes());

    let (rep, def, values) = decode_page_v1_nested(
        &payload,
        0,
        plain::PlainSpec::plain(meta::Type::Int64),
        3,
        1,
        3,
        &[],
    )
    .expect("nested v1 decode");

    assert_eq!(rep, vec![0u32, 1, 1]);
    assert_eq!(def, vec![3u32, 2, 3]);
    assert_eq!(values, vec![PqValue::I64(10), PqValue::I64(20)]);
}

#[test]
fn nested_v2_decode_one_rep_three_def_levels_uncompressed() {
    let mut payload = Vec::new();
    payload.extend_from_slice(&[0x03, 0x06]);
    payload.extend_from_slice(&[0x03, 0x3B, 0x00]);
    payload.extend_from_slice(&10i64.to_le_bytes());
    payload.extend_from_slice(&20i64.to_le_bytes());
    let uncomp = payload.len() as u32;

    let (rep, def, values) = decode_data_page_v2_nested(
        &payload,
        0,
        plain::PlainSpec::plain(meta::Type::Int64),
        3,
        1,
        3,
        2,
        3,
        false,
        meta::Codec::Uncompressed,
        uncomp,
        &[],
    )
    .expect("nested v2 decode");

    assert_eq!(rep, vec![0u32, 1, 1]);
    assert_eq!(def, vec![3u32, 2, 3]);
    assert_eq!(values, vec![PqValue::I64(10), PqValue::I64(20)]);
}
