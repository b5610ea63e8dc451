use kessel_parquet::{PqError, PqValue};
use kessel_parquet::meta::Type;
use kessel_parquet::plain::{decode_plain, DecimalSpec, PlainSpec};

#[test]
fn plain_decode_spec_kat() {
    let mut b = Vec::new();
    b.extend_from_slice(&7i64.to_le_bytes());
    b.extend_from_slice(&(-2i64).to_le_bytes());
    assert_eq!(
        decode_plain(&b, PlainSpec::plain(Type::Int64), 2).unwrap(),
        vec![PqValue::I64(7), PqValue::I64(-2)]
    );
    let mut c = Vec::new();
    c.extend_from_slice(&1i32.to_le_bytes());
    c.extend_from_slice(&1000i32.to_le_bytes());
    assert_eq!(
        decode_plain(&c, PlainSpec::plain(Type::Int32), 2).unwrap(),
        vec![PqValue::I64(1), PqValue::I64(1000)]
    );
    let mut d = Vec::new();
    d.extend_from_slice(&1.5f64.to_le_bytes());
    d.extend_from_slice(&(-0.25f64).to_le_bytes());
    assert_eq!(
        decode_plain(&d, PlainSpec::plain(Type::Double), 2).unwrap(),
        vec![PqValue::F64((1.5f64).to_bits()), PqValue::F64((-0.25f64).to_bits())]
    );
    let e = 2.0f32.to_le_bytes().to_vec();
    assert_eq!(
        decode_plain(&e, PlainSpec::plain(Type::Float), 1).unwrap(),
        vec![PqValue::F64((2.0f64).to_bits())]
    );
    assert_eq!(
        decode_plain(&[0b0000_0101], PlainSpec::plain(Type::Boolean), 3).unwrap(),
        vec![PqValue::Bool(true), PqValue::Bool(false), PqValue::Bool(true)]
    );
    let mut g = Vec::new();
    g.extend_from_slice(&2u32.to_le_bytes()); g.extend_from_slice(b"hi");
    g.extend_from_slice(&1u32.to_le_bytes()); g.extend_from_slice(b"x");
    assert_eq!(
        decode_plain(&g, PlainSpec::plain(Type::ByteArray), 2).unwrap(),
        vec![PqValue::Bytes(b"hi".to_vec()), PqValue::Bytes(b"x".to_vec())]
    );
}

#[test]
fn plain_truncated_is_typed_error() {
    assert!(decode_plain(&[0u8; 3], PlainSpec::plain(Type::Int64), 1).is_err());
    let mut g = Vec::new();
    g.extend_from_slice(&99u32.to_le_bytes());
    g.extend_from_slice(b"hi");
    assert!(decode_plain(&g, PlainSpec::plain(Type::ByteArray), 1).is_err());
}

#[test]
fn plain_decode_int96_to_timestamp() {
    let mut b = Vec::new();
    for &(nod, jd) in &[(0u64, 2_440_588u32), (0, 2_440_589), (0, 2_440_587)] {
        b.extend_from_slice(&nod.to_le_bytes());
        b.extend_from_slice(&jd.to_le_bytes());
    }
    let spec = PlainSpec::plain(Type::Int96);
    let got = decode_plain(&b, spec, 3).unwrap();
    assert_eq!(
        got,
        vec![
            PqValue::Timestamp(0),
            PqValue::Timestamp(86_400_000_000_000),
            PqValue::Timestamp(-86_400_000_000_000),
        ]
    );
}

#[test]
fn plain_decode_int96_with_nanos_of_day() {
    let mut b = Vec::new();
    b.extend_from_slice(&1_500_000_000u64.to_le_bytes());
    b.extend_from_slice(&2_440_588u32.to_le_bytes());
    assert_eq!(
        decode_plain(&b, PlainSpec::plain(Type::Int96), 1).unwrap(),
        vec![PqValue::Timestamp(1_500_000_000)]
    );
}

#[test]
fn plain_decode_int96_rejects_nanos_of_day_out_of_range() {
    let mut b = Vec::new();
    b.extend_from_slice(&86_400_000_000_000u64.to_le_bytes());
    b.extend_from_slice(&2_440_588u32.to_le_bytes());
    let err = decode_plain(&b, PlainSpec::plain(Type::Int96), 1).unwrap_err();
    assert!(matches!(err, PqError::Bad(_)));
}

#[test]
fn plain_decode_int96_truncated_is_bad() {
    let err = decode_plain(&[0u8; 11], PlainSpec::plain(Type::Int96), 1).unwrap_err();
    assert!(matches!(err, PqError::Bad(_)));
}

#[test]
fn plain_decode_int96_rejects_huge_julian_day_overflow() {
    let mut b = Vec::new();
    b.extend_from_slice(&0u64.to_le_bytes());
    b.extend_from_slice(&u32::MAX.to_le_bytes());
    let err = decode_plain(&b, PlainSpec::plain(Type::Int96), 1).unwrap_err();
    assert!(matches!(err, PqError::Bad(_)));
}

#[test]
fn plain_decode_flba_uuid_to_bytes() {
    let mut b = Vec::new();
    b.extend_from_slice(&[0xAA; 16]);
    b.extend_from_slice(&[0xBB; 16]);
    let spec = PlainSpec::flba(16);
    let got = decode_plain(&b, spec, 2).unwrap();
    assert_eq!(
        got,
        vec![PqValue::Bytes(vec![0xAA; 16]), PqValue::Bytes(vec![0xBB; 16])]
    );
}

#[test]
fn plain_decode_flba_truncated_is_bad() {
    let err = decode_plain(&[0u8; 15], PlainSpec::flba(16), 1).unwrap_err();
    assert!(matches!(err, PqError::Bad(_)));
}

#[test]
fn plain_decode_flba_decimal_sign_extends_to_i128() {
    let mut b = Vec::new();
    b.extend_from_slice(&12345i64.to_be_bytes());
    b.extend_from_slice(&(-456i64).to_be_bytes());
    let spec = PlainSpec::flba_decimal(8, 15, 3);
    let got = decode_plain(&b, spec, 2).unwrap();
    assert_eq!(
        got,
        vec![
            PqValue::Decimal { unscaled: 12345, scale: 3 },
            PqValue::Decimal { unscaled: -456, scale: 3 },
        ]
    );
}

#[test]
fn plain_decode_int32_decimal_widens_to_i128() {
    let mut b = Vec::new();
    b.extend_from_slice(&12345i32.to_le_bytes());
    b.extend_from_slice(&(-456i32).to_le_bytes());
    let spec = PlainSpec::int_decimal(Type::Int32, 5, 2);
    let got = decode_plain(&b, spec, 2).unwrap();
    assert_eq!(
        got,
        vec![
            PqValue::Decimal { unscaled: 12345, scale: 2 },
            PqValue::Decimal { unscaled: -456, scale: 2 },
        ]
    );
}

#[test]
fn plain_decode_int64_decimal_widens_to_i128() {
    let mut b = Vec::new();
    b.extend_from_slice(&12345i64.to_le_bytes());
    b.extend_from_slice(&(-456i64).to_le_bytes());
    let spec = PlainSpec::int_decimal(Type::Int64, 15, 3);
    let got = decode_plain(&b, spec, 2).unwrap();
    assert_eq!(
        got,
        vec![
            PqValue::Decimal { unscaled: 12345, scale: 3 },
            PqValue::Decimal { unscaled: -456, scale: 3 },
        ]
    );
}

#[test]
fn plain_decode_byte_array_decimal() {
    let mut b = Vec::new();
    b.extend_from_slice(&2u32.to_le_bytes());
    b.extend_from_slice(&[0x00, 0x7B]);
    let spec = PlainSpec::byte_array_decimal(5, 2);
    let got = decode_plain(&b, spec, 1).unwrap();
    assert_eq!(
        got,
        vec![PqValue::Decimal { unscaled: 123, scale: 2 }]
    );
}

#[test]
fn plain_decode_byte_array_decimal_rejects_zero_length() {
    let mut b = Vec::new();
    b.extend_from_slice(&0u32.to_le_bytes());
    let err = decode_plain(&b, PlainSpec::byte_array_decimal(5, 2), 1).unwrap_err();
    assert!(matches!(err, PqError::Bad(_)));
}

#[test]
fn plain_decode_byte_array_decimal_rejects_oversized() {
    let mut b = Vec::new();
    b.extend_from_slice(&17u32.to_le_bytes());
    b.extend_from_slice(&[0u8; 17]);
    let err = decode_plain(&b, PlainSpec::byte_array_decimal(38, 2), 1).unwrap_err();
    assert!(matches!(err, PqError::Bad(_)));
}

#[test]
fn plain_decode_int64_byte_identity_after_plainspec_refactor() {
    let mut b = Vec::new();
    b.extend_from_slice(&7i64.to_le_bytes());
    b.extend_from_slice(&(-2i64).to_le_bytes());
    assert_eq!(
        decode_plain(&b, PlainSpec::plain(Type::Int64), 2).unwrap(),
        vec![PqValue::I64(7), PqValue::I64(-2)]
    );
}

#[test]
fn plain_decode_float_double_decimal_rejected() {
    let spec = PlainSpec {
        ptype: Type::Float,
        flba_len: None,
        decimal: Some(DecimalSpec { precision: 5, scale: 2 }),
    };
    let err = decode_plain(&[0u8; 4], spec, 1).unwrap_err();
    assert!(matches!(err, PqError::Bad(_)));
}
