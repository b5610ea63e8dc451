use kessel_parquet::thrift::{Reader, StructReader, zigzag_decode};

#[test]
fn varint_and_zigzag_spec_kat() {
    for (n, bytes) in [
        (0u64, &[0x00u8][..]),
        (1, &[0x01]),
        (127, &[0x7f]),
        (128, &[0x80, 0x01]),
        (300, &[0xac, 0x02]),
    ] {
        let mut c = Reader::new(bytes);
        assert_eq!(c.uvarint().unwrap(), n, "uvarint {n}");
        assert!(c.at_end());
    }
    for (v, z) in [
        (0i64, 0u64),
        (-1, 1),
        (1, 2),
        (-2, 3),
        (2, 4),
        (2147483647, 4294967294),
    ] {
        assert_eq!(zigzag_decode(z), v, "zigzag {z}->{v}");
    }
}

#[test]
fn struct_field_header_and_types_spec_kat() {
    let bytes = [0x15, 0x0e, 0x16, 0x03, 0x18, 0x02, b'h', b'i', 0x00];
    let mut s = StructReader::new(&bytes);
    let f1 = s.next_field().unwrap().unwrap();
    assert_eq!(f1.id, 1);
    assert_eq!(s.read_i32(&f1).unwrap(), 7);
    let f2 = s.next_field().unwrap().unwrap();
    assert_eq!(f2.id, 2);
    assert_eq!(s.read_i64(&f2).unwrap(), -2);
    let f3 = s.next_field().unwrap().unwrap();
    assert_eq!(f3.id, 3);
    assert_eq!(s.read_binary(&f3).unwrap(), b"hi");
    assert!(s.next_field().unwrap().is_none());
}

#[test]
fn truncated_input_is_typed_error_not_panic() {
    let mut c = Reader::new(&[0x80]);
    assert!(c.uvarint().is_err());
    let mut s = StructReader::new(&[0x18, 0x05]);
    let f = s.next_field().unwrap().unwrap();
    assert!(s.read_binary(&f).is_err());
}
