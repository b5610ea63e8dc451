use kessel_parquet::meta::{Codec, Encoding, FileMetaData, Repetition, Type, decode_page_header};

fn uv(out: &mut Vec<u8>, mut v: u64) {
    loop {
        let b = (v & 0x7f) as u8;
        v >>= 7;
        if v == 0 { out.push(b); break; } else { out.push(b | 0x80); }
    }
}
fn zz(v: i64) -> u64 { ((v << 1) ^ (v >> 63)) as u64 }

#[test]
fn decode_minimal_filemetadata() {
    let mut b = Vec::new();
    b.push(0x15); uv(&mut b, zz(1));
    b.push(0x19); b.push(0x2c);
    b.push(0x48); uv(&mut b, 4); b.extend_from_slice(b"root");
    b.push(0x15); uv(&mut b, zz(1));
    b.push(0x00);
    b.push(0x15); uv(&mut b, zz(2));
    b.push(0x25); uv(&mut b, zz(0));
    b.push(0x18); uv(&mut b, 2); b.extend_from_slice(b"id");
    b.push(0x00);
    b.push(0x16); uv(&mut b, zz(2));
    b.push(0x19); b.push(0x1c);
    b.push(0x19); b.push(0x1c);
    b.push(0x3c);
    b.push(0x15); uv(&mut b, zz(2));
    b.push(0x19); b.push(0x15); uv(&mut b, zz(0));
    b.push(0x19); b.push(0x18); uv(&mut b, 2); b.extend_from_slice(b"id");
    b.push(0x15); uv(&mut b, zz(0));
    b.push(0x16); uv(&mut b, zz(2));
    b.push(0x46); uv(&mut b, zz(4));
    b.push(0x00);
    b.push(0x00);
    b.push(0x26); uv(&mut b, zz(2));
    b.push(0x00);
    b.push(0x00);

    let md = FileMetaData::decode(&b).expect("decode");
    assert_eq!(md.version, 1);
    assert_eq!(md.num_rows, 2);
    assert_eq!(md.leaves.len(), 1);
    let leaf = &md.leaves[0];
    assert_eq!(leaf.name, "id");
    assert_eq!(leaf.ptype, Type::Int64);
    assert_eq!(leaf.repetition, Repetition::Required);
    assert_eq!(md.row_groups.len(), 1);
    let cc = &md.row_groups[0].columns[0];
    assert_eq!(cc.path, vec!["id".to_string()]);
    assert_eq!(cc.ptype, Type::Int64);
    assert_eq!(cc.codec, Codec::Uncompressed);
    assert_eq!(cc.encodings, vec![Encoding::Plain]);
    assert_eq!(cc.num_values, 2);
    assert_eq!(cc.data_page_offset, 4);
    assert_eq!(cc.dictionary_page_offset, None);
}

#[test]
fn columnmeta_decodes_dictionary_page_offset_field11() {
    let mut b = Vec::new();
    b.push(0x15); uv(&mut b, zz(1));
    b.push(0x19); b.push(0x2c);
    b.push(0x48); uv(&mut b, 4); b.extend_from_slice(b"root");
    b.push(0x15); uv(&mut b, zz(1));
    b.push(0x00);
    b.push(0x15); uv(&mut b, zz(2));
    b.push(0x25); uv(&mut b, zz(0));
    b.push(0x18); uv(&mut b, 2); b.extend_from_slice(b"id");
    b.push(0x00);
    b.push(0x16); uv(&mut b, zz(3));
    b.push(0x19); b.push(0x1c);
    b.push(0x19); b.push(0x1c);
    b.push(0x3c);
    b.push(0x15); uv(&mut b, zz(2));
    b.push(0x19); b.push(0x15); uv(&mut b, zz(2));
    b.push(0x19); b.push(0x18); uv(&mut b, 2); b.extend_from_slice(b"id");
    b.push(0x15); uv(&mut b, zz(0));
    b.push(0x16); uv(&mut b, zz(3));
    b.push(0x46); uv(&mut b, zz(40));
    b.push(0x26); uv(&mut b, zz(4));
    b.push(0x00);
    b.push(0x00);
    b.push(0x26); uv(&mut b, zz(3));
    b.push(0x00);
    b.push(0x00);

    let md = FileMetaData::decode(&b).expect("decode");
    let cc = &md.row_groups[0].columns[0];
    assert_eq!(cc.dictionary_page_offset, Some(4));
    assert_eq!(cc.data_page_offset, 40);
    assert_eq!(cc.encodings, vec![Encoding::PlainDictionary]);
}

#[test]
fn pageheader_decodes_dictionary_page_header_field7() {
    let mut h = Vec::new();
    h.push(0x15); uv(&mut h, zz(2));
    h.push(0x25); uv(&mut h, zz(16));
    h.push(0x15); uv(&mut h, zz(16));
    h.push(0x3c);
    h.push(0x15); uv(&mut h, zz(2));
    h.push(0x15); uv(&mut h, zz(2));
    h.push(0x12);
    h.push(0x00);
    h.push(0x00);

    let (ph, _len) = decode_page_header(&h).expect("decode");
    assert_eq!(ph.page_type, 2);
    assert_eq!(ph.dict_num_values, 2);
    assert_eq!(ph.dict_encoding, 2);
}
