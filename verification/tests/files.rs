use kessel_parquet::{PqError, PqValue, extract};

fn caught<T>(f: impl FnOnce() -> T) -> Result<T, String> {
    Ok(f())
}

const GZ_7_NEG2: &[u8] = &[
    0x1f,0x8b,0x08,0x00,0xb8,0xa3,0x0c,0x6a,0x02,0xff,
    0x63,0x67,0x80,0x80,0x7f,0xff,0x21,0x00,0x00,0xcb,
    0xb3,0x8e,0x99,0x10,0x00,0x00,0x00,
];

fn uv(out: &mut Vec<u8>, mut v: u64) {
    loop {
        let b = (v & 0x7f) as u8;
        v >>= 7;
        if v == 0 { out.push(b); break; } else { out.push(b | 0x80); }
    }
}
fn zz(v: i64) -> u64 { ((v << 1) ^ (v >> 63)) as u64 }

fn page_header_bytes(num_values: i32, data_bytes: i32) -> Vec<u8> {
    let mut h = Vec::new();
    h.push(0x15); uv(&mut h, zz(0));
    h.push(0x15); uv(&mut h, zz(data_bytes as i64));
    h.push(0x15); uv(&mut h, zz(data_bytes as i64));
    h.push(0x2c);
    h.push(0x15); uv(&mut h, zz(num_values as i64));
    h.push(0x15); uv(&mut h, zz(0));
    h.push(0x00);
    h.push(0x00);
    h
}

fn page_header_dict_bytes(num_values: i32, data_bytes: i32) -> Vec<u8> {
    let mut h = Vec::new();
    h.push(0x15); uv(&mut h, zz(0));
    h.push(0x15); uv(&mut h, zz(data_bytes as i64));
    h.push(0x15); uv(&mut h, zz(data_bytes as i64));
    h.push(0x2c);
    h.push(0x15); uv(&mut h, zz(num_values as i64));
    h.push(0x15); uv(&mut h, zz(2));
    h.push(0x00);
    h.push(0x00);
    h
}

fn filemetadata_bytes(
    encoding: i64,
    codec: i64,
    repetition: i64,
    chunk_ptype: i64,
    data_page_offset: i64,
) -> Vec<u8> {
    let mut b = Vec::new();
    b.push(0x15); uv(&mut b, zz(2));

    b.push(0x19); b.push(0x2c);

    b.push(0x48); uv(&mut b, 6); b.extend_from_slice(b"schema");
    b.push(0x15); uv(&mut b, zz(1));
    b.push(0x00);

    b.push(0x15); uv(&mut b, zz(2));
    b.push(0x25); uv(&mut b, zz(repetition));
    b.push(0x18); uv(&mut b, 2); b.extend_from_slice(b"id");
    b.push(0x00);

    b.push(0x16); uv(&mut b, zz(2));

    b.push(0x19); b.push(0x1c);

    b.push(0x19); b.push(0x1c);

    b.push(0x3c);

    b.push(0x15); uv(&mut b, zz(chunk_ptype));
    b.push(0x19); b.push(0x15); uv(&mut b, zz(encoding));
    b.push(0x19); b.push(0x18); uv(&mut b, 2); b.extend_from_slice(b"id");
    b.push(0x15); uv(&mut b, zz(codec));
    b.push(0x16); uv(&mut b, zz(2));
    b.push(0x46); uv(&mut b, zz(data_page_offset));
    b.push(0x00);
    b.push(0x00);

    b.push(0x26); uv(&mut b, zz(2));
    b.push(0x00);

    b.push(0x00);
    b
}

fn build_parquet_file(
    encoding: i64,
    codec: i64,
    repetition: i64,
    use_dict_page_hdr: bool,
) -> Vec<u8> {
    build_parquet_file_inner(encoding, codec, repetition, 2, use_dict_page_hdr)
}

fn build_parquet_file_with_chunk_type(chunk_ptype: i64) -> Vec<u8> {
    build_parquet_file_inner(0, 0, 0, chunk_ptype, false)
}

fn build_parquet_file_inner(
    encoding: i64,
    codec: i64,
    repetition: i64,
    chunk_ptype: i64,
    use_dict_page_hdr: bool,
) -> Vec<u8> {
    let mut page_data = Vec::new();
    page_data.extend_from_slice(&7i64.to_le_bytes());
    page_data.extend_from_slice(&(-2i64).to_le_bytes());
    let data_bytes = page_data.len() as i32;

    let hdr = if use_dict_page_hdr {
        page_header_dict_bytes(2, data_bytes)
    } else {
        page_header_bytes(2, data_bytes)
    };

    let data_page_offset: i64 = 4;

    let meta = filemetadata_bytes(
        encoding, codec, repetition, chunk_ptype, data_page_offset,
    );
    let mlen = meta.len() as u32;

    let mut file = Vec::new();
    file.extend_from_slice(b"PAR1");
    file.extend_from_slice(&hdr);
    file.extend_from_slice(&page_data);
    file.extend_from_slice(&meta);
    file.extend_from_slice(&mlen.to_le_bytes());
    file.extend_from_slice(b"PAR1");
    file
}

#[test]
fn extract_golden_int64_two_rows() {
    let file = build_parquet_file(0, 0, 0, false);
    let rows = extract(&file, &["id"]).expect("extract");
    assert_eq!(rows, vec![
        vec![PqValue::I64(7)],
        vec![PqValue::I64(-2)],
    ]);
}

fn build_gzip_plain_int64_file_inner(gz: &[u8], comp_override: Option<i64>) -> Vec<u8> {
    let uncomp: i64 = 16;
    let comp = comp_override.unwrap_or(gz.len() as i64);

    let mut hdr = Vec::new();
    hdr.push(0x15); uv(&mut hdr, zz(0));
    hdr.push(0x15); uv(&mut hdr, zz(uncomp));
    hdr.push(0x15); uv(&mut hdr, zz(comp));
    hdr.push(0x2c);
    hdr.push(0x15); uv(&mut hdr, zz(2));
    hdr.push(0x15); uv(&mut hdr, zz(0));
    hdr.push(0x00); hdr.push(0x00);

    let data_page_offset: i64 = 4;

    let mut m = Vec::new();
    m.push(0x15); uv(&mut m, zz(2));
    m.push(0x19); m.push(0x2c);
    m.push(0x48); uv(&mut m, 6); m.extend_from_slice(b"schema");
    m.push(0x15); uv(&mut m, zz(1));
    m.push(0x00);
    m.push(0x15); uv(&mut m, zz(2));
    m.push(0x25); uv(&mut m, zz(0));
    m.push(0x18); uv(&mut m, 2); m.extend_from_slice(b"id");
    m.push(0x00);
    m.push(0x16); uv(&mut m, zz(2));
    m.push(0x19); m.push(0x1c);
    m.push(0x19); m.push(0x1c);
    m.push(0x3c);
    m.push(0x15); uv(&mut m, zz(2));
    m.push(0x19); m.push(0x15); uv(&mut m, zz(0));
    m.push(0x19); m.push(0x18); uv(&mut m, 2); m.extend_from_slice(b"id");
    m.push(0x15); uv(&mut m, zz(2));
    m.push(0x16); uv(&mut m, zz(2));
    m.push(0x46); uv(&mut m, zz(data_page_offset));
    m.push(0x00); m.push(0x00);
    m.push(0x26); uv(&mut m, zz(2));
    m.push(0x00); m.push(0x00);

    let mut f = Vec::new();
    f.extend_from_slice(b"PAR1");
    f.extend_from_slice(&hdr);
    f.extend_from_slice(gz);
    let mlen = m.len() as u32;
    f.extend_from_slice(&m);
    f.extend_from_slice(&mlen.to_le_bytes());
    f.extend_from_slice(b"PAR1");
    f
}

fn build_gzip_plain_int64_file(gz: &[u8]) -> Vec<u8> {
    build_gzip_plain_int64_file_inner(gz, None)
}

#[test]
fn extract_decodes_gzip_plain_int64() {
    let f = build_gzip_plain_int64_file(GZ_7_NEG2);
    assert_eq!(
        extract(&f, &["id"]).expect("gzip"),
        vec![vec![PqValue::I64(7)], vec![PqValue::I64(-2)]],
    );
}

#[test]
fn extract_gzip_uncompressed_snappy_identical() {
    let g = extract(&build_gzip_plain_int64_file(GZ_7_NEG2), &["id"]).unwrap();
    let p = extract(&build_parquet_file(0, 0, 0, false), &["id"]).unwrap();
    let s = extract(&build_snappy_plain_int64_file(), &["id"]).unwrap();
    assert_eq!(g, p);
    assert_eq!(g, s);
    assert_eq!(g, vec![vec![PqValue::I64(7)], vec![PqValue::I64(-2)]]);
}

#[test]
fn extract_rejects_lz4_codec_obj2c() {
    let f = build_parquet_file(0, 4, 0, false);
    assert!(
        matches!(extract(&f, &["id"]), Err(PqError::Unsupported(_))),
        "LZ4 codec must be Unsupported (OBJ-2c)"
    );
}

#[test]
fn extract_gzip_lying_compressed_size_is_bad() {
    let file = build_gzip_plain_int64_file_inner(GZ_7_NEG2, Some(10_000_000));
    let owned = file.clone();
    let r = caught(move || extract(&owned, &["id"]));
    assert!(r.is_ok(), "must not panic");
    assert!(
        matches!(r.unwrap(), Err(PqError::Bad(_))),
        "lying compressed_page_size must yield PqError::Bad (page data truncated)"
    );
}

#[test]
fn extract_rejects_missing_column() {
    let good_file = build_parquet_file(0, 0, 0, false);
    assert!(
        matches!(extract(&good_file, &["missing"]), Err(PqError::Bad(_))),
        "missing column must be Bad"
    );
}

#[test]
fn extract_rejects_schema_chunk_type_mismatch() {
    let mismatch_file = build_parquet_file_with_chunk_type(1);
    assert!(
        matches!(extract(&mismatch_file, &["id"]), Err(PqError::Bad(_))),
        "schema/chunk ptype mismatch must be Bad"
    );
}

fn build_dict_int64_file_with_dict_offset(dict_page_offset_override: Option<i64>) -> Vec<u8> {
    let mut dict_data = Vec::new();
    dict_data.extend_from_slice(&7i64.to_le_bytes());
    dict_data.extend_from_slice(&(-2i64).to_le_bytes());
    let dbytes = dict_data.len() as i64;
    let mut dict_hdr = Vec::new();
    dict_hdr.push(0x15); uv(&mut dict_hdr, zz(2));
    dict_hdr.push(0x15); uv(&mut dict_hdr, zz(dbytes));
    dict_hdr.push(0x15); uv(&mut dict_hdr, zz(dbytes));
    dict_hdr.push(0x4c);
    dict_hdr.push(0x15); uv(&mut dict_hdr, zz(2));
    dict_hdr.push(0x15); uv(&mut dict_hdr, zz(2));
    dict_hdr.push(0x12);
    dict_hdr.push(0x00);
    dict_hdr.push(0x00);

    let data_payload: Vec<u8> = vec![0x01, 0x03, 0x04];
    let pbytes = data_payload.len() as i64;
    let mut data_hdr = Vec::new();
    data_hdr.push(0x15); uv(&mut data_hdr, zz(0));
    data_hdr.push(0x15); uv(&mut data_hdr, zz(pbytes));
    data_hdr.push(0x15); uv(&mut data_hdr, zz(pbytes));
    data_hdr.push(0x2c);
    data_hdr.push(0x15); uv(&mut data_hdr, zz(3));
    data_hdr.push(0x15); uv(&mut data_hdr, zz(2));
    data_hdr.push(0x00);
    data_hdr.push(0x00);

    let correct_dict_page_offset: i64 = 4;
    let f11_dict_page_offset = dict_page_offset_override.unwrap_or(correct_dict_page_offset);
    let data_page_offset: i64 =
        4 + dict_hdr.len() as i64 + dict_data.len() as i64;

    let mut m = Vec::new();
    m.push(0x15); uv(&mut m, zz(2));
    m.push(0x19); m.push(0x2c);
    m.push(0x48); uv(&mut m, 6); m.extend_from_slice(b"schema");
    m.push(0x15); uv(&mut m, zz(1));
    m.push(0x00);
    m.push(0x15); uv(&mut m, zz(2));
    m.push(0x25); uv(&mut m, zz(0));
    m.push(0x18); uv(&mut m, 2); m.extend_from_slice(b"id");
    m.push(0x00);
    m.push(0x16); uv(&mut m, zz(3));
    m.push(0x19); m.push(0x1c);
    m.push(0x19); m.push(0x1c);
    m.push(0x3c);
    m.push(0x15); uv(&mut m, zz(2));
    m.push(0x19); m.push(0x15); uv(&mut m, zz(2));
    m.push(0x19); m.push(0x18); uv(&mut m, 2); m.extend_from_slice(b"id");
    m.push(0x15); uv(&mut m, zz(0));
    m.push(0x16); uv(&mut m, zz(3));
    m.push(0x46); uv(&mut m, zz(data_page_offset));
    m.push(0x26); uv(&mut m, zz(f11_dict_page_offset));
    m.push(0x00);
    m.push(0x00);
    m.push(0x26); uv(&mut m, zz(3));
    m.push(0x00);
    m.push(0x00);

    let mut f = Vec::new();
    f.extend_from_slice(b"PAR1");
    f.extend_from_slice(&dict_hdr);
    f.extend_from_slice(&dict_data);
    f.extend_from_slice(&data_hdr);
    f.extend_from_slice(&data_payload);
    let mlen = m.len() as u32;
    f.extend_from_slice(&m);
    f.extend_from_slice(&mlen.to_le_bytes());
    f.extend_from_slice(b"PAR1");
    f
}

fn build_dict_int64_file() -> Vec<u8> {
    build_dict_int64_file_with_dict_offset(None)
}

#[test]
fn extract_decodes_dictionary_int64() {
    let file = build_dict_int64_file();
    let rows = extract(&file, &["id"]).expect("extract");
    assert_eq!(rows, vec![
        vec![PqValue::I64(7)],
        vec![PqValue::I64(7)],
        vec![PqValue::I64(-2)],
    ]);
}

#[test]
fn extract_plain_and_dict_are_identical() {
    let plain = build_parquet_file(0, 0, 0, false);
    let plain_rows = extract(&plain, &["id"]).expect("plain");
    let dict_rows = extract(&build_dict_int64_file(), &["id"])
        .expect("dict");
    assert_eq!(plain_rows, vec![vec![PqValue::I64(7)],
                                vec![PqValue::I64(-2)]]);
    assert_eq!(dict_rows, vec![vec![PqValue::I64(7)],
                               vec![PqValue::I64(7)],
                               vec![PqValue::I64(-2)]]);
    assert_eq!(plain_rows[0], dict_rows[0]);
    assert_eq!(plain_rows[1], dict_rows[2]);
}

#[test]
fn extract_rejects_delta_encoding() {
    let file = build_parquet_file(5, 0, 0, false);
    assert!(
        matches!(extract(&file, &["id"]), Err(PqError::Unsupported(_))),
        "DELTA encoding must be Unsupported"
    );
}

#[test]
fn extract_truncated_file_is_bad() {
    let mut f = build_dict_int64_file();
    f.truncate(8);
    let owned = f.clone();
    let r = caught(move || extract(&owned, &["id"]));
    assert!(r.is_ok(), "must not panic");
    assert!(matches!(r.unwrap(), Err(PqError::Bad(_))));
}

#[test]
fn extract_dict_page_offset_past_eof_is_bad() {
    let file = build_dict_int64_file_with_dict_offset(Some(10_000_000));
    let owned = file.clone();
    let r = caught(move || extract(&owned, &["id"]));
    assert!(r.is_ok(), "must not panic");
    assert!(matches!(r.unwrap(), Err(PqError::Bad(_))));
}

fn snappy_literal_block(raw: &[u8]) -> Vec<u8> {
    let mut b = Vec::new();
    let mut n = raw.len() as u64;
    loop {
        let byte = (n & 0x7f) as u8;
        n >>= 7;
        if n == 0 { b.push(byte); break; } else { b.push(byte | 0x80); }
    }
    let l1 = (raw.len() - 1) as u8;
    assert!((raw.len() as u64) >= 1 && l1 < 60, "helper: small literals only");
    b.push(l1 << 2);
    b.extend_from_slice(raw);
    b
}

fn build_snappy_plain_int64_file_inner(comp_override: Option<i64>) -> Vec<u8> {
    let mut raw = Vec::new();
    raw.extend_from_slice(&7i64.to_le_bytes());
    raw.extend_from_slice(&(-2i64).to_le_bytes());
    let block = snappy_literal_block(&raw);
    let uncomp = raw.len() as i64;
    let comp = comp_override.unwrap_or(block.len() as i64);

    let mut hdr = Vec::new();
    hdr.push(0x15); uv(&mut hdr, zz(0));
    hdr.push(0x15); uv(&mut hdr, zz(uncomp));
    hdr.push(0x15); uv(&mut hdr, zz(comp));
    hdr.push(0x2c);
    hdr.push(0x15); uv(&mut hdr, zz(2));
    hdr.push(0x15); uv(&mut hdr, zz(0));
    hdr.push(0x00); hdr.push(0x00);

    let data_page_offset: i64 = 4;

    let mut m = Vec::new();
    m.push(0x15); uv(&mut m, zz(2));
    m.push(0x19); m.push(0x2c);
    m.push(0x48); uv(&mut m, 6); m.extend_from_slice(b"schema");
    m.push(0x15); uv(&mut m, zz(1));
    m.push(0x00);
    m.push(0x15); uv(&mut m, zz(2));
    m.push(0x25); uv(&mut m, zz(0));
    m.push(0x18); uv(&mut m, 2); m.extend_from_slice(b"id");
    m.push(0x00);
    m.push(0x16); uv(&mut m, zz(2));
    m.push(0x19); m.push(0x1c);
    m.push(0x19); m.push(0x1c);
    m.push(0x3c);
    m.push(0x15); uv(&mut m, zz(2));
    m.push(0x19); m.push(0x15); uv(&mut m, zz(0));
    m.push(0x19); m.push(0x18); uv(&mut m, 2); m.extend_from_slice(b"id");
    m.push(0x15); uv(&mut m, zz(1));
    m.push(0x16); uv(&mut m, zz(2));
    m.push(0x46); uv(&mut m, zz(data_page_offset));
    m.push(0x00); m.push(0x00);
    m.push(0x26); uv(&mut m, zz(2));
    m.push(0x00); m.push(0x00);

    let mut f = Vec::new();
    f.extend_from_slice(b"PAR1");
    f.extend_from_slice(&hdr);
    f.extend_from_slice(&block);
    let mlen = m.len() as u32;
    f.extend_from_slice(&m);
    f.extend_from_slice(&mlen.to_le_bytes());
    f.extend_from_slice(b"PAR1");
    f
}

fn build_snappy_plain_int64_file() -> Vec<u8> {
    build_snappy_plain_int64_file_inner(None)
}

#[test]
fn extract_snappy_lying_compressed_size_is_bad() {
    let file = build_snappy_plain_int64_file_inner(Some(10_000_000));
    let owned = file.clone();
    let r = caught(move || extract(&owned, &["id"]));
    assert!(r.is_ok(), "must not panic");
    assert!(matches!(r.unwrap(), Err(PqError::Bad(_))));
}

#[test]
fn extract_decodes_snappy_plain_int64() {
    let file = build_snappy_plain_int64_file();
    let rows = extract(&file, &["id"]).expect("snappy extract");
    assert_eq!(rows, vec![vec![PqValue::I64(7)], vec![PqValue::I64(-2)]]);
}

#[test]
fn extract_snappy_and_uncompressed_identical() {
    let plain = extract(&build_parquet_file(0, 0, 0, false), &["id"])
        .expect("plain");
    let snap = extract(&build_snappy_plain_int64_file(), &["id"])
        .expect("snappy");
    assert_eq!(plain, snap);
    assert_eq!(snap, vec![vec![PqValue::I64(7)], vec![PqValue::I64(-2)]]);
}

fn build_opt_plain_i64(defs: &[u8], present_vals: &[i64]) -> Vec<u8> {
    assert_eq!(
        present_vals.len(),
        defs.iter().filter(|&&d| d == 1).count()
    );
    let n = defs.len();
    let groups = ((n + 7) / 8).max(1) as u64;
    let mut def_hybrid = Vec::new();
    let mut h = (groups << 1) | 1;
    loop {
        let b = (h & 0x7f) as u8;
        h >>= 7;
        if h == 0 {
            def_hybrid.push(b);
            break;
        } else {
            def_hybrid.push(b | 0x80);
        }
    }
    let nbytes = groups as usize;
    let mut bits = vec![0u8; nbytes];
    for (i, &d) in defs.iter().enumerate() {
        if d == 1 {
            bits[i / 8] |= 1 << (i % 8);
        }
    }
    def_hybrid.extend_from_slice(&bits);
    let mut payload = Vec::new();
    payload.extend_from_slice(&(def_hybrid.len() as u32).to_le_bytes());
    payload.extend_from_slice(&def_hybrid);
    for v in present_vals {
        payload.extend_from_slice(&v.to_le_bytes());
    }
    let psz = payload.len() as i64;

    let mut hdr = Vec::new();
    hdr.push(0x15); uv(&mut hdr, zz(0));
    hdr.push(0x15); uv(&mut hdr, zz(psz));
    hdr.push(0x15); uv(&mut hdr, zz(psz));
    hdr.push(0x2c);
    hdr.push(0x15); uv(&mut hdr, zz(n as i64));
    hdr.push(0x15); uv(&mut hdr, zz(0));
    hdr.push(0x00); hdr.push(0x00);

    let data_page_offset: i64 = 4;
    let mut m = Vec::new();
    m.push(0x15); uv(&mut m, zz(2));
    m.push(0x19); m.push(0x2c);
    m.push(0x48); uv(&mut m, 6); m.extend_from_slice(b"schema");
    m.push(0x15); uv(&mut m, zz(1));
    m.push(0x00);
    m.push(0x15); uv(&mut m, zz(2));
    m.push(0x25); uv(&mut m, zz(1));
    m.push(0x18); uv(&mut m, 2); m.extend_from_slice(b"id");
    m.push(0x00);
    m.push(0x16); uv(&mut m, zz(n as i64));
    m.push(0x19); m.push(0x1c);
    m.push(0x19); m.push(0x1c);
    m.push(0x3c);
    m.push(0x15); uv(&mut m, zz(2));
    m.push(0x19); m.push(0x15); uv(&mut m, zz(0));
    m.push(0x19); m.push(0x18); uv(&mut m, 2); m.extend_from_slice(b"id");
    m.push(0x15); uv(&mut m, zz(0));
    m.push(0x16); uv(&mut m, zz(n as i64));
    m.push(0x46); uv(&mut m, zz(data_page_offset));
    m.push(0x00); m.push(0x00);
    m.push(0x26); uv(&mut m, zz(n as i64));
    m.push(0x00); m.push(0x00);

    let mut f = Vec::new();
    f.extend_from_slice(b"PAR1");
    f.extend_from_slice(&hdr);
    f.extend_from_slice(&payload);
    let mlen = m.len() as u32;
    f.extend_from_slice(&m);
    f.extend_from_slice(&mlen.to_le_bytes());
    f.extend_from_slice(b"PAR1");
    f
}

#[test]
fn extract_decodes_optional_int64_with_nulls() {
    let f = build_opt_plain_i64(&[1, 0, 1], &[7, -2]);
    let rows = extract(&f, &["id"]).expect("opt");
    assert_eq!(rows, vec![
        vec![PqValue::I64(7)], vec![PqValue::Null], vec![PqValue::I64(-2)],
    ]);
}

#[test]
fn extract_optional_all_null_page() {
    let f = build_opt_plain_i64(&[0, 0], &[]);
    assert_eq!(
        extract(&f, &["id"]).expect("allnull"),
        vec![vec![PqValue::Null], vec![PqValue::Null]]
    );
}

#[test]
fn extract_optional_all_present_page() {
    let f = build_opt_plain_i64(&[1, 1], &[7, -2]);
    assert_eq!(
        extract(&f, &["id"]).expect("allpresent"),
        vec![vec![PqValue::I64(7)], vec![PqValue::I64(-2)]]
    );
}

#[test]
fn extract_rejects_repeated_obj2c() {
    let f = build_parquet_file(0, 0, 2, false);
    assert!(
        matches!(extract(&f, &["id"]), Err(PqError::Unsupported(_))),
        "REPEATED must be Unsupported (OBJ-2c)"
    );
}

fn build_nested_schema_file() -> Vec<u8> {
    let mut page_data = Vec::new();
    page_data.extend_from_slice(&7i64.to_le_bytes());
    let data_bytes = page_data.len() as i32;

    let mut hdr = Vec::new();
    hdr.push(0x15); uv(&mut hdr, zz(0));
    hdr.push(0x15); uv(&mut hdr, zz(data_bytes as i64));
    hdr.push(0x15); uv(&mut hdr, zz(data_bytes as i64));
    hdr.push(0x2c);
    hdr.push(0x15); uv(&mut hdr, zz(1));
    hdr.push(0x15); uv(&mut hdr, zz(0));
    hdr.push(0x00); hdr.push(0x00);

    let data_page_offset: i64 = 4;
    let mut m = Vec::new();
    m.push(0x15); uv(&mut m, zz(2));
    m.push(0x19); m.push(0x3c);

    m.push(0x48); uv(&mut m, 6); m.extend_from_slice(b"schema");
    m.push(0x15); uv(&mut m, zz(1));
    m.push(0x00);

    m.push(0x48); uv(&mut m, 1); m.extend_from_slice(b"g");
    m.push(0x15); uv(&mut m, zz(1));
    m.push(0x00);

    m.push(0x15); uv(&mut m, zz(2));
    m.push(0x25); uv(&mut m, zz(0));
    m.push(0x18); uv(&mut m, 2); m.extend_from_slice(b"id");
    m.push(0x00);

    m.push(0x16); uv(&mut m, zz(1));
    m.push(0x19); m.push(0x1c);
    m.push(0x19); m.push(0x1c);
    m.push(0x3c);
    m.push(0x15); uv(&mut m, zz(2));
    m.push(0x19); m.push(0x15); uv(&mut m, zz(0));
    m.push(0x19); m.push(0x28);
    uv(&mut m, 1); m.extend_from_slice(b"g");
    uv(&mut m, 2); m.extend_from_slice(b"id");
    m.push(0x15); uv(&mut m, zz(0));
    m.push(0x16); uv(&mut m, zz(1));
    m.push(0x46); uv(&mut m, zz(data_page_offset));
    m.push(0x00); m.push(0x00);
    m.push(0x26); uv(&mut m, zz(1));
    m.push(0x00); m.push(0x00);

    let mut f = Vec::new();
    f.extend_from_slice(b"PAR1");
    f.extend_from_slice(&hdr);
    f.extend_from_slice(&page_data);
    let mlen = m.len() as u32;
    f.extend_from_slice(&m);
    f.extend_from_slice(&mlen.to_le_bytes());
    f.extend_from_slice(b"PAR1");
    f
}

#[test]
fn extract_decodes_nested_struct_schema_sp144() {
    let f = build_nested_schema_file();
    let got = extract(&f, &["g"]).expect("struct schema must decode SP144 T5");
    assert_eq!(
        got,
        vec![vec![PqValue::Struct(vec![("id".into(), PqValue::I64(7))])]],
        "single-field REQ struct decodes to one Struct row"
    );
    assert!(
        matches!(extract(&f, &["id"]), Err(PqError::Bad(_))),
        "deep-leaf name not in top-level fields must be Bad(not found)"
    );
}

struct ListShape {
    outer_optional: bool,
    element_optional: bool,
    num_rows: i64,
    num_values: i32,
    page_payload: Vec<u8>,
}

fn build_list_int64_file(shape: ListShape) -> Vec<u8> {
    let outer_rep: i64 = if shape.outer_optional { 1 } else { 0 };
    let element_rep: i64 = if shape.element_optional { 1 } else { 0 };

    let data_bytes = shape.page_payload.len() as i32;
    let hdr = page_header_bytes(shape.num_values, data_bytes);
    let data_page_offset: i64 = 4;

    let mut m = Vec::new();
    m.push(0x15); uv(&mut m, zz(2));
    m.push(0x19); m.push(0x4c);

    m.push(0x48); uv(&mut m, 6); m.extend_from_slice(b"schema");
    m.push(0x15); uv(&mut m, zz(1));
    m.push(0x00);

    m.push(0x35); uv(&mut m, zz(outer_rep));
    m.push(0x18); uv(&mut m, 7); m.extend_from_slice(b"my_list");
    m.push(0x15); uv(&mut m, zz(1));
    m.push(0x15); uv(&mut m, zz(3));
    m.push(0x00);

    m.push(0x35); uv(&mut m, zz(2));
    m.push(0x18); uv(&mut m, 4); m.extend_from_slice(b"list");
    m.push(0x15); uv(&mut m, zz(1));
    m.push(0x00);

    m.push(0x15); uv(&mut m, zz(2));
    m.push(0x25); uv(&mut m, zz(element_rep));
    m.push(0x18); uv(&mut m, 7); m.extend_from_slice(b"element");
    m.push(0x00);

    m.push(0x16); uv(&mut m, zz(shape.num_rows));

    m.push(0x19); m.push(0x1c);

    m.push(0x19); m.push(0x1c);

    m.push(0x3c);

    m.push(0x15); uv(&mut m, zz(2));
    m.push(0x19); m.push(0x15); uv(&mut m, zz(0));
    m.push(0x19); m.push(0x38);
    uv(&mut m, 7); m.extend_from_slice(b"my_list");
    uv(&mut m, 4); m.extend_from_slice(b"list");
    uv(&mut m, 7); m.extend_from_slice(b"element");
    m.push(0x15); uv(&mut m, zz(0));
    m.push(0x16); uv(&mut m, zz(shape.num_values as i64));
    m.push(0x46); uv(&mut m, zz(data_page_offset));
    m.push(0x00); m.push(0x00);

    m.push(0x26); uv(&mut m, zz(shape.num_rows));
    m.push(0x00);
    m.push(0x00);

    let mut f = Vec::new();
    f.extend_from_slice(b"PAR1");
    f.extend_from_slice(&hdr);
    f.extend_from_slice(&shape.page_payload);
    let mlen = m.len() as u32;
    f.extend_from_slice(&m);
    f.extend_from_slice(&mlen.to_le_bytes());
    f.extend_from_slice(b"PAR1");
    f
}

fn t7a_page_payload() -> Vec<u8> {
    let mut p = Vec::new();
    p.extend_from_slice(&2u32.to_le_bytes());
    p.extend_from_slice(&[0x03, 0x16]);
    p.extend_from_slice(&2u32.to_le_bytes());
    p.extend_from_slice(&[0x03, 0x1F]);
    for v in [1i64, 2, 3, 10, 20] {
        p.extend_from_slice(&v.to_le_bytes());
    }
    p
}

#[test]
fn extract_decodes_list_int64_required_inline_roundtrip() {
    let file = build_list_int64_file(ListShape {
        outer_optional: false,
        element_optional: false,
        num_rows: 2,
        num_values: 5,
        page_payload: t7a_page_payload(),
    });
    let rows = extract(&file, &["my_list"]).expect("extract list<i64> required");
    assert_eq!(rows.len(), 2, "two top-level records");
    assert_eq!(rows[0], vec![
        PqValue::List(vec![PqValue::I64(1), PqValue::I64(2), PqValue::I64(3)])
    ]);
    assert_eq!(rows[1], vec![
        PqValue::List(vec![PqValue::I64(10), PqValue::I64(20)])
    ]);
}

fn t7b_page_payload() -> Vec<u8> {
    let mut p = Vec::new();
    p.extend_from_slice(&2u32.to_le_bytes());
    p.extend_from_slice(&[0x03, 0x06]);
    p.extend_from_slice(&3u32.to_le_bytes());
    p.extend_from_slice(&[0x03, 0x26, 0x00]);
    for v in [10i64, 20] {
        p.extend_from_slice(&v.to_le_bytes());
    }
    p
}

#[test]
fn extract_decodes_list_optional_int64_inline_roundtrip() {
    let file = build_list_int64_file(ListShape {
        outer_optional: false,
        element_optional: true,
        num_rows: 1,
        num_values: 3,
        page_payload: t7b_page_payload(),
    });
    let rows = extract(&file, &["my_list"]).expect("extract list<opt i64>");
    assert_eq!(rows.len(), 1, "one top-level record");
    assert_eq!(rows[0], vec![
        PqValue::List(vec![PqValue::I64(10), PqValue::Null, PqValue::I64(20)])
    ]);
}

fn t7c_page_payload() -> Vec<u8> {
    let mut p = Vec::new();
    p.extend_from_slice(&2u32.to_le_bytes());
    p.extend_from_slice(&[0x03, 0x04]);
    p.extend_from_slice(&3u32.to_le_bytes());
    p.extend_from_slice(&[0x03, 0x28, 0x00]);
    for v in [7i64, 8] {
        p.extend_from_slice(&v.to_le_bytes());
    }
    p
}

#[test]
fn extract_decodes_optional_list_int64_inline_roundtrip() {
    let file = build_list_int64_file(ListShape {
        outer_optional: true,
        element_optional: false,
        num_rows: 2,
        num_values: 3,
        page_payload: t7c_page_payload(),
    });
    let rows = extract(&file, &["my_list"]).expect("extract opt list<i64>");
    assert_eq!(rows.len(), 2, "two top-level records");
    assert_eq!(rows[0], vec![PqValue::Null]);
    assert_eq!(rows[1], vec![
        PqValue::List(vec![PqValue::I64(7), PqValue::I64(8)])
    ]);
}

fn build_struct_required_file() -> Vec<u8> {
    let mut id_payload = Vec::new();
    id_payload.extend_from_slice(&1i64.to_le_bytes());
    id_payload.extend_from_slice(&2i64.to_le_bytes());
    let id_bytes = id_payload.len() as i32;
    let id_hdr = page_header_bytes(2, id_bytes);

    let mut name_payload = Vec::new();
    name_payload.extend_from_slice(&5u32.to_le_bytes());
    name_payload.extend_from_slice(b"alice");
    name_payload.extend_from_slice(&3u32.to_le_bytes());
    name_payload.extend_from_slice(b"bob");
    let name_bytes = name_payload.len() as i32;
    let name_hdr = page_header_bytes(2, name_bytes);

    let id_page_offset: i64 = 4;
    let name_page_offset: i64 =
        4 + id_hdr.len() as i64 + id_payload.len() as i64;

    let mut m = Vec::new();
    m.push(0x15); uv(&mut m, zz(2));
    m.push(0x19); m.push(0x4c);

    m.push(0x48); uv(&mut m, 6); m.extend_from_slice(b"schema");
    m.push(0x15); uv(&mut m, zz(1));
    m.push(0x00);

    m.push(0x48); uv(&mut m, 9); m.extend_from_slice(b"my_struct");
    m.push(0x15); uv(&mut m, zz(2));
    m.push(0x00);

    m.push(0x15); uv(&mut m, zz(2));
    m.push(0x25); uv(&mut m, zz(0));
    m.push(0x18); uv(&mut m, 2); m.extend_from_slice(b"id");
    m.push(0x00);

    m.push(0x15); uv(&mut m, zz(6));
    m.push(0x25); uv(&mut m, zz(0));
    m.push(0x18); uv(&mut m, 4); m.extend_from_slice(b"name");
    m.push(0x00);

    m.push(0x16); uv(&mut m, zz(2));
    m.push(0x19); m.push(0x1c);

    m.push(0x19); m.push(0x2c);

    m.push(0x3c);
    m.push(0x15); uv(&mut m, zz(2));
    m.push(0x19); m.push(0x15); uv(&mut m, zz(0));
    m.push(0x19); m.push(0x28);
    uv(&mut m, 9); m.extend_from_slice(b"my_struct");
    uv(&mut m, 2); m.extend_from_slice(b"id");
    m.push(0x15); uv(&mut m, zz(0));
    m.push(0x16); uv(&mut m, zz(2));
    m.push(0x46); uv(&mut m, zz(id_page_offset));
    m.push(0x00); m.push(0x00);

    m.push(0x3c);
    m.push(0x15); uv(&mut m, zz(6));
    m.push(0x19); m.push(0x15); uv(&mut m, zz(0));
    m.push(0x19); m.push(0x28);
    uv(&mut m, 9); m.extend_from_slice(b"my_struct");
    uv(&mut m, 4); m.extend_from_slice(b"name");
    m.push(0x15); uv(&mut m, zz(0));
    m.push(0x16); uv(&mut m, zz(2));
    m.push(0x46); uv(&mut m, zz(name_page_offset));
    m.push(0x00); m.push(0x00);

    m.push(0x26); uv(&mut m, zz(2));
    m.push(0x00);
    m.push(0x00);

    let mut f = Vec::new();
    f.extend_from_slice(b"PAR1");
    f.extend_from_slice(&id_hdr);
    f.extend_from_slice(&id_payload);
    f.extend_from_slice(&name_hdr);
    f.extend_from_slice(&name_payload);
    let mlen = m.len() as u32;
    f.extend_from_slice(&m);
    f.extend_from_slice(&mlen.to_le_bytes());
    f.extend_from_slice(b"PAR1");
    f
}

#[test]
fn extract_decodes_struct_required_inline_roundtrip() {
    let file = build_struct_required_file();
    let result = extract(&file, &["my_struct"]).expect("extract REQ struct");
    assert_eq!(result.len(), 2, "two rows");
    assert_eq!(result[0], vec![PqValue::Struct(vec![
        ("id".into(), PqValue::I64(1)),
        ("name".into(), PqValue::Bytes(b"alice".to_vec())),
    ])]);
    assert_eq!(result[1], vec![PqValue::Struct(vec![
        ("id".into(), PqValue::I64(2)),
        ("name".into(), PqValue::Bytes(b"bob".to_vec())),
    ])]);
}

fn build_struct_optional_file() -> Vec<u8> {
    let id_def_len: u32 = 2;
    let id_def_hybrid: &[u8] = &[0x03, 0x01];
    let mut id_payload = Vec::new();
    id_payload.extend_from_slice(&id_def_len.to_le_bytes());
    id_payload.extend_from_slice(id_def_hybrid);
    id_payload.extend_from_slice(&1i64.to_le_bytes());
    let id_bytes = id_payload.len() as i32;
    let id_hdr = page_header_bytes(2, id_bytes);

    let name_def_len: u32 = 2;
    let name_def_hybrid: &[u8] = &[0x03, 0x01];
    let mut name_payload = Vec::new();
    name_payload.extend_from_slice(&name_def_len.to_le_bytes());
    name_payload.extend_from_slice(name_def_hybrid);
    name_payload.extend_from_slice(&5u32.to_le_bytes());
    name_payload.extend_from_slice(b"alice");
    let name_bytes = name_payload.len() as i32;
    let name_hdr = page_header_bytes(2, name_bytes);

    let id_page_offset: i64 = 4;
    let name_page_offset: i64 =
        4 + id_hdr.len() as i64 + id_payload.len() as i64;

    let mut m = Vec::new();
    m.push(0x15); uv(&mut m, zz(2));
    m.push(0x19); m.push(0x4c);

    m.push(0x48); uv(&mut m, 6); m.extend_from_slice(b"schema");
    m.push(0x15); uv(&mut m, zz(1));
    m.push(0x00);

    m.push(0x35); uv(&mut m, zz(1));
    m.push(0x18); uv(&mut m, 9); m.extend_from_slice(b"my_struct");
    m.push(0x15); uv(&mut m, zz(2));
    m.push(0x00);

    m.push(0x15); uv(&mut m, zz(2));
    m.push(0x25); uv(&mut m, zz(0));
    m.push(0x18); uv(&mut m, 2); m.extend_from_slice(b"id");
    m.push(0x00);

    m.push(0x15); uv(&mut m, zz(6));
    m.push(0x25); uv(&mut m, zz(0));
    m.push(0x18); uv(&mut m, 4); m.extend_from_slice(b"name");
    m.push(0x00);

    m.push(0x16); uv(&mut m, zz(2));
    m.push(0x19); m.push(0x1c);

    m.push(0x19); m.push(0x2c);

    m.push(0x3c);
    m.push(0x15); uv(&mut m, zz(2));
    m.push(0x19); m.push(0x15); uv(&mut m, zz(0));
    m.push(0x19); m.push(0x28);
    uv(&mut m, 9); m.extend_from_slice(b"my_struct");
    uv(&mut m, 2); m.extend_from_slice(b"id");
    m.push(0x15); uv(&mut m, zz(0));
    m.push(0x16); uv(&mut m, zz(2));
    m.push(0x46); uv(&mut m, zz(id_page_offset));
    m.push(0x00); m.push(0x00);

    m.push(0x3c);
    m.push(0x15); uv(&mut m, zz(6));
    m.push(0x19); m.push(0x15); uv(&mut m, zz(0));
    m.push(0x19); m.push(0x28);
    uv(&mut m, 9); m.extend_from_slice(b"my_struct");
    uv(&mut m, 4); m.extend_from_slice(b"name");
    m.push(0x15); uv(&mut m, zz(0));
    m.push(0x16); uv(&mut m, zz(2));
    m.push(0x46); uv(&mut m, zz(name_page_offset));
    m.push(0x00); m.push(0x00);

    m.push(0x26); uv(&mut m, zz(2));
    m.push(0x00);
    m.push(0x00);

    let mut f = Vec::new();
    f.extend_from_slice(b"PAR1");
    f.extend_from_slice(&id_hdr);
    f.extend_from_slice(&id_payload);
    f.extend_from_slice(&name_hdr);
    f.extend_from_slice(&name_payload);
    let mlen = m.len() as u32;
    f.extend_from_slice(&m);
    f.extend_from_slice(&mlen.to_le_bytes());
    f.extend_from_slice(b"PAR1");
    f
}

#[test]
fn extract_decodes_struct_optional_with_null_row_inline_roundtrip() {
    let file = build_struct_optional_file();
    let result = extract(&file, &["my_struct"]).expect("extract OPT struct");
    assert_eq!(result.len(), 2);
    assert_eq!(result[0], vec![PqValue::Struct(vec![
        ("id".into(), PqValue::I64(1)),
        ("name".into(), PqValue::Bytes(b"alice".to_vec())),
    ])]);
    assert_eq!(result[1], vec![PqValue::Null]);
}

fn build_map_string_i64_required_file() -> Vec<u8> {
    let rep_len: u32 = 2;
    let rep_hybrid: &[u8] = &[0x03, 0x02];
    let def_len: u32 = 2;
    let def_hybrid: &[u8] = &[0x03, 0x07];

    let mut key_payload = Vec::new();
    key_payload.extend_from_slice(&rep_len.to_le_bytes());
    key_payload.extend_from_slice(rep_hybrid);
    key_payload.extend_from_slice(&def_len.to_le_bytes());
    key_payload.extend_from_slice(def_hybrid);
    for s in ["a", "b", "x"] {
        key_payload.extend_from_slice(&(s.len() as u32).to_le_bytes());
        key_payload.extend_from_slice(s.as_bytes());
    }
    let key_bytes = key_payload.len() as i32;
    let key_hdr = page_header_bytes(3, key_bytes);

    let mut value_payload = Vec::new();
    value_payload.extend_from_slice(&rep_len.to_le_bytes());
    value_payload.extend_from_slice(rep_hybrid);
    value_payload.extend_from_slice(&def_len.to_le_bytes());
    value_payload.extend_from_slice(def_hybrid);
    for v in [1i64, 2, 7] {
        value_payload.extend_from_slice(&v.to_le_bytes());
    }
    let value_bytes = value_payload.len() as i32;
    let value_hdr = page_header_bytes(3, value_bytes);

    let key_page_offset: i64 = 4;
    let value_page_offset: i64 =
        4 + key_hdr.len() as i64 + key_payload.len() as i64;

    let mut m = Vec::new();
    m.push(0x15); uv(&mut m, zz(2));
    m.push(0x19); m.push(0x5c);

    m.push(0x48); uv(&mut m, 6); m.extend_from_slice(b"schema");
    m.push(0x15); uv(&mut m, zz(1));
    m.push(0x00);

    m.push(0x48); uv(&mut m, 6); m.extend_from_slice(b"my_map");
    m.push(0x15); uv(&mut m, zz(1));
    m.push(0x15); uv(&mut m, zz(1));
    m.push(0x00);

    m.push(0x35); uv(&mut m, zz(2));
    m.push(0x18); uv(&mut m, 9); m.extend_from_slice(b"key_value");
    m.push(0x15); uv(&mut m, zz(2));
    m.push(0x00);

    m.push(0x15); uv(&mut m, zz(6));
    m.push(0x25); uv(&mut m, zz(0));
    m.push(0x18); uv(&mut m, 3); m.extend_from_slice(b"key");
    m.push(0x00);

    m.push(0x15); uv(&mut m, zz(2));
    m.push(0x25); uv(&mut m, zz(0));
    m.push(0x18); uv(&mut m, 5); m.extend_from_slice(b"value");
    m.push(0x00);

    m.push(0x16); uv(&mut m, zz(2));
    m.push(0x19); m.push(0x1c);

    m.push(0x19); m.push(0x2c);

    m.push(0x3c);
    m.push(0x15); uv(&mut m, zz(6));
    m.push(0x19); m.push(0x15); uv(&mut m, zz(0));
    m.push(0x19); m.push(0x38);
    uv(&mut m, 6); m.extend_from_slice(b"my_map");
    uv(&mut m, 9); m.extend_from_slice(b"key_value");
    uv(&mut m, 3); m.extend_from_slice(b"key");
    m.push(0x15); uv(&mut m, zz(0));
    m.push(0x16); uv(&mut m, zz(3));
    m.push(0x46); uv(&mut m, zz(key_page_offset));
    m.push(0x00); m.push(0x00);

    m.push(0x3c);
    m.push(0x15); uv(&mut m, zz(2));
    m.push(0x19); m.push(0x15); uv(&mut m, zz(0));
    m.push(0x19); m.push(0x38);
    uv(&mut m, 6); m.extend_from_slice(b"my_map");
    uv(&mut m, 9); m.extend_from_slice(b"key_value");
    uv(&mut m, 5); m.extend_from_slice(b"value");
    m.push(0x15); uv(&mut m, zz(0));
    m.push(0x16); uv(&mut m, zz(3));
    m.push(0x46); uv(&mut m, zz(value_page_offset));
    m.push(0x00); m.push(0x00);

    m.push(0x26); uv(&mut m, zz(2));
    m.push(0x00);
    m.push(0x00);

    let mut f = Vec::new();
    f.extend_from_slice(b"PAR1");
    f.extend_from_slice(&key_hdr);
    f.extend_from_slice(&key_payload);
    f.extend_from_slice(&value_hdr);
    f.extend_from_slice(&value_payload);
    let mlen = m.len() as u32;
    f.extend_from_slice(&m);
    f.extend_from_slice(&mlen.to_le_bytes());
    f.extend_from_slice(b"PAR1");
    f
}

#[test]
fn extract_decodes_map_string_i64_required_inline_roundtrip() {
    let file = build_map_string_i64_required_file();
    let result = extract(&file, &["my_map"]).expect("extract Map<String,i64>");
    assert_eq!(result.len(), 2);
    assert_eq!(result[0], vec![PqValue::MapKv(vec![
        (PqValue::Bytes(b"a".to_vec()), PqValue::I64(1)),
        (PqValue::Bytes(b"b".to_vec()), PqValue::I64(2)),
    ])]);
    assert_eq!(result[1], vec![PqValue::MapKv(vec![
        (PqValue::Bytes(b"x".to_vec()), PqValue::I64(7)),
    ])]);
}

fn build_opt_dict_int64_file() -> Vec<u8> {
    let mut dict_data = Vec::new();
    dict_data.extend_from_slice(&7i64.to_le_bytes());
    let dbytes = dict_data.len() as i64;

    let mut dict_hdr = Vec::new();
    dict_hdr.push(0x15); uv(&mut dict_hdr, zz(2));
    dict_hdr.push(0x15); uv(&mut dict_hdr, zz(dbytes));
    dict_hdr.push(0x15); uv(&mut dict_hdr, zz(dbytes));
    dict_hdr.push(0x4c);
    dict_hdr.push(0x15); uv(&mut dict_hdr, zz(1));
    dict_hdr.push(0x15); uv(&mut dict_hdr, zz(2));
    dict_hdr.push(0x12);
    dict_hdr.push(0x00); dict_hdr.push(0x00);

    let def_len: u32 = 2;
    let def_hybrid: &[u8] = &[0x03, 0x05];
    let dict_idx_body: &[u8] = &[0x01, 0x03, 0x00];

    let mut data_payload = Vec::new();
    data_payload.extend_from_slice(&def_len.to_le_bytes());
    data_payload.extend_from_slice(def_hybrid);
    data_payload.extend_from_slice(dict_idx_body);
    let pbytes = data_payload.len() as i64;

    let mut data_hdr = Vec::new();
    data_hdr.push(0x15); uv(&mut data_hdr, zz(0));
    data_hdr.push(0x15); uv(&mut data_hdr, zz(pbytes));
    data_hdr.push(0x15); uv(&mut data_hdr, zz(pbytes));
    data_hdr.push(0x2c);
    data_hdr.push(0x15); uv(&mut data_hdr, zz(3));
    data_hdr.push(0x15); uv(&mut data_hdr, zz(2));
    data_hdr.push(0x00); data_hdr.push(0x00);

    let dict_page_offset: i64 = 4;
    let data_page_offset: i64 = 4 + dict_hdr.len() as i64 + dict_data.len() as i64;

    let mut m = Vec::new();
    m.push(0x15); uv(&mut m, zz(2));
    m.push(0x19); m.push(0x2c);
    m.push(0x48); uv(&mut m, 6); m.extend_from_slice(b"schema");
    m.push(0x15); uv(&mut m, zz(1));
    m.push(0x00);
    m.push(0x15); uv(&mut m, zz(2));
    m.push(0x25); uv(&mut m, zz(1));
    m.push(0x18); uv(&mut m, 2); m.extend_from_slice(b"id");
    m.push(0x00);
    m.push(0x16); uv(&mut m, zz(3));
    m.push(0x19); m.push(0x1c);
    m.push(0x19); m.push(0x1c);
    m.push(0x3c);
    m.push(0x15); uv(&mut m, zz(2));
    m.push(0x19); m.push(0x15); uv(&mut m, zz(2));
    m.push(0x19); m.push(0x18); uv(&mut m, 2); m.extend_from_slice(b"id");
    m.push(0x15); uv(&mut m, zz(0));
    m.push(0x16); uv(&mut m, zz(3));
    m.push(0x46); uv(&mut m, zz(data_page_offset));
    m.push(0x26); uv(&mut m, zz(dict_page_offset));
    m.push(0x00); m.push(0x00);
    m.push(0x26); uv(&mut m, zz(3));
    m.push(0x00); m.push(0x00);

    let mut f = Vec::new();
    f.extend_from_slice(b"PAR1");
    f.extend_from_slice(&dict_hdr);
    f.extend_from_slice(&dict_data);
    f.extend_from_slice(&data_hdr);
    f.extend_from_slice(&data_payload);
    let mlen = m.len() as u32;
    f.extend_from_slice(&m);
    f.extend_from_slice(&mlen.to_le_bytes());
    f.extend_from_slice(b"PAR1");
    f
}

#[test]
fn extract_decodes_optional_dict_int64_with_nulls() {
    let f = build_opt_dict_int64_file();
    let rows = extract(&f, &["id"]).expect("opt-dict");
    assert_eq!(rows, vec![
        vec![PqValue::I64(7)], vec![PqValue::Null], vec![PqValue::I64(7)],
    ]);
}

fn build_v2_plain_i64(defs: &[u8], present_vals: &[i64], optional: bool) -> Vec<u8> {
    assert_eq!(present_vals.len(), defs.iter().filter(|&&d| d == 1).count());
    let n = defs.len();
    let nulls = defs.iter().filter(|&&d| d == 0).count();
    let def_section: Vec<u8> = if optional {
        let mut bits = 0u8;
        for (i, &d) in defs.iter().enumerate() {
            if d == 1 && i < 8 {
                bits |= 1 << i;
            }
        }
        vec![0x03, bits]
    } else {
        Vec::new()
    };
    let def_len = def_section.len() as i64;
    let mut values = Vec::new();
    for v in present_vals {
        values.extend_from_slice(&v.to_le_bytes());
    }
    let mut payload = Vec::new();
    payload.extend_from_slice(&def_section);
    payload.extend_from_slice(&values);
    let psz = payload.len() as i64;

    let mut hdr = Vec::new();
    hdr.push(0x15); uv(&mut hdr, zz(3));
    hdr.push(0x15); uv(&mut hdr, zz(psz));
    hdr.push(0x15); uv(&mut hdr, zz(psz));
    hdr.push(0x5c);
    hdr.push(0x15); uv(&mut hdr, zz(n as i64));
    hdr.push(0x15); uv(&mut hdr, zz(nulls as i64));
    hdr.push(0x15); uv(&mut hdr, zz(n as i64));
    hdr.push(0x15); uv(&mut hdr, zz(0));
    hdr.push(0x15); uv(&mut hdr, zz(def_len));
    hdr.push(0x15); uv(&mut hdr, zz(0));
    hdr.push(0x12);
    hdr.push(0x00); hdr.push(0x00);

    let data_page_offset: i64 = 4;
    let mut m = Vec::new();
    m.push(0x15); uv(&mut m, zz(2));
    m.push(0x19); m.push(0x2c);
    m.push(0x48); uv(&mut m, 6); m.extend_from_slice(b"schema");
    m.push(0x15); uv(&mut m, zz(1));
    m.push(0x00);
    m.push(0x15); uv(&mut m, zz(2));
    m.push(0x25); uv(&mut m, zz(if optional { 1 } else { 0 }));
    m.push(0x18); uv(&mut m, 2); m.extend_from_slice(b"id");
    m.push(0x00);
    m.push(0x16); uv(&mut m, zz(n as i64));
    m.push(0x19); m.push(0x1c);
    m.push(0x19); m.push(0x1c);
    m.push(0x3c);
    m.push(0x15); uv(&mut m, zz(2));
    m.push(0x19); m.push(0x15); uv(&mut m, zz(0));
    m.push(0x19); m.push(0x18); uv(&mut m, 2); m.extend_from_slice(b"id");
    m.push(0x15); uv(&mut m, zz(0));
    m.push(0x16); uv(&mut m, zz(n as i64));
    m.push(0x46); uv(&mut m, zz(data_page_offset));
    m.push(0x00); m.push(0x00);
    m.push(0x26); uv(&mut m, zz(n as i64));
    m.push(0x00); m.push(0x00);

    let mut f = Vec::new();
    f.extend_from_slice(b"PAR1");
    f.extend_from_slice(&hdr);
    f.extend_from_slice(&payload);
    let mlen = m.len() as u32;
    f.extend_from_slice(&m);
    f.extend_from_slice(&mlen.to_le_bytes());
    f.extend_from_slice(b"PAR1");
    f
}

#[test]
fn extract_decodes_v2_plain_required_int64() {
    let f = build_v2_plain_i64(&[1, 1], &[7, -2], false);
    assert_eq!(
        extract(&f, &["id"]).expect("v2 req"),
        vec![vec![PqValue::I64(7)], vec![PqValue::I64(-2)]]
    );
}

#[test]
fn extract_decodes_v2_plain_optional_int64_with_nulls() {
    let f = build_v2_plain_i64(&[1, 0, 1], &[7, -2], true);
    assert_eq!(
        extract(&f, &["id"]).expect("v2 opt"),
        vec![vec![PqValue::I64(7)], vec![PqValue::Null], vec![PqValue::I64(-2)]]
    );
}

#[test]
fn extract_v2_and_v1_plain_identical() {
    let v2 = extract(&build_v2_plain_i64(&[1, 1], &[7, -2], false), &["id"]).unwrap();
    let v1 = extract(&build_parquet_file(0, 0, 0, false), &["id"]).unwrap();
    assert_eq!(v2, v1);
    assert_eq!(v2, vec![vec![PqValue::I64(7)], vec![PqValue::I64(-2)]]);
}

fn build_v2_dict_int64_file() -> Vec<u8> {
    let mut dict_data = Vec::new();
    dict_data.extend_from_slice(&7i64.to_le_bytes());
    let dbytes = dict_data.len() as i64;

    let mut dict_hdr = Vec::new();
    dict_hdr.push(0x15); uv(&mut dict_hdr, zz(2));
    dict_hdr.push(0x15); uv(&mut dict_hdr, zz(dbytes));
    dict_hdr.push(0x15); uv(&mut dict_hdr, zz(dbytes));
    dict_hdr.push(0x4c);
    dict_hdr.push(0x15); uv(&mut dict_hdr, zz(1));
    dict_hdr.push(0x15); uv(&mut dict_hdr, zz(2));
    dict_hdr.push(0x12);
    dict_hdr.push(0x00); dict_hdr.push(0x00);

    let def_section: &[u8] = &[0x03, 0x05];
    let values_section: &[u8] = &[0x01, 0x03, 0x00];
    let def_len = def_section.len() as i64;
    let mut payload = Vec::new();
    payload.extend_from_slice(def_section);
    payload.extend_from_slice(values_section);
    let psz = payload.len() as i64;

    let mut data_hdr = Vec::new();
    data_hdr.push(0x15); uv(&mut data_hdr, zz(3));
    data_hdr.push(0x15); uv(&mut data_hdr, zz(psz));
    data_hdr.push(0x15); uv(&mut data_hdr, zz(psz));
    data_hdr.push(0x5c);
    data_hdr.push(0x15); uv(&mut data_hdr, zz(3));
    data_hdr.push(0x15); uv(&mut data_hdr, zz(1));
    data_hdr.push(0x15); uv(&mut data_hdr, zz(3));
    data_hdr.push(0x15); uv(&mut data_hdr, zz(2));
    data_hdr.push(0x15); uv(&mut data_hdr, zz(def_len));
    data_hdr.push(0x15); uv(&mut data_hdr, zz(0));
    data_hdr.push(0x12);
    data_hdr.push(0x00); data_hdr.push(0x00);

    let dict_page_offset: i64 = 4;
    let data_page_offset: i64 = 4 + dict_hdr.len() as i64 + dict_data.len() as i64;

    let mut m = Vec::new();
    m.push(0x15); uv(&mut m, zz(2));
    m.push(0x19); m.push(0x2c);
    m.push(0x48); uv(&mut m, 6); m.extend_from_slice(b"schema");
    m.push(0x15); uv(&mut m, zz(1));
    m.push(0x00);
    m.push(0x15); uv(&mut m, zz(2));
    m.push(0x25); uv(&mut m, zz(1));
    m.push(0x18); uv(&mut m, 2); m.extend_from_slice(b"id");
    m.push(0x00);
    m.push(0x16); uv(&mut m, zz(3));
    m.push(0x19); m.push(0x1c);
    m.push(0x19); m.push(0x1c);
    m.push(0x3c);
    m.push(0x15); uv(&mut m, zz(2));
    m.push(0x19); m.push(0x15); uv(&mut m, zz(2));
    m.push(0x19); m.push(0x18); uv(&mut m, 2); m.extend_from_slice(b"id");
    m.push(0x15); uv(&mut m, zz(0));
    m.push(0x16); uv(&mut m, zz(3));
    m.push(0x46); uv(&mut m, zz(data_page_offset));
    m.push(0x26); uv(&mut m, zz(dict_page_offset));
    m.push(0x00); m.push(0x00);
    m.push(0x26); uv(&mut m, zz(3));
    m.push(0x00); m.push(0x00);

    let mut f = Vec::new();
    f.extend_from_slice(b"PAR1");
    f.extend_from_slice(&dict_hdr);
    f.extend_from_slice(&dict_data);
    f.extend_from_slice(&data_hdr);
    f.extend_from_slice(&payload);
    let mlen = m.len() as u32;
    f.extend_from_slice(&m);
    f.extend_from_slice(&mlen.to_le_bytes());
    f.extend_from_slice(b"PAR1");
    f
}

#[test]
fn extract_decodes_v2_dict_int64() {
    let f = build_v2_dict_int64_file();
    assert_eq!(
        extract(&f, &["id"]).expect("v2-dict"),
        vec![vec![PqValue::I64(7)], vec![PqValue::Null], vec![PqValue::I64(7)]]
    );
}

fn build_v1_dp_num_values_and_comp_both_negative() -> Vec<u8> {
    let mut page_data = Vec::new();
    page_data.extend_from_slice(&7i64.to_le_bytes());
    page_data.extend_from_slice(&(-2i64).to_le_bytes());

    let mut h = Vec::new();
    h.push(0x15); uv(&mut h, zz(0));
    h.push(0x15); uv(&mut h, zz(16));
    h.push(0x15); uv(&mut h, zz(-1));
    h.push(0x2c);
    h.push(0x15); uv(&mut h, zz(-1));
    h.push(0x15); uv(&mut h, zz(0));
    h.push(0x00); h.push(0x00);

    let data_page_offset: i64 = 4;
    let meta = filemetadata_bytes(0, 0, 0, 2, data_page_offset);
    let mlen = meta.len() as u32;

    let mut f = Vec::new();
    f.extend_from_slice(b"PAR1");
    f.extend_from_slice(&h);
    f.extend_from_slice(&page_data);
    f.extend_from_slice(&meta);
    f.extend_from_slice(&mlen.to_le_bytes());
    f.extend_from_slice(b"PAR1");
    f
}

#[test]
fn v1_check_order_num_values_before_comp_size_unchanged() {
    let f = build_v1_dp_num_values_and_comp_both_negative();
    match extract(&f, &["id"]) {
        Err(PqError::Bad(msg)) => {
            assert!(
                msg.contains("num_values"),
                "expected the V1 dp_num_values check to win (pre-T3 \
                 ordering), got: {msg:?}"
            );
            assert!(
                !msg.contains("comp size"),
                "comp-size error must NOT win — that is the e5fd553 \
                 hoist defect; got: {msg:?}"
            );
        }
        other => panic!("expected PqError::Bad(num_values…), got {other:?}"),
    }
}
