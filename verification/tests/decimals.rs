use kessel_parquet::{PqError, PqValue, extract};

fn caught<T>(f: impl FnOnce() -> T) -> Result<T, String> {
    Ok(f())
}

fn uv(out: &mut Vec<u8>, mut v: u64) {
    loop {
        let b = (v & 0x7f) as u8;
        v >>= 7;
        if v == 0 { out.push(b); break; } else { out.push(b | 0x80); }
    }
}
fn zz(v: i64) -> u64 { ((v << 1) ^ (v >> 63)) as u64 }

struct LeafMeta<'a> {
    ptype: i64,
    type_length: Option<i64>,
    rep: i64,
    converted_type: Option<i64>,
    scale: Option<i64>,
    precision: Option<i64>,
    logical_decimal: Option<(i64, i64)>,
    col: &'a [u8],
}

impl<'a> LeafMeta<'a> {
    fn plain(ptype: i64, col: &'a [u8]) -> Self {
        Self {
            ptype,
            type_length: None,
            rep: 0,
            converted_type: None,
            scale: None,
            precision: None,
            logical_decimal: None,
            col,
        }
    }
}

fn schema_leaf_bytes(m: &LeafMeta) -> Vec<u8> {
    let mut leaf = Vec::new();
    let mut last_id: i64 = 0;
    leaf.push(0x15); uv(&mut leaf, zz(m.ptype));
    last_id = 1;
    if let Some(n) = m.type_length {
        let delta = (2 - last_id) as u8;
        leaf.push((delta << 4) | 5);
        uv(&mut leaf, zz(n));
        last_id = 2;
    }
    let delta = (3 - last_id) as u8;
    leaf.push((delta << 4) | 5);
    uv(&mut leaf, zz(m.rep));
    last_id = 3;
    let delta = (4 - last_id) as u8;
    leaf.push((delta << 4) | 8);
    uv(&mut leaf, m.col.len() as u64);
    leaf.extend_from_slice(m.col);
    last_id = 4;
    if let Some(ct) = m.converted_type {
        let delta = (6 - last_id) as u8;
        leaf.push((delta << 4) | 5);
        uv(&mut leaf, zz(ct));
        last_id = 6;
    }
    if let Some(s) = m.scale {
        let delta = (7 - last_id) as u8;
        leaf.push((delta << 4) | 5);
        uv(&mut leaf, zz(s));
        last_id = 7;
    }
    if let Some(p) = m.precision {
        let delta = (8 - last_id) as u8;
        leaf.push((delta << 4) | 5);
        uv(&mut leaf, zz(p));
        last_id = 8;
    }
    if let Some((ls, lp)) = m.logical_decimal {
        let delta = (10 - last_id) as u8;
        leaf.push((delta << 4) | 12);
        leaf.push(0x5c);
        leaf.push(0x15); uv(&mut leaf, zz(ls));
        leaf.push(0x15); uv(&mut leaf, zz(lp));
        leaf.push(0x00);
        leaf.push(0x00);
    }
    let _ = last_id;
    leaf.push(0x00);
    leaf
}

fn filemetadata_bytes(
    leaf: &LeafMeta,
    num_rows: i64,
    encoding: i64,
    data_page_offset: i64,
    dict_page_offset: Option<i64>,
) -> Vec<u8> {
    let leaf_bytes = schema_leaf_bytes(leaf);
    let mut b = Vec::new();
    b.push(0x15); uv(&mut b, zz(2));
    b.push(0x19); b.push(0x2c);
    b.push(0x48); uv(&mut b, 6); b.extend_from_slice(b"schema");
    b.push(0x15); uv(&mut b, zz(1));
    b.push(0x00);
    b.extend_from_slice(&leaf_bytes);
    b.push(0x16); uv(&mut b, zz(num_rows));
    b.push(0x19); b.push(0x1c);
    b.push(0x19); b.push(0x1c);
    b.push(0x3c);
    b.push(0x15); uv(&mut b, zz(leaf.ptype));
    b.push(0x19); b.push(0x15); uv(&mut b, zz(encoding));
    b.push(0x19); b.push(0x18); uv(&mut b, leaf.col.len() as u64);
    b.extend_from_slice(leaf.col);
    b.push(0x15); uv(&mut b, zz(0));
    b.push(0x16); uv(&mut b, zz(num_rows));
    b.push(0x46); uv(&mut b, zz(data_page_offset));
    if let Some(dp) = dict_page_offset {
        b.push(0x26); uv(&mut b, zz(dp));
    }
    b.push(0x00); b.push(0x00);
    b.push(0x26); uv(&mut b, zz(num_rows));
    b.push(0x00); b.push(0x00);
    b
}

fn plain_v1_page_hdr(num_values: i32, data_bytes: i32) -> Vec<u8> {
    let mut h = Vec::new();
    h.push(0x15); uv(&mut h, zz(0));
    h.push(0x15); uv(&mut h, zz(data_bytes as i64));
    h.push(0x15); uv(&mut h, zz(data_bytes as i64));
    h.push(0x2c);
    h.push(0x15); uv(&mut h, zz(num_values as i64));
    h.push(0x15); uv(&mut h, zz(0));
    h.push(0x00); h.push(0x00);
    h
}

fn dict_v1_data_page_hdr(num_values: i32, data_bytes: i32) -> Vec<u8> {
    let mut h = Vec::new();
    h.push(0x15); uv(&mut h, zz(0));
    h.push(0x15); uv(&mut h, zz(data_bytes as i64));
    h.push(0x15); uv(&mut h, zz(data_bytes as i64));
    h.push(0x2c);
    h.push(0x15); uv(&mut h, zz(num_values as i64));
    h.push(0x15); uv(&mut h, zz(2));
    h.push(0x00); h.push(0x00);
    h
}

fn dict_page_hdr(num_dict_values: i32, data_bytes: i32) -> Vec<u8> {
    let mut h = Vec::new();
    h.push(0x15); uv(&mut h, zz(2));
    h.push(0x15); uv(&mut h, zz(data_bytes as i64));
    h.push(0x15); uv(&mut h, zz(data_bytes as i64));
    h.push(0x4c);
    h.push(0x15); uv(&mut h, zz(num_dict_values as i64));
    h.push(0x15); uv(&mut h, zz(2));
    h.push(0x12);
    h.push(0x00); h.push(0x00);
    h
}

fn assemble_one_page(hdr: &[u8], data: &[u8], meta: &[u8]) -> Vec<u8> {
    let mut f = Vec::new();
    f.extend_from_slice(b"PAR1");
    f.extend_from_slice(hdr);
    f.extend_from_slice(data);
    let mlen = meta.len() as u32;
    f.extend_from_slice(meta);
    f.extend_from_slice(&mlen.to_le_bytes());
    f.extend_from_slice(b"PAR1");
    f
}

fn assemble_dict_page(
    dict_hdr: &[u8], dict_data: &[u8],
    data_hdr: &[u8], data_payload: &[u8],
    meta: &[u8],
) -> Vec<u8> {
    let mut f = Vec::new();
    f.extend_from_slice(b"PAR1");
    f.extend_from_slice(dict_hdr);
    f.extend_from_slice(dict_data);
    f.extend_from_slice(data_hdr);
    f.extend_from_slice(data_payload);
    let mlen = meta.len() as u32;
    f.extend_from_slice(meta);
    f.extend_from_slice(&mlen.to_le_bytes());
    f.extend_from_slice(b"PAR1");
    f
}

fn int96_le(nod: u64, jd: u32) -> [u8; 12] {
    let mut out = [0u8; 12];
    out[..8].copy_from_slice(&nod.to_le_bytes());
    out[8..].copy_from_slice(&jd.to_le_bytes());
    out
}

#[allow(dead_code)]
fn no_panic_typed_err(file: &[u8]) {
    let owned = file.to_vec();
    let r = caught(move || extract(&owned, &["d"]));
    assert!(r.is_ok(), "must NOT panic/OOM-unwind on hostile input");
    assert!(
        matches!(
            r.unwrap(),
            Err(PqError::Bad(_) | PqError::Unsupported(_))
        ),
        "hostile input must yield a typed PqError"
    );
}

fn no_panic_err_contains(file: &[u8], needle: &str) {
    let owned = file.to_vec();
    let needle = needle.to_string();
    let r = caught(move || extract(&owned, &["d"]));
    assert!(r.is_ok(), "must NOT panic/OOM-unwind on hostile input");
    let e = r.unwrap();
    let msg = match &e {
        Err(PqError::Bad(m)) | Err(PqError::Unsupported(m)) => m.clone(),
        other => panic!("expected typed PqError, got {other:?}"),
    };
    assert!(
        msg.contains(&needle),
        "expected error containing {needle:?}, got {msg:?}"
    );
}

#[test]
fn int96_truncated_payload_bad() {
    let payload = vec![0u8; 11];
    let mut leaf = LeafMeta::plain(3 , b"d");
    leaf.rep = 0;
    let hdr = plain_v1_page_hdr(1, payload.len() as i32);
    let meta = filemetadata_bytes(&leaf, 1, 0, 4, None);
    let f = assemble_one_page(&hdr, &payload, &meta);
    no_panic_err_contains(&f, "int96 truncated");
}

#[test]
fn int96_julian_day_overflow_bad() {
    let payload = int96_le(0, u32::MAX);
    let leaf = LeafMeta::plain(3 , b"d");
    let hdr = plain_v1_page_hdr(1, payload.len() as i32);
    let meta = filemetadata_bytes(&leaf, 1, 0, 4, None);
    let f = assemble_one_page(&hdr, &payload, &meta);
    no_panic_err_contains(&f, "int96 ns overflow");
}

#[test]
fn int96_nanos_of_day_out_of_range_bad() {
    let payload = int96_le(86_400_000_000_000, 2_440_588);
    let leaf = LeafMeta::plain(3 , b"d");
    let hdr = plain_v1_page_hdr(1, payload.len() as i32);
    let meta = filemetadata_bytes(&leaf, 1, 0, 4, None);
    let f = assemble_one_page(&hdr, &payload, &meta);
    no_panic_err_contains(&f, "nanos-of-day out of range");
}

#[test]
fn int96_dict_index_out_of_range_bad() {
    let dict_data = int96_le(0, 2_440_588).to_vec();
    let dict_hdr = dict_page_hdr(1, dict_data.len() as i32);
    let data_payload: Vec<u8> = vec![0x03, 0x02, 0x05];
    let data_hdr = dict_v1_data_page_hdr(1, data_payload.len() as i32);
    let dict_off: i64 = 4;
    let data_off: i64 = 4 + dict_hdr.len() as i64 + dict_data.len() as i64;
    let leaf = LeafMeta::plain(3 , b"d");
    let meta = filemetadata_bytes(&leaf, 1, 2 , data_off, Some(dict_off));
    let f = assemble_dict_page(&dict_hdr, &dict_data, &data_hdr, &data_payload, &meta);
    no_panic_err_contains(&f, "dict index out of range");
}

#[test]
fn int96_v2_truncated_values_bad() {
    let payload: Vec<u8> = vec![0u8; 11];
    let mut hdr = Vec::new();
    hdr.push(0x15); uv(&mut hdr, zz(3));
    hdr.push(0x15); uv(&mut hdr, zz(payload.len() as i64));
    hdr.push(0x15); uv(&mut hdr, zz(payload.len() as i64));
    hdr.push(0x5c);
    hdr.push(0x15); uv(&mut hdr, zz(1));
    hdr.push(0x15); uv(&mut hdr, zz(0));
    hdr.push(0x15); uv(&mut hdr, zz(1));
    hdr.push(0x15); uv(&mut hdr, zz(0));
    hdr.push(0x15); uv(&mut hdr, zz(0));
    hdr.push(0x15); uv(&mut hdr, zz(0));
    hdr.push(0x12);
    hdr.push(0x00); hdr.push(0x00);
    let leaf = LeafMeta::plain(3 , b"d");
    let meta = filemetadata_bytes(&leaf, 1, 0, 4, None);
    let f = assemble_one_page(&hdr, &payload, &meta);
    no_panic_err_contains(&f, "int96 truncated");
}

fn int32_decimal_file(precision: Option<i64>, scale: Option<i64>) -> Vec<u8> {
    let mut leaf = LeafMeta::plain(1 , b"d");
    leaf.converted_type = Some(5);
    leaf.precision = precision;
    leaf.scale = scale;
    let payload = 12345i32.to_le_bytes().to_vec();
    let hdr = plain_v1_page_hdr(1, payload.len() as i32);
    let meta = filemetadata_bytes(&leaf, 1, 0, 4, None);
    assemble_one_page(&hdr, &payload, &meta)
}

#[test]
fn decimal_precision_gt_38_unsupported() {
    let f = int32_decimal_file(Some(39), Some(0));
    no_panic_err_contains(&f, "DECIMAL precision");
    assert!(matches!(
        extract(&f, &["d"]),
        Err(PqError::Unsupported(_))
    ));
}

#[test]
fn decimal_precision_zero_unsupported() {
    let f = int32_decimal_file(Some(0), Some(0));
    no_panic_err_contains(&f, "DECIMAL precision");
    assert!(matches!(
        extract(&f, &["d"]),
        Err(PqError::Unsupported(_))
    ));
}

#[test]
fn decimal_scale_negative_bad() {
    let f = int32_decimal_file(Some(5), Some(-1));
    no_panic_err_contains(&f, "DECIMAL scale -1");
}

#[test]
fn decimal_scale_gt_precision_bad() {
    let f = int32_decimal_file(Some(5), Some(10));
    no_panic_err_contains(&f, "out of range for precision");
}

#[test]
fn decimal_flba_width_17_bad() {
    let mut leaf = LeafMeta::plain(7 , b"d");
    leaf.type_length = Some(17);
    leaf.converted_type = Some(5);
    leaf.precision = Some(20);
    leaf.scale = Some(2);
    let payload = vec![0u8; 17];
    let hdr = plain_v1_page_hdr(1, payload.len() as i32);
    let meta = filemetadata_bytes(&leaf, 1, 0, 4, None);
    let f = assemble_one_page(&hdr, &payload, &meta);
    no_panic_err_contains(&f, "DECIMAL FLBA width out of range");
}

#[test]
fn decimal_flba_width_zero_bad() {
    let mut leaf = LeafMeta::plain(7 , b"d");
    leaf.type_length = Some(0);
    leaf.converted_type = Some(5);
    leaf.precision = Some(5);
    leaf.scale = Some(2);
    let payload: Vec<u8> = Vec::new();
    let hdr = plain_v1_page_hdr(1, 0);
    let meta = filemetadata_bytes(&leaf, 1, 0, 4, None);
    let f = assemble_one_page(&hdr, &payload, &meta);
    no_panic_err_contains(&f, "DECIMAL FLBA width out of range");
}

#[test]
fn decimal_int32_precision_15_bad() {
    let f = int32_decimal_file(Some(15), Some(2));
    no_panic_err_contains(&f, "DECIMAL precision > 9 on INT32");
}

#[test]
fn decimal_int64_precision_25_bad() {
    let mut leaf = LeafMeta::plain(2 , b"d");
    leaf.converted_type = Some(5);
    leaf.precision = Some(25);
    leaf.scale = Some(2);
    let payload = 1i64.to_le_bytes().to_vec();
    let hdr = plain_v1_page_hdr(1, payload.len() as i32);
    let meta = filemetadata_bytes(&leaf, 1, 0, 4, None);
    let f = assemble_one_page(&hdr, &payload, &meta);
    no_panic_err_contains(&f, "DECIMAL precision > 18 on INT64");
}

#[test]
fn decimal_byte_array_per_value_length_17_bad() {
    let mut leaf = LeafMeta::plain(6 , b"d");
    leaf.converted_type = Some(5);
    leaf.precision = Some(20);
    leaf.scale = Some(2);
    let mut payload = Vec::new();
    payload.extend_from_slice(&17u32.to_le_bytes());
    payload.extend_from_slice(&[0u8; 17]);
    let hdr = plain_v1_page_hdr(1, payload.len() as i32);
    let meta = filemetadata_bytes(&leaf, 1, 0, 4, None);
    let f = assemble_one_page(&hdr, &payload, &meta);
    no_panic_err_contains(&f, "BYTE_ARRAY DECIMAL width out of range");
}

#[test]
fn decimal_byte_array_per_value_length_zero_bad() {
    let mut leaf = LeafMeta::plain(6 , b"d");
    leaf.converted_type = Some(5);
    leaf.precision = Some(5);
    leaf.scale = Some(2);
    let payload = 0u32.to_le_bytes().to_vec();
    let hdr = plain_v1_page_hdr(1, payload.len() as i32);
    let meta = filemetadata_bytes(&leaf, 1, 0, 4, None);
    let f = assemble_one_page(&hdr, &payload, &meta);
    no_panic_err_contains(&f, "BYTE_ARRAY DECIMAL width out of range");
}

#[test]
fn decimal_converted_vs_logical_disagree_bad() {
    let mut leaf = LeafMeta::plain(1 , b"d");
    leaf.converted_type = Some(5);
    leaf.scale = Some(2);
    leaf.precision = Some(9);
    leaf.logical_decimal = Some((3, 9));
    let payload = 1i32.to_le_bytes().to_vec();
    let hdr = plain_v1_page_hdr(1, payload.len() as i32);
    let meta = filemetadata_bytes(&leaf, 1, 0, 4, None);
    let f = assemble_one_page(&hdr, &payload, &meta);
    no_panic_err_contains(
        &f,
        "converted_type vs LogicalType",
    );
}

#[test]
fn decimal_on_int96_bad() {
    let mut leaf = LeafMeta::plain(3 , b"d");
    leaf.converted_type = Some(5);
    leaf.precision = Some(9);
    leaf.scale = Some(0);
    let payload = int96_le(0, 2_440_588).to_vec();
    let hdr = plain_v1_page_hdr(1, payload.len() as i32);
    let meta = filemetadata_bytes(&leaf, 1, 0, 4, None);
    let f = assemble_one_page(&hdr, &payload, &meta);
    no_panic_err_contains(&f, "DECIMAL on INT96");
}

#[test]
fn flba_non_decimal_type_length_huge_bad() {
    let mut leaf = LeafMeta::plain(7 , b"d");
    leaf.type_length = Some(65_537);
    let payload: Vec<u8> = vec![0u8; 16];
    let hdr = plain_v1_page_hdr(1, payload.len() as i32);
    let meta = filemetadata_bytes(&leaf, 1, 0, 4, None);
    let f = assemble_one_page(&hdr, &payload, &meta);
    no_panic_err_contains(&f, "FLBA type_length out of range");
}

#[test]
fn flba_non_decimal_truncated_bad() {
    let mut leaf = LeafMeta::plain(7 , b"d");
    leaf.type_length = Some(16);
    let payload = vec![0u8; 8];
    let hdr = plain_v1_page_hdr(1, payload.len() as i32);
    let meta = filemetadata_bytes(&leaf, 1, 0, 4, None);
    let f = assemble_one_page(&hdr, &payload, &meta);
    no_panic_err_contains(&f, "flba truncated");
}

#[test]
fn int96_plain_required_decode_ok() {
    let mut payload = Vec::new();
    payload.extend_from_slice(&int96_le(0, 2_440_588));
    payload.extend_from_slice(&int96_le(1_500_000_000, 2_440_588));
    let leaf = LeafMeta::plain(3 , b"d");
    let hdr = plain_v1_page_hdr(2, payload.len() as i32);
    let meta = filemetadata_bytes(&leaf, 2, 0, 4, None);
    let f = assemble_one_page(&hdr, &payload, &meta);
    assert_eq!(
        extract(&f, &["d"]).expect("int96 plain required"),
        vec![
            vec![PqValue::Timestamp(0)],
            vec![PqValue::Timestamp(1_500_000_000)],
        ]
    );
}

#[test]
fn int96_plain_optional_with_null_ok() {
    let def_hybrid: [u8; 2] = [0x03, 0x05];
    let mut payload = Vec::new();
    payload.extend_from_slice(&(def_hybrid.len() as u32).to_le_bytes());
    payload.extend_from_slice(&def_hybrid);
    payload.extend_from_slice(&int96_le(0, 2_440_588));
    payload.extend_from_slice(&int96_le(0, 2_440_588));
    let mut leaf = LeafMeta::plain(3 , b"d");
    leaf.rep = 1;
    let hdr = plain_v1_page_hdr(3, payload.len() as i32);
    let meta = filemetadata_bytes(&leaf, 3, 0, 4, None);
    let f = assemble_one_page(&hdr, &payload, &meta);
    assert_eq!(
        extract(&f, &["d"]).expect("int96 plain optional"),
        vec![
            vec![PqValue::Timestamp(0)],
            vec![PqValue::Null],
            vec![PqValue::Timestamp(0)],
        ]
    );
}

#[test]
fn int96_dict_decode_ok() {
    let dict_data = int96_le(0, 2_440_588).to_vec();
    let dict_hdr = dict_page_hdr(1, dict_data.len() as i32);
    let data_payload: Vec<u8> = vec![0x01, 0x03, 0x00];
    let data_hdr = dict_v1_data_page_hdr(3, data_payload.len() as i32);
    let dict_off: i64 = 4;
    let data_off: i64 = 4 + dict_hdr.len() as i64 + dict_data.len() as i64;
    let leaf = LeafMeta::plain(3 , b"d");
    let meta = filemetadata_bytes(&leaf, 3, 2 , data_off, Some(dict_off));
    let f = assemble_dict_page(&dict_hdr, &dict_data, &data_hdr, &data_payload, &meta);
    assert_eq!(
        extract(&f, &["d"]).expect("int96 dict"),
        vec![
            vec![PqValue::Timestamp(0)],
            vec![PqValue::Timestamp(0)],
            vec![PqValue::Timestamp(0)],
        ]
    );
}

#[test]
fn decimal_3way_int32_int64_flba_identical_ok() {
    let expected = vec![vec![PqValue::Decimal { unscaled: 12345, scale: 2 }]];

    {
        let mut leaf = LeafMeta::plain(1 , b"d");
        leaf.converted_type = Some(5);
        leaf.precision = Some(9);
        leaf.scale = Some(2);
        let payload = 12345i32.to_le_bytes().to_vec();
        let hdr = plain_v1_page_hdr(1, payload.len() as i32);
        let meta = filemetadata_bytes(&leaf, 1, 0, 4, None);
        let f = assemble_one_page(&hdr, &payload, &meta);
        assert_eq!(extract(&f, &["d"]).expect("int32 decimal"), expected);
    }

    {
        let mut leaf = LeafMeta::plain(2 , b"d");
        leaf.converted_type = Some(5);
        leaf.precision = Some(9);
        leaf.scale = Some(2);
        let payload = 12345i64.to_le_bytes().to_vec();
        let hdr = plain_v1_page_hdr(1, payload.len() as i32);
        let meta = filemetadata_bytes(&leaf, 1, 0, 4, None);
        let f = assemble_one_page(&hdr, &payload, &meta);
        assert_eq!(extract(&f, &["d"]).expect("int64 decimal"), expected);
    }

    {
        let mut leaf = LeafMeta::plain(7 , b"d");
        leaf.type_length = Some(16);
        leaf.converted_type = Some(5);
        leaf.precision = Some(9);
        leaf.scale = Some(2);
        let payload = 12345i128.to_be_bytes().to_vec();
        assert_eq!(payload.len(), 16);
        let hdr = plain_v1_page_hdr(1, payload.len() as i32);
        let meta = filemetadata_bytes(&leaf, 1, 0, 4, None);
        let f = assemble_one_page(&hdr, &payload, &meta);
        assert_eq!(extract(&f, &["d"]).expect("flba decimal"), expected);
    }
}

#[test]
fn decimal_int32_optional_null_scatter_ok() {
    let def_hybrid: [u8; 2] = [0x03, 0x05];
    let mut payload = Vec::new();
    payload.extend_from_slice(&(def_hybrid.len() as u32).to_le_bytes());
    payload.extend_from_slice(&def_hybrid);
    payload.extend_from_slice(&12345i32.to_le_bytes());
    payload.extend_from_slice(&(-456i32).to_le_bytes());
    let mut leaf = LeafMeta::plain(1 , b"d");
    leaf.rep = 1;
    leaf.converted_type = Some(5);
    leaf.precision = Some(9);
    leaf.scale = Some(2);
    let hdr = plain_v1_page_hdr(3, payload.len() as i32);
    let meta = filemetadata_bytes(&leaf, 3, 0, 4, None);
    let f = assemble_one_page(&hdr, &payload, &meta);
    assert_eq!(
        extract(&f, &["d"]).expect("int32 decimal optional"),
        vec![
            vec![PqValue::Decimal { unscaled: 12345, scale: 2 }],
            vec![PqValue::Null],
            vec![PqValue::Decimal { unscaled: -456, scale: 2 }],
        ]
    );
}

#[test]
fn flba_uuid_required_decode_ok() {
    let mut payload = Vec::new();
    payload.extend_from_slice(&[0xAA; 16]);
    payload.extend_from_slice(&[0xBB; 16]);
    let mut leaf = LeafMeta::plain(7 , b"d");
    leaf.type_length = Some(16);
    let hdr = plain_v1_page_hdr(2, payload.len() as i32);
    let meta = filemetadata_bytes(&leaf, 2, 0, 4, None);
    let f = assemble_one_page(&hdr, &payload, &meta);
    assert_eq!(
        extract(&f, &["d"]).expect("flba uuid"),
        vec![
            vec![PqValue::Bytes(vec![0xAA; 16])],
            vec![PqValue::Bytes(vec![0xBB; 16])],
        ]
    );
}

#[test]
fn decimal_precision_38_boundary_ok() {
    let mut leaf = LeafMeta::plain(7 , b"d");
    leaf.type_length = Some(16);
    leaf.converted_type = Some(5);
    leaf.precision = Some(38);
    leaf.scale = Some(0);
    let payload = 12345i128.to_be_bytes().to_vec();
    let hdr = plain_v1_page_hdr(1, payload.len() as i32);
    let meta = filemetadata_bytes(&leaf, 1, 0, 4, None);
    let f = assemble_one_page(&hdr, &payload, &meta);
    assert_eq!(
        extract(&f, &["d"]).expect("decimal precision=38 boundary"),
        vec![vec![PqValue::Decimal { unscaled: 12345, scale: 0 }]]
    );
}

#[test]
fn decimal_flba_i128_min_sign_extend_ok() {
    let mut leaf = LeafMeta::plain(7 , b"d");
    leaf.type_length = Some(16);
    leaf.converted_type = Some(5);
    leaf.precision = Some(38);
    leaf.scale = Some(0);
    let payload = i128::MIN.to_be_bytes().to_vec();
    assert_eq!(payload[0], 0x80);
    assert!(payload[1..].iter().all(|&b| b == 0x00));
    let hdr = plain_v1_page_hdr(1, payload.len() as i32);
    let meta = filemetadata_bytes(&leaf, 1, 0, 4, None);
    let f = assemble_one_page(&hdr, &payload, &meta);
    assert_eq!(
        extract(&f, &["d"]).expect("flba i128::MIN"),
        vec![vec![PqValue::Decimal { unscaled: i128::MIN, scale: 0 }]]
    );
}
