use kessel_parquet::{PqError, PqValue, extract};

fn caught<T>(f: impl FnOnce() -> T) -> Result<T, String> {
    Ok(f())
}

fn uv(out: &mut Vec<u8>, mut v: u64) {
    loop {
        let b = (v & 0x7f) as u8;
        v >>= 7;
        if v == 0 { out.push(b); break; } else { out.push(b | 0x80); }
    }
}
fn zz(v: i64) -> u64 { ((v << 1) ^ (v >> 63)) as u64 }

fn build_opt_plain_i64(defs: &[u8], present_vals: &[i64]) -> Vec<u8> {
    assert_eq!(present_vals.len(), defs.iter().filter(|&&d| d == 1).count());
    let n = defs.len();
    let groups = ((n + 7) / 8).max(1) as u64;
    let mut def_hybrid = Vec::new();
    let mut h = (groups << 1) | 1;
    loop {
        let b = (h & 0x7f) as u8; h >>= 7;
        if h == 0 { def_hybrid.push(b); break; } else { def_hybrid.push(b | 0x80); }
    }
    let nbytes = groups as usize;
    let mut bits = vec![0u8; nbytes];
    for (i, &d) in defs.iter().enumerate() {
        if d == 1 { bits[i / 8] |= 1 << (i % 8); }
    }
    def_hybrid.extend_from_slice(&bits);
    let mut payload = Vec::new();
    payload.extend_from_slice(&(def_hybrid.len() as u32).to_le_bytes());
    payload.extend_from_slice(&def_hybrid);
    for v in present_vals { payload.extend_from_slice(&v.to_le_bytes()); }
    let psz = payload.len() as i64;
    let n_i = n as i64;

    let mut hdr = Vec::new();
    hdr.push(0x15); uv(&mut hdr, zz(0));
    hdr.push(0x15); uv(&mut hdr, zz(psz));
    hdr.push(0x15); uv(&mut hdr, zz(psz));
    hdr.push(0x2c);
    hdr.push(0x15); uv(&mut hdr, zz(n_i));
    hdr.push(0x15); uv(&mut hdr, zz(0));
    hdr.push(0x00); hdr.push(0x00);

    let mut m = Vec::new();
    m.push(0x15); uv(&mut m, zz(2));
    m.push(0x19); m.push(0x2c);
    m.push(0x48); uv(&mut m, 6); m.extend_from_slice(b"schema");
    m.push(0x15); uv(&mut m, zz(1));
    m.push(0x00);
    m.push(0x15); uv(&mut m, zz(2));
    m.push(0x25); uv(&mut m, zz(1));
    m.push(0x18); uv(&mut m, 2); m.extend_from_slice(b"id");
    m.push(0x00);
    m.push(0x16); uv(&mut m, zz(n_i));
    m.push(0x19); m.push(0x1c);
    m.push(0x19); m.push(0x1c);
    m.push(0x3c);
    m.push(0x15); uv(&mut m, zz(2));
    m.push(0x19); m.push(0x15); uv(&mut m, zz(0));
    m.push(0x19); m.push(0x18); uv(&mut m, 2); m.extend_from_slice(b"id");
    m.push(0x15); uv(&mut m, zz(0));
    m.push(0x16); uv(&mut m, zz(n_i));
    m.push(0x46); uv(&mut m, zz(4));
    m.push(0x00); m.push(0x00);
    m.push(0x26); uv(&mut m, zz(n_i));
    m.push(0x00); m.push(0x00);

    let mut f = Vec::new();
    f.extend_from_slice(b"PAR1");
    f.extend_from_slice(&hdr);
    f.extend_from_slice(&payload);
    let mlen = m.len() as u32;
    f.extend_from_slice(&m);
    f.extend_from_slice(&mlen.to_le_bytes());
    f.extend_from_slice(b"PAR1");
    f
}

fn build_nested_schema_file() -> Vec<u8> {
    let mut page_data = Vec::new();
    page_data.extend_from_slice(&7i64.to_le_bytes());
    let data_bytes = page_data.len() as i64;

    let mut hdr = Vec::new();
    hdr.push(0x15); uv(&mut hdr, zz(0));
    hdr.push(0x15); uv(&mut hdr, zz(data_bytes));
    hdr.push(0x15); uv(&mut hdr, zz(data_bytes));
    hdr.push(0x2c);
    hdr.push(0x15); uv(&mut hdr, zz(1));
    hdr.push(0x15); uv(&mut hdr, zz(0));
    hdr.push(0x00); hdr.push(0x00);

    let mut m = Vec::new();
    m.push(0x15); uv(&mut m, zz(2));
    m.push(0x19); m.push(0x3c);
    m.push(0x48); uv(&mut m, 6); m.extend_from_slice(b"schema");
    m.push(0x15); uv(&mut m, zz(1));
    m.push(0x00);
    m.push(0x48); uv(&mut m, 1); m.extend_from_slice(b"g");
    m.push(0x15); uv(&mut m, zz(1));
    m.push(0x00);
    m.push(0x15); uv(&mut m, zz(2));
    m.push(0x25); uv(&mut m, zz(0));
    m.push(0x18); uv(&mut m, 2); m.extend_from_slice(b"id");
    m.push(0x00);
    m.push(0x16); uv(&mut m, zz(1));
    m.push(0x19); m.push(0x1c);
    m.push(0x19); m.push(0x1c);
    m.push(0x3c);
    m.push(0x15); uv(&mut m, zz(2));
    m.push(0x19); m.push(0x15); uv(&mut m, zz(0));
    m.push(0x19); m.push(0x28);
    uv(&mut m, 1); m.extend_from_slice(b"g");
    uv(&mut m, 2); m.extend_from_slice(b"id");
    m.push(0x15); uv(&mut m, zz(0));
    m.push(0x16); uv(&mut m, zz(1));
    m.push(0x46); uv(&mut m, zz(4));
    m.push(0x00); m.push(0x00);
    m.push(0x26); uv(&mut m, zz(1));
    m.push(0x00); m.push(0x00);

    let mut f = Vec::new();
    f.extend_from_slice(b"PAR1");
    f.extend_from_slice(&hdr);
    f.extend_from_slice(&page_data);
    let mlen = m.len() as u32;
    f.extend_from_slice(&m);
    f.extend_from_slice(&mlen.to_le_bytes());
    f.extend_from_slice(b"PAR1");
    f
}

fn build_opt_dict_int64_file_with_oob(oob_bits: Option<u8>) -> Vec<u8> {
    let mut dict_data = Vec::new();
    dict_data.extend_from_slice(&7i64.to_le_bytes());
    let dbytes = dict_data.len() as i64;

    let mut dict_hdr = Vec::new();
    dict_hdr.push(0x15); uv(&mut dict_hdr, zz(2));
    dict_hdr.push(0x15); uv(&mut dict_hdr, zz(dbytes));
    dict_hdr.push(0x15); uv(&mut dict_hdr, zz(dbytes));
    dict_hdr.push(0x4c);
    dict_hdr.push(0x15); uv(&mut dict_hdr, zz(1));
    dict_hdr.push(0x15); uv(&mut dict_hdr, zz(2));
    dict_hdr.push(0x12);
    dict_hdr.push(0x00); dict_hdr.push(0x00);

    let def_hybrid: &[u8] = &[0x03, 0x05];
    let def_len: u32 = 2;
    let idx_bits = oob_bits.unwrap_or(0x00);
    let dict_idx_body: Vec<u8> = vec![0x01, 0x03, idx_bits];

    let mut data_payload = Vec::new();
    data_payload.extend_from_slice(&def_len.to_le_bytes());
    data_payload.extend_from_slice(def_hybrid);
    data_payload.extend_from_slice(&dict_idx_body);
    let pbytes = data_payload.len() as i64;

    let mut data_hdr = Vec::new();
    data_hdr.push(0x15); uv(&mut data_hdr, zz(0));
    data_hdr.push(0x15); uv(&mut data_hdr, zz(pbytes));
    data_hdr.push(0x15); uv(&mut data_hdr, zz(pbytes));
    data_hdr.push(0x2c);
    data_hdr.push(0x15); uv(&mut data_hdr, zz(3));
    data_hdr.push(0x15); uv(&mut data_hdr, zz(2));
    data_hdr.push(0x00); data_hdr.push(0x00);

    let dict_page_offset: i64 = 4;
    let data_page_offset: i64 = 4 + dict_hdr.len() as i64 + dict_data.len() as i64;

    let mut m = Vec::new();
    m.push(0x15); uv(&mut m, zz(2));
    m.push(0x19); m.push(0x2c);
    m.push(0x48); uv(&mut m, 6); m.extend_from_slice(b"schema");
    m.push(0x15); uv(&mut m, zz(1));
    m.push(0x00);
    m.push(0x15); uv(&mut m, zz(2));
    m.push(0x25); uv(&mut m, zz(1));
    m.push(0x18); uv(&mut m, 2); m.extend_from_slice(b"id");
    m.push(0x00);
    m.push(0x16); uv(&mut m, zz(3));
    m.push(0x19); m.push(0x1c);
    m.push(0x19); m.push(0x1c);
    m.push(0x3c);
    m.push(0x15); uv(&mut m, zz(2));
    m.push(0x19); m.push(0x15); uv(&mut m, zz(2));
    m.push(0x19); m.push(0x18); uv(&mut m, 2); m.extend_from_slice(b"id");
    m.push(0x15); uv(&mut m, zz(0));
    m.push(0x16); uv(&mut m, zz(3));
    m.push(0x46); uv(&mut m, zz(data_page_offset));
    m.push(0x26); uv(&mut m, zz(dict_page_offset));
    m.push(0x00); m.push(0x00);
    m.push(0x26); uv(&mut m, zz(3));
    m.push(0x00); m.push(0x00);

    let mut f = Vec::new();
    f.extend_from_slice(b"PAR1");
    f.extend_from_slice(&dict_hdr);
    f.extend_from_slice(&dict_data);
    f.extend_from_slice(&data_hdr);
    f.extend_from_slice(&data_payload);
    let mlen = m.len() as u32;
    f.extend_from_slice(&m);
    f.extend_from_slice(&mlen.to_le_bytes());
    f.extend_from_slice(b"PAR1");
    f
}

fn assert_no_panic_bad(file: &[u8]) {
    let owned = file.to_vec();
    let r = caught(move || extract(&owned, &["id"]));
    assert!(r.is_ok(), "must NOT panic on hostile input");
    assert!(
        matches!(r.unwrap(), Err(PqError::Bad(_))),
        "hostile input must yield PqError::Bad"
    );
}

#[allow(dead_code)]
fn assert_no_panic_unsupported(file: &[u8]) {
    let owned = file.to_vec();
    let r = caught(move || extract(&owned, &["id"]));
    assert!(r.is_ok(), "must NOT panic on hostile input");
    assert!(
        matches!(r.unwrap(), Err(PqError::Unsupported(_))),
        "hostile input must yield PqError::Unsupported"
    );
}

#[test]
fn pentest_opt_def_stream_truncated_is_bad_no_panic() {
    let good = build_opt_plain_i64(&[1, 1], &[7, -2]);
    let corrupt_payload: Vec<u8> = vec![0x05, 0x00, 0x00, 0x00];
    let n: i64 = 2;
    let psz = corrupt_payload.len() as i64;

    let mut hdr = Vec::new();
    hdr.push(0x15); uv(&mut hdr, zz(0));
    hdr.push(0x15); uv(&mut hdr, zz(psz));
    hdr.push(0x15); uv(&mut hdr, zz(psz));
    hdr.push(0x2c);
    hdr.push(0x15); uv(&mut hdr, zz(n));
    hdr.push(0x15); uv(&mut hdr, zz(0));
    hdr.push(0x00); hdr.push(0x00);

    let mut m = Vec::new();
    m.push(0x15); uv(&mut m, zz(2));
    m.push(0x19); m.push(0x2c);
    m.push(0x48); uv(&mut m, 6); m.extend_from_slice(b"schema");
    m.push(0x15); uv(&mut m, zz(1)); m.push(0x00);
    m.push(0x15); uv(&mut m, zz(2));
    m.push(0x25); uv(&mut m, zz(1));
    m.push(0x18); uv(&mut m, 2); m.extend_from_slice(b"id");
    m.push(0x00);
    m.push(0x16); uv(&mut m, zz(n));
    m.push(0x19); m.push(0x1c);
    m.push(0x19); m.push(0x1c);
    m.push(0x3c);
    m.push(0x15); uv(&mut m, zz(2));
    m.push(0x19); m.push(0x15); uv(&mut m, zz(0));
    m.push(0x19); m.push(0x18); uv(&mut m, 2); m.extend_from_slice(b"id");
    m.push(0x15); uv(&mut m, zz(0));
    m.push(0x16); uv(&mut m, zz(n));
    m.push(0x46); uv(&mut m, zz(4));
    m.push(0x00); m.push(0x00);
    m.push(0x26); uv(&mut m, zz(n));
    m.push(0x00); m.push(0x00);

    let mut f = Vec::new();
    f.extend_from_slice(b"PAR1");
    f.extend_from_slice(&hdr);
    f.extend_from_slice(&corrupt_payload);
    let mlen = m.len() as u32;
    f.extend_from_slice(&m);
    f.extend_from_slice(&mlen.to_le_bytes());
    f.extend_from_slice(b"PAR1");

    assert!(extract(&good, &["id"]).is_ok(), "baseline must succeed");
    assert_no_panic_bad(&f);
}

#[test]
fn pentest_opt_def_prefix_undercount_is_bad() {
    let n: i64 = 3;
    let undercount_prefix: u32 = 1;
    let real_def_hybrid: &[u8] = &[0x03, 0x05];
    let mut corrupt_payload: Vec<u8> = Vec::new();
    corrupt_payload.extend_from_slice(&undercount_prefix.to_le_bytes());
    corrupt_payload.extend_from_slice(real_def_hybrid);
    corrupt_payload.extend_from_slice(&7i64.to_le_bytes());
    corrupt_payload.extend_from_slice(&(-2i64).to_le_bytes());
    let psz = corrupt_payload.len() as i64;

    let mut hdr = Vec::new();
    hdr.push(0x15); uv(&mut hdr, zz(0));
    hdr.push(0x15); uv(&mut hdr, zz(psz));
    hdr.push(0x15); uv(&mut hdr, zz(psz));
    hdr.push(0x2c);
    hdr.push(0x15); uv(&mut hdr, zz(n));
    hdr.push(0x15); uv(&mut hdr, zz(0));
    hdr.push(0x00); hdr.push(0x00);

    let mut m = Vec::new();
    m.push(0x15); uv(&mut m, zz(2));
    m.push(0x19); m.push(0x2c);
    m.push(0x48); uv(&mut m, 6); m.extend_from_slice(b"schema");
    m.push(0x15); uv(&mut m, zz(1)); m.push(0x00);
    m.push(0x15); uv(&mut m, zz(2));
    m.push(0x25); uv(&mut m, zz(1));
    m.push(0x18); uv(&mut m, 2); m.extend_from_slice(b"id");
    m.push(0x00);
    m.push(0x16); uv(&mut m, zz(n));
    m.push(0x19); m.push(0x1c);
    m.push(0x19); m.push(0x1c);
    m.push(0x3c);
    m.push(0x15); uv(&mut m, zz(2));
    m.push(0x19); m.push(0x15); uv(&mut m, zz(0));
    m.push(0x19); m.push(0x18); uv(&mut m, 2); m.extend_from_slice(b"id");
    m.push(0x15); uv(&mut m, zz(0));
    m.push(0x16); uv(&mut m, zz(n));
    m.push(0x46); uv(&mut m, zz(4));
    m.push(0x00); m.push(0x00);
    m.push(0x26); uv(&mut m, zz(n));
    m.push(0x00); m.push(0x00);

    let mut f = Vec::new();
    f.extend_from_slice(b"PAR1");
    f.extend_from_slice(&hdr);
    f.extend_from_slice(&corrupt_payload);
    let mlen = m.len() as u32;
    f.extend_from_slice(&m);
    f.extend_from_slice(&mlen.to_le_bytes());
    f.extend_from_slice(b"PAR1");

    assert_no_panic_bad(&f);
}

#[test]
fn pentest_opt_def_level_gt_max_is_bad_no_panic() {
    let n: i64 = 2;
    let def_body: &[u8] = &[0x04, 0x02];
    let mut payload = Vec::new();
    payload.extend_from_slice(&(def_body.len() as u32).to_le_bytes());
    payload.extend_from_slice(def_body);
    let psz = payload.len() as i64;

    let mut hdr = Vec::new();
    hdr.push(0x15); uv(&mut hdr, zz(0));
    hdr.push(0x15); uv(&mut hdr, zz(psz));
    hdr.push(0x15); uv(&mut hdr, zz(psz));
    hdr.push(0x2c);
    hdr.push(0x15); uv(&mut hdr, zz(n));
    hdr.push(0x15); uv(&mut hdr, zz(0));
    hdr.push(0x00); hdr.push(0x00);

    let mut m = Vec::new();
    m.push(0x15); uv(&mut m, zz(2));
    m.push(0x19); m.push(0x2c);
    m.push(0x48); uv(&mut m, 6); m.extend_from_slice(b"schema");
    m.push(0x15); uv(&mut m, zz(1)); m.push(0x00);
    m.push(0x15); uv(&mut m, zz(2));
    m.push(0x25); uv(&mut m, zz(1));
    m.push(0x18); uv(&mut m, 2); m.extend_from_slice(b"id");
    m.push(0x00);
    m.push(0x16); uv(&mut m, zz(n));
    m.push(0x19); m.push(0x1c);
    m.push(0x19); m.push(0x1c);
    m.push(0x3c);
    m.push(0x15); uv(&mut m, zz(2));
    m.push(0x19); m.push(0x15); uv(&mut m, zz(0));
    m.push(0x19); m.push(0x18); uv(&mut m, 2); m.extend_from_slice(b"id");
    m.push(0x15); uv(&mut m, zz(0));
    m.push(0x16); uv(&mut m, zz(n));
    m.push(0x46); uv(&mut m, zz(4));
    m.push(0x00); m.push(0x00);
    m.push(0x26); uv(&mut m, zz(n));
    m.push(0x00); m.push(0x00);

    let mut f = Vec::new();
    f.extend_from_slice(b"PAR1");
    f.extend_from_slice(&hdr);
    f.extend_from_slice(&payload);
    let mlen = m.len() as u32;
    f.extend_from_slice(&m);
    f.extend_from_slice(&mlen.to_le_bytes());
    f.extend_from_slice(b"PAR1");

    let owned = f.clone();
    let r = caught(move || extract(&owned, &["id"]));
    assert!(r.is_ok(), "must NOT panic: def>1 case");
    let result = r.unwrap();
    assert!(
        matches!(result, Err(PqError::Bad(_))),
        "def level > max_def_level must be Err(Bad); got: {result:?}"
    );
}

#[test]
fn pentest_opt_value_section_shorter_than_present_is_bad_no_panic() {
    let n: i64 = 3;
    let def_body: &[u8] = &[0x03, 0x07];
    let mut payload = Vec::new();
    payload.extend_from_slice(&(def_body.len() as u32).to_le_bytes());
    payload.extend_from_slice(def_body);
    payload.extend_from_slice(&7i64.to_le_bytes());
    payload.extend_from_slice(&(-2i64).to_le_bytes());
    let psz = payload.len() as i64;

    let mut hdr = Vec::new();
    hdr.push(0x15); uv(&mut hdr, zz(0));
    hdr.push(0x15); uv(&mut hdr, zz(psz));
    hdr.push(0x15); uv(&mut hdr, zz(psz));
    hdr.push(0x2c);
    hdr.push(0x15); uv(&mut hdr, zz(n));
    hdr.push(0x15); uv(&mut hdr, zz(0));
    hdr.push(0x00); hdr.push(0x00);

    let mut m = Vec::new();
    m.push(0x15); uv(&mut m, zz(2));
    m.push(0x19); m.push(0x2c);
    m.push(0x48); uv(&mut m, 6); m.extend_from_slice(b"schema");
    m.push(0x15); uv(&mut m, zz(1)); m.push(0x00);
    m.push(0x15); uv(&mut m, zz(2));
    m.push(0x25); uv(&mut m, zz(1));
    m.push(0x18); uv(&mut m, 2); m.extend_from_slice(b"id");
    m.push(0x00);
    m.push(0x16); uv(&mut m, zz(n));
    m.push(0x19); m.push(0x1c);
    m.push(0x19); m.push(0x1c);
    m.push(0x3c);
    m.push(0x15); uv(&mut m, zz(2));
    m.push(0x19); m.push(0x15); uv(&mut m, zz(0));
    m.push(0x19); m.push(0x18); uv(&mut m, 2); m.extend_from_slice(b"id");
    m.push(0x15); uv(&mut m, zz(0));
    m.push(0x16); uv(&mut m, zz(n));
    m.push(0x46); uv(&mut m, zz(4));
    m.push(0x00); m.push(0x00);
    m.push(0x26); uv(&mut m, zz(n));
    m.push(0x00); m.push(0x00);

    let mut f = Vec::new();
    f.extend_from_slice(b"PAR1");
    f.extend_from_slice(&hdr);
    f.extend_from_slice(&payload);
    let mlen = m.len() as u32;
    f.extend_from_slice(&m);
    f.extend_from_slice(&mlen.to_le_bytes());
    f.extend_from_slice(b"PAR1");

    assert_no_panic_bad(&f);
}

#[test]
fn pentest_opt_dict_oob_index_is_bad_no_panic() {
    let f = build_opt_dict_int64_file_with_oob(Some(0xFF));
    assert_no_panic_bad(&f);
}

#[test]
fn pentest_opt_non_flat_schema_no_panic_sp144_decodes() {
    let f = build_nested_schema_file();
    let owned = f.clone();
    let r = caught(move || extract(&owned, &["g"]));
    assert!(r.is_ok(), "must NOT panic on nested-schema input");
    match r.unwrap() {
        Ok(_) => {}
        Err(PqError::Unsupported(_)) | Err(PqError::Bad(_)) => {}
    }
}

#[test]
fn pentest_opt_positive_all_null_exact() {
    let f = build_opt_plain_i64(&[0, 0], &[]);
    let r = caught(|| extract(&f, &["id"]));
    assert!(r.is_ok(), "no panic: all-null positive lock");
    assert_eq!(
        r.unwrap().expect("all-null must be Ok"),
        vec![vec![PqValue::Null], vec![PqValue::Null]],
        "all-null: exact placement required"
    );
}

#[test]
fn pentest_opt_positive_all_present_exact() {
    let f = build_opt_plain_i64(&[1, 1], &[7, -2]);
    let r = caught(|| extract(&f, &["id"]));
    assert!(r.is_ok(), "no panic: all-present positive lock");
    assert_eq!(
        r.unwrap().expect("all-present must be Ok"),
        vec![vec![PqValue::I64(7)], vec![PqValue::I64(-2)]],
        "all-present: exact placement required"
    );
}

#[test]
fn pentest_opt_positive_mixed_scatter_exact() {
    let f = build_opt_plain_i64(&[1, 0, 1, 1, 0], &[10, 20, 30]);
    let r = caught(|| extract(&f, &["id"]));
    assert!(r.is_ok(), "no panic: mixed scatter positive lock");
    assert_eq!(
        r.unwrap().expect("mixed scatter must be Ok"),
        vec![
            vec![PqValue::I64(10)],
            vec![PqValue::Null],
            vec![PqValue::I64(20)],
            vec![PqValue::I64(30)],
            vec![PqValue::Null],
        ],
        "mixed scatter: exact placement required"
    );
}
