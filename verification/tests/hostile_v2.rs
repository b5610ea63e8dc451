use kessel_parquet::{PqError, PqValue, extract};

fn caught<T>(f: impl FnOnce() -> T) -> Result<T, String> {
    Ok(f())
}

fn uv(out: &mut Vec<u8>, mut v: u64) {
    loop {
        let b = (v & 0x7f) as u8;
        v >>= 7;
        if v == 0 { out.push(b); break; } else { out.push(b | 0x80); }
    }
}
fn zz(v: i64) -> u64 { ((v << 1) ^ (v >> 63)) as u64 }

struct V2Spec<'a> {
    optional: bool,
    rows: i64,
    codec: i64,
    hdr_uncompressed: i64,
    hdr_compressed: i64,
    hdr_num_values: i64,
    hdr_num_nulls: i64,
    hdr_encoding: i64,
    hdr_def_len: i64,
    hdr_rep_len: i64,
    hdr_is_compressed: bool,
    payload: &'a [u8],
    with_dict: bool,
}

fn v2_file(s: &V2Spec) -> Vec<u8> {
    let (dict_hdr, dict_data): (Vec<u8>, Vec<u8>) = if s.with_dict {
        let mut dd = Vec::new();
        dd.extend_from_slice(&7i64.to_le_bytes());
        let db = dd.len() as i64;
        let mut dh = Vec::new();
        dh.push(0x15); uv(&mut dh, zz(2));
        dh.push(0x15); uv(&mut dh, zz(db));
        dh.push(0x15); uv(&mut dh, zz(db));
        dh.push(0x4c);
        dh.push(0x15); uv(&mut dh, zz(1));
        dh.push(0x15); uv(&mut dh, zz(2));
        dh.push(0x12);
        dh.push(0x00); dh.push(0x00);
        (dh, dd)
    } else {
        (Vec::new(), Vec::new())
    };

    let mut hdr = Vec::new();
    hdr.push(0x15); uv(&mut hdr, zz(3));
    hdr.push(0x15); uv(&mut hdr, zz(s.hdr_uncompressed));
    hdr.push(0x15); uv(&mut hdr, zz(s.hdr_compressed));
    hdr.push(0x5c);
    hdr.push(0x15); uv(&mut hdr, zz(s.hdr_num_values));
    hdr.push(0x15); uv(&mut hdr, zz(s.hdr_num_nulls));
    hdr.push(0x15); uv(&mut hdr, zz(s.hdr_num_values));
    hdr.push(0x15); uv(&mut hdr, zz(s.hdr_encoding));
    hdr.push(0x15); uv(&mut hdr, zz(s.hdr_def_len));
    hdr.push(0x15); uv(&mut hdr, zz(s.hdr_rep_len));
    hdr.push(if s.hdr_is_compressed { 0x11 } else { 0x12 });
    hdr.push(0x00); hdr.push(0x00);

    let dict_page_offset: i64 = 4;
    let data_page_offset: i64 =
        4 + dict_hdr.len() as i64 + dict_data.len() as i64;
    let leaf_rep: i64 = if s.optional { 1 } else { 0 };
    let enc_for_meta: i64 = if s.with_dict { 2 } else { 0 };

    let mut m = Vec::new();
    m.push(0x15); uv(&mut m, zz(2));
    m.push(0x19); m.push(0x2c);
    m.push(0x48); uv(&mut m, 6); m.extend_from_slice(b"schema");
    m.push(0x15); uv(&mut m, zz(1));
    m.push(0x00);
    m.push(0x15); uv(&mut m, zz(2));
    m.push(0x25); uv(&mut m, zz(leaf_rep));
    m.push(0x18); uv(&mut m, 2); m.extend_from_slice(b"id");
    m.push(0x00);
    m.push(0x16); uv(&mut m, zz(s.rows));
    m.push(0x19); m.push(0x1c);
    m.push(0x19); m.push(0x1c);
    m.push(0x3c);
    m.push(0x15); uv(&mut m, zz(2));
    m.push(0x19); m.push(0x15); uv(&mut m, zz(enc_for_meta));
    m.push(0x19); m.push(0x18); uv(&mut m, 2); m.extend_from_slice(b"id");
    m.push(0x15); uv(&mut m, zz(s.codec));
    m.push(0x16); uv(&mut m, zz(s.rows));
    m.push(0x46); uv(&mut m, zz(data_page_offset));
    if s.with_dict {
        m.push(0x26); uv(&mut m, zz(dict_page_offset));
    }
    m.push(0x00); m.push(0x00);
    m.push(0x26); uv(&mut m, zz(s.rows));
    m.push(0x00); m.push(0x00);

    let mut f = Vec::new();
    f.extend_from_slice(b"PAR1");
    if s.with_dict {
        f.extend_from_slice(&dict_hdr);
        f.extend_from_slice(&dict_data);
    }
    f.extend_from_slice(&hdr);
    f.extend_from_slice(s.payload);
    let mlen = m.len() as u32;
    f.extend_from_slice(&m);
    f.extend_from_slice(&mlen.to_le_bytes());
    f.extend_from_slice(b"PAR1");
    f
}

fn opt_def_101() -> [u8; 2] { [0x03, 0x05] }
fn req_no_def() -> [u8; 0] { [] }
fn plain_i64(vals: &[i64]) -> Vec<u8> {
    let mut v = Vec::new();
    for x in vals { v.extend_from_slice(&x.to_le_bytes()); }
    v
}

fn no_panic_typed_err(file: &[u8]) {
    let owned = file.to_vec();
    let r = caught(move || extract(&owned, &["id"]));
    assert!(r.is_ok(), "must NOT panic/OOM-unwind on hostile V2 input");
    assert!(
        matches!(
            r.unwrap(),
            Err(PqError::Bad(_) | PqError::Unsupported(_))
        ),
        "hostile V2 input must yield a typed PqError"
    );
}

fn no_panic_err_contains(file: &[u8], needle: &str) {
    let owned = file.to_vec();
    let r = caught(move || extract(&owned, &["id"]));
    assert!(r.is_ok(), "must NOT panic/OOM-unwind on hostile V2 input");
    let e = r.unwrap();
    let msg = match &e {
        Err(PqError::Bad(m)) | Err(PqError::Unsupported(m)) => m.clone(),
        other => panic!("expected typed PqError, got {other:?}"),
    };
    assert!(
        msg.contains(needle),
        "expected error containing {needle:?}, got {msg:?}"
    );
}

#[test]
fn v2_lying_def_len_exceeds_region_bad_no_oob() {
    let payload = {
        let mut p = opt_def_101().to_vec();
        p.extend_from_slice(&plain_i64(&[7, -2]));
        p
    };
    let f = v2_file(&V2Spec {
        optional: true, codec: 0,
        rows: 3,
        hdr_uncompressed: payload.len() as i64,
        hdr_compressed: payload.len() as i64,
        hdr_num_values: 3, hdr_num_nulls: 1, hdr_encoding: 0,
        hdr_def_len: 64,
        hdr_rep_len: 0, hdr_is_compressed: false,
        payload: &payload, with_dict: false,
    });
    no_panic_err_contains(&f, "v2 levels exceed page");
}

#[test]
fn v2_level_len_add_overflow_typed_bad() {
    let payload = plain_i64(&[7, -2]);
    let f = v2_file(&V2Spec {
        optional: true, codec: 0,
        rows: 2,
        hdr_uncompressed: payload.len() as i64,
        hdr_compressed: payload.len() as i64,
        hdr_num_values: 2, hdr_num_nulls: 0, hdr_encoding: 0,
        hdr_def_len: i32::MAX as i64,
        hdr_rep_len: 0, hdr_is_compressed: false,
        payload: &payload, with_dict: false,
    });
    no_panic_err_contains(&f, "v2 levels exceed page");
}

#[test]
fn v2_rep_len_nonzero_unsupported_obj2c5() {
    let mut payload = vec![0x00];
    payload.extend_from_slice(&opt_def_101());
    payload.extend_from_slice(&plain_i64(&[7, -2]));
    let f = v2_file(&V2Spec {
        optional: true, codec: 0,
        rows: 3,
        hdr_uncompressed: payload.len() as i64,
        hdr_compressed: payload.len() as i64,
        hdr_num_values: 3, hdr_num_nulls: 1, hdr_encoding: 0,
        hdr_def_len: 2, hdr_rep_len: 1,
        hdr_is_compressed: false,
        payload: &payload, with_dict: false,
    });
    no_panic_err_contains(&f, "REPEATED/nested V2");
    no_panic_err_contains(&f, "OBJ-2c-5");
}

#[test]
fn v2_uncompressed_lt_levels_vt_underflow_bad() {
    let payload = {
        let mut p = opt_def_101().to_vec();
        p.extend_from_slice(&plain_i64(&[7, -2]));
        p
    };
    let f = v2_file(&V2Spec {
        optional: true, codec: 0,
        rows: 3,
        hdr_uncompressed: 1,
        hdr_compressed: payload.len() as i64,
        hdr_num_values: 3, hdr_num_nulls: 1, hdr_encoding: 0,
        hdr_def_len: 2, hdr_rep_len: 0, hdr_is_compressed: false,
        payload: &payload, with_dict: false,
    });
    no_panic_err_contains(&f, "v2 values target underflow");
}

#[test]
fn v2_def_level_exceeds_max_bad() {
    let def_section: &[u8] = &[0x06, 0x03];
    let mut payload = def_section.to_vec();
    payload.extend_from_slice(&plain_i64(&[7, -2]));
    let f = v2_file(&V2Spec {
        optional: true, codec: 0,
        rows: 3,
        hdr_uncompressed: payload.len() as i64,
        hdr_compressed: payload.len() as i64,
        hdr_num_values: 3, hdr_num_nulls: 1, hdr_encoding: 0,
        hdr_def_len: def_section.len() as i64,
        hdr_rep_len: 0, hdr_is_compressed: false,
        payload: &payload, with_dict: false,
    });
    no_panic_err_contains(&f, "v2 def-level exceeds max");
}

#[test]
fn v2_num_nulls_vs_def_levels_mismatch_bad() {
    let mut payload = opt_def_101().to_vec();
    payload.extend_from_slice(&plain_i64(&[7, -2]));
    let f = v2_file(&V2Spec {
        optional: true, codec: 0,
        rows: 3,
        hdr_uncompressed: payload.len() as i64,
        hdr_compressed: payload.len() as i64,
        hdr_num_values: 3,
        hdr_num_nulls: 0,
        hdr_encoding: 0,
        hdr_def_len: 2, hdr_rep_len: 0, hdr_is_compressed: false,
        payload: &payload, with_dict: false,
    });
    no_panic_err_contains(&f, "v2 num_nulls vs def-levels mismatch");
}

#[test]
fn v2_raw_values_length_mismatch_bad() {
    let mut payload = opt_def_101().to_vec();
    payload.extend_from_slice(&plain_i64(&[7]));
    let f = v2_file(&V2Spec {
        optional: true, codec: 0,
        rows: 3,
        hdr_uncompressed: 18,
        hdr_compressed: payload.len() as i64,
        hdr_num_values: 3, hdr_num_nulls: 1, hdr_encoding: 0,
        hdr_def_len: 2, hdr_rep_len: 0, hdr_is_compressed: false,
        payload: &payload, with_dict: false,
    });
    no_panic_err_contains(&f, "v2 raw values length mismatch");
}

#[test]
fn v2_truncated_page_shorter_than_levels_bad() {
    let payload: &[u8] = &[];
    let f = v2_file(&V2Spec {
        optional: true, codec: 0,
        rows: 3,
        hdr_uncompressed: 2, hdr_compressed: 0,
        hdr_num_values: 3, hdr_num_nulls: 1, hdr_encoding: 0,
        hdr_def_len: 2,
        hdr_rep_len: 0, hdr_is_compressed: false,
        payload, with_dict: false,
    });
    no_panic_err_contains(&f, "v2 levels exceed page");
}

#[test]
fn v2_corrupt_snappy_values_typed_no_oom() {
    let mut payload = opt_def_101().to_vec();
    payload.extend_from_slice(&[0xFF, 0xFE, 0xAB, 0xCD, 0x01, 0x02, 0x03, 0x04]);
    let f = v2_file(&V2Spec {
        optional: true, codec: 1,
        rows: 3,
        hdr_uncompressed: 18,
        hdr_compressed: payload.len() as i64,
        hdr_num_values: 3, hdr_num_nulls: 1, hdr_encoding: 0,
        hdr_def_len: 2, hdr_rep_len: 0,
        hdr_is_compressed: true,
        payload: &payload, with_dict: false,
    });
    no_panic_typed_err(&f);
}

#[test]
fn v2_corrupt_gzip_values_typed_no_oom() {
    let mut payload = opt_def_101().to_vec();
    payload.extend_from_slice(&[0xDE, 0xAD, 0xBE, 0xEF, 0x00, 0x11, 0x22, 0x33]);
    let f = v2_file(&V2Spec {
        optional: true, codec: 2,
        rows: 3,
        hdr_uncompressed: 18,
        hdr_compressed: payload.len() as i64,
        hdr_num_values: 3, hdr_num_nulls: 1, hdr_encoding: 0,
        hdr_def_len: 2, hdr_rep_len: 0,
        hdr_is_compressed: true,
        payload: &payload, with_dict: false,
    });
    no_panic_typed_err(&f);
}

#[test]
fn v2_gzip_huge_uncompressed_hits_cap_no_oom() {
    let mut payload = opt_def_101().to_vec();
    payload.extend_from_slice(&[0x1f, 0x8b, 0x08, 0x00, 0, 0, 0, 0]);
    let f = v2_file(&V2Spec {
        optional: true, codec: 2,
        rows: 3,
        hdr_uncompressed: i32::MAX as i64,
        hdr_compressed: payload.len() as i64,
        hdr_num_values: 3, hdr_num_nulls: 1, hdr_encoding: 0,
        hdr_def_len: 2, hdr_rep_len: 0,
        hdr_is_compressed: true,
        payload: &payload, with_dict: false,
    });
    no_panic_typed_err(&f);
}

#[test]
fn v2_def_len_nonzero_for_required_bad() {
    let mut payload = opt_def_101().to_vec();
    payload.extend_from_slice(&plain_i64(&[7, -2]));
    let f = v2_file(&V2Spec {
        optional: false,
        rows: 2,
        codec: 0,
        hdr_uncompressed: payload.len() as i64,
        hdr_compressed: payload.len() as i64,
        hdr_num_values: 2, hdr_num_nulls: 0, hdr_encoding: 0,
        hdr_def_len: 2,
        hdr_rep_len: 0, hdr_is_compressed: false,
        payload: &payload, with_dict: false,
    });
    no_panic_err_contains(&f, "v2 def_len non-zero for REQUIRED");
}

#[test]
fn v2_huge_num_values_and_size_tiny_page_no_oom() {
    let payload = plain_i64(&[7, -2]);
    let f = v2_file(&V2Spec {
        optional: false, codec: 0,
        rows: 2,
        hdr_uncompressed: i32::MAX as i64,
        hdr_compressed: payload.len() as i64,
        hdr_num_values: i32::MAX as i64,
        hdr_num_nulls: 0, hdr_encoding: 0,
        hdr_def_len: 0, hdr_rep_len: 0, hdr_is_compressed: false,
        payload: &payload, with_dict: false,
    });
    no_panic_typed_err(&f);
    assert!(
        matches!(
            extract(&f, &["id"]),
            Err(PqError::Bad(_)) | Err(PqError::Unsupported(_))
        ),
        "i32::MAX num_values/size vs tiny V2 page must be typed err"
    );
}

#[test]
fn v2_sp151_uncomp_cap_check_fires_with_named_followup() {
    let payload = plain_i64(&[7, -2]);
    let f = v2_file(&V2Spec {
        optional: false, codec: 0,
        rows: 2,
        hdr_uncompressed: 300 * 1024 * 1024,
        hdr_compressed: payload.len() as i64,
        hdr_num_values: 2,
        hdr_num_nulls: 0, hdr_encoding: 0,
        hdr_def_len: 0, hdr_rep_len: 0, hdr_is_compressed: false,
        payload: &payload, with_dict: false,
    });
    match extract(&f, &["id"]) {
        Err(PqError::Unsupported(msg)) => {
            assert!(msg.contains("SP151"), "V2 cap rejection must name SP151: {msg}");
            assert!(
                msg.contains("v2 page"),
                "V2 cap rejection must identify the page kind: {msg}"
            );
        }
        other => panic!("expected Unsupported(SP151 v2...), got {other:?}"),
    }
}

#[test]
fn v2_plain_required_positive_lock() {
    let payload = {
        let mut p = req_no_def().to_vec();
        p.extend_from_slice(&plain_i64(&[7, -2]));
        p
    };
    let f = v2_file(&V2Spec {
        optional: false, codec: 0,
        rows: 2,
        hdr_uncompressed: payload.len() as i64,
        hdr_compressed: payload.len() as i64,
        hdr_num_values: 2, hdr_num_nulls: 0, hdr_encoding: 0,
        hdr_def_len: 0, hdr_rep_len: 0, hdr_is_compressed: false,
        payload: &payload, with_dict: false,
    });
    assert_eq!(
        extract(&f, &["id"]).expect("v2 plain required"),
        vec![vec![PqValue::I64(7)], vec![PqValue::I64(-2)]]
    );
}

#[test]
fn v2_plain_optional_scatter_positive_lock() {
    let mut payload = opt_def_101().to_vec();
    payload.extend_from_slice(&plain_i64(&[7, -2]));
    let f = v2_file(&V2Spec {
        optional: true, codec: 0,
        rows: 3,
        hdr_uncompressed: payload.len() as i64,
        hdr_compressed: payload.len() as i64,
        hdr_num_values: 3, hdr_num_nulls: 1, hdr_encoding: 0,
        hdr_def_len: 2, hdr_rep_len: 0, hdr_is_compressed: false,
        payload: &payload, with_dict: false,
    });
    assert_eq!(
        extract(&f, &["id"]).expect("v2 plain optional"),
        vec![
            vec![PqValue::I64(7)],
            vec![PqValue::Null],
            vec![PqValue::I64(-2)]
        ]
    );
}

#[test]
fn v2_dict_positive_lock() {
    let mut payload = opt_def_101().to_vec();
    payload.extend_from_slice(&[0x01, 0x03, 0x00]);
    let f = v2_file(&V2Spec {
        optional: true, codec: 0,
        rows: 3,
        hdr_uncompressed: payload.len() as i64,
        hdr_compressed: payload.len() as i64,
        hdr_num_values: 3, hdr_num_nulls: 1,
        hdr_encoding: 2,
        hdr_def_len: 2, hdr_rep_len: 0, hdr_is_compressed: false,
        payload: &payload, with_dict: true,
    });
    assert_eq!(
        extract(&f, &["id"]).expect("v2 dict"),
        vec![
            vec![PqValue::I64(7)],
            vec![PqValue::Null],
            vec![PqValue::I64(7)]
        ]
    );
}

#[test]
fn v2_gzip_codec_but_not_compressed_raw_positive_lock() {
    let payload = {
        let mut p = req_no_def().to_vec();
        p.extend_from_slice(&plain_i64(&[7, -2]));
        p
    };
    let f = v2_file(&V2Spec {
        optional: false,
        rows: 2,
        codec: 2,
        hdr_uncompressed: payload.len() as i64,
        hdr_compressed: payload.len() as i64,
        hdr_num_values: 2, hdr_num_nulls: 0, hdr_encoding: 0,
        hdr_def_len: 0, hdr_rep_len: 0,
        hdr_is_compressed: false,
        payload: &payload, with_dict: false,
    });
    assert_eq!(
        extract(&f, &["id"]).expect("v2 gzip-codec raw values"),
        vec![vec![PqValue::I64(7)], vec![PqValue::I64(-2)]]
    );
}
