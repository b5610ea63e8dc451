use kessel_parquet::{PqError, extract};

fn caught<T>(f: impl FnOnce() -> T) -> Result<T, String> {
    Ok(f())
}

fn uv(out: &mut Vec<u8>, mut v: u64) {
    loop {
        let b = (v & 0x7f) as u8;
        v >>= 7;
        if v == 0 { out.push(b); break; } else { out.push(b | 0x80); }
    }
}
fn zz(v: i64) -> u64 { ((v << 1) ^ (v >> 63)) as u64 }

fn page_header_bytes(num_values: i32, data_bytes: i32) -> Vec<u8> {
    let mut h = Vec::new();
    h.push(0x15); uv(&mut h, zz(0));
    h.push(0x15); uv(&mut h, zz(data_bytes as i64));
    h.push(0x15); uv(&mut h, zz(data_bytes as i64));
    h.push(0x2c);
    h.push(0x15); uv(&mut h, zz(num_values as i64));
    h.push(0x15); uv(&mut h, zz(0));
    h.push(0x00);
    h.push(0x00);
    h
}

fn filemetadata_bytes(
    leaf_ptype: i64,
    col: &[u8],
    data_page_offset: i64,
) -> Vec<u8> {
    let mut b = Vec::new();
    b.push(0x15); uv(&mut b, zz(2));
    b.push(0x19); b.push(0x2c);
    b.push(0x48); uv(&mut b, 6); b.extend_from_slice(b"schema");
    b.push(0x15); uv(&mut b, zz(1));
    b.push(0x00);
    b.push(0x15); uv(&mut b, zz(leaf_ptype));
    b.push(0x25); uv(&mut b, zz(0));
    b.push(0x18); uv(&mut b, col.len() as u64);
    b.extend_from_slice(col);
    b.push(0x00);
    b.push(0x16); uv(&mut b, zz(2));
    b.push(0x19); b.push(0x1c);
    b.push(0x19); b.push(0x1c);
    b.push(0x3c);
    b.push(0x15); uv(&mut b, zz(leaf_ptype));
    b.push(0x19); b.push(0x15); uv(&mut b, zz(0));
    b.push(0x19); b.push(0x18); uv(&mut b, col.len() as u64);
    b.extend_from_slice(col);
    b.push(0x15); uv(&mut b, zz(0));
    b.push(0x16); uv(&mut b, zz(2));
    b.push(0x46); uv(&mut b, zz(data_page_offset));
    b.push(0x00);
    b.push(0x00);
    b.push(0x26); uv(&mut b, zz(2));
    b.push(0x00);
    b.push(0x00);
    b
}

fn assemble(hdr: &[u8], page_data: &[u8], meta: &[u8]) -> Vec<u8> {
    let mlen = meta.len() as u32;
    let mut f = Vec::new();
    f.extend_from_slice(b"PAR1");
    f.extend_from_slice(hdr);
    f.extend_from_slice(page_data);
    f.extend_from_slice(meta);
    f.extend_from_slice(&mlen.to_le_bytes());
    f.extend_from_slice(b"PAR1");
    f
}

fn no_panic_typed_err(file: &[u8], col: &str) {
    let owned = file.to_vec();
    let c = col.to_string();
    let r = caught(move || extract(&owned, &[c.as_str()]));
    assert!(r.is_ok(), "must NOT panic/OOM-unwind on hostile input");
    assert!(
        matches!(r.unwrap(), Err(PqError::Bad(_) | PqError::Unsupported(_))),
        "hostile input must yield a typed PqError"
    );
}

#[test]
fn malformed_framing_is_typed_error_never_panic() {
    let cases: Vec<Vec<u8>> = vec![
        b"".to_vec(),
        b"PAR1".to_vec(),
        b"NOPExxxxxxxxPAR1".to_vec(),
        {
            let mut v = b"PAR1".to_vec();
            v.extend_from_slice(&[0xAA, 0xBB, 0xCC]);
            v.extend_from_slice(&u32::MAX.to_le_bytes());
            v.extend_from_slice(b"PAR1");
            v
        },
        {
            let mut v = b"PAR1".to_vec();
            v.extend_from_slice(&[0x01]);
            v.extend_from_slice(&5u32.to_le_bytes());
            v.extend_from_slice(b"PAR1");
            v
        },
    ];
    for c in &cases {
        no_panic_typed_err(c, "id");
    }
}

#[test]
fn value_count_overflow_rejected_no_oom() {
    let hdr = page_header_bytes(i32::MAX, 16);
    let mut page = Vec::new();
    page.extend_from_slice(&7i64.to_le_bytes());
    page.extend_from_slice(&(-2i64).to_le_bytes());
    let meta = filemetadata_bytes(2 , b"id", 4);
    let file = assemble(&hdr, &page, &meta);
    no_panic_typed_err(&file, "id");
    assert!(
        matches!(extract(&file, &["id"]), Err(PqError::Bad(_))),
        "i32::MAX num_values vs tiny page must be PqError::Bad"
    );
}

#[test]
fn oversized_byte_array_len_rejected_no_oom() {
    let mut page = Vec::new();
    page.extend_from_slice(&0x7fff_ffffu32.to_le_bytes());
    page.extend_from_slice(b"abcd");
    let data_bytes = page.len() as i32;
    let hdr = page_header_bytes(1, data_bytes);
    let meta = filemetadata_bytes(6 , b"s", 4);
    let file = assemble(&hdr, &page, &meta);
    no_panic_typed_err(&file, "s");
    assert!(
        matches!(extract(&file, &["s"]), Err(PqError::Bad(_))),
        "oversized BYTE_ARRAY len prefix must be PqError::Bad"
    );

    let mut page2 = Vec::new();
    page2.extend_from_slice(&u32::MAX.to_le_bytes());
    page2.extend_from_slice(b"xy");
    let hdr2 = page_header_bytes(1, page2.len() as i32);
    let meta2 = filemetadata_bytes(6, b"s", 4);
    let file2 = assemble(&hdr2, &page2, &meta2);
    no_panic_typed_err(&file2, "s");
    assert!(matches!(
        extract(&file2, &["s"]),
        Err(PqError::Bad(_))
    ));
}

#[test]
fn lying_page_size_and_offset_rejected() {
    let hdr_a = page_header_bytes(2, i32::MAX);
    let mut page = Vec::new();
    page.extend_from_slice(&7i64.to_le_bytes());
    page.extend_from_slice(&(-2i64).to_le_bytes());
    let meta_a = filemetadata_bytes(2, b"id", 4);
    let file_a = assemble(&hdr_a, &page, &meta_a);
    no_panic_typed_err(&file_a, "id");
    assert!(matches!(
        extract(&file_a, &["id"]),
        Err(PqError::Bad(_)) | Err(PqError::Unsupported(_))
    ));

    let hdr_b = page_header_bytes(2, 16);
    let meta_b = filemetadata_bytes(2, b"id", 1_000_000);
    let file_b = assemble(&hdr_b, &page, &meta_b);
    no_panic_typed_err(&file_b, "id");
    assert!(matches!(
        extract(&file_b, &["id"]),
        Err(PqError::Bad(_))
    ));
}
