use kessel_parquet::{PqError, extract, extract_with_cap};

fn caught<T>(f: impl FnOnce() -> T) -> Result<T, String> {
    Ok(f())
}

fn uv(out: &mut Vec<u8>, mut v: u64) {
    loop {
        let b = (v & 0x7f) as u8;
        v >>= 7;
        if v == 0 { out.push(b); break; } else { out.push(b | 0x80); }
    }
}
fn zz(v: i64) -> u64 { ((v << 1) ^ (v >> 63)) as u64 }

fn page_header_claim_size(uncomp_bytes: i64) -> Vec<u8> {
    let mut h = Vec::new();
    h.push(0x15); uv(&mut h, zz(0));
    h.push(0x15); uv(&mut h, zz(uncomp_bytes));
    h.push(0x15); uv(&mut h, zz(uncomp_bytes));
    h.push(0x2c);
    h.push(0x15); uv(&mut h, zz(2));
    h.push(0x15); uv(&mut h, zz(0));
    h.push(0x00); h.push(0x00);
    h
}

fn filemetadata_int64_one_page() -> Vec<u8> {
    let mut m = Vec::new();
    m.push(0x15); uv(&mut m, zz(2));
    m.push(0x19); m.push(0x2c);
    m.push(0x48); uv(&mut m, 6); m.extend_from_slice(b"schema");
    m.push(0x15); uv(&mut m, zz(1));
    m.push(0x00);
    m.push(0x15); uv(&mut m, zz(2));
    m.push(0x25); uv(&mut m, zz(0));
    m.push(0x18); uv(&mut m, 2); m.extend_from_slice(b"id");
    m.push(0x00);
    m.push(0x16); uv(&mut m, zz(2));
    m.push(0x19); m.push(0x1c);
    m.push(0x19); m.push(0x1c);
    m.push(0x3c);
    m.push(0x15); uv(&mut m, zz(2));
    m.push(0x19); m.push(0x15); uv(&mut m, zz(0));
    m.push(0x19); m.push(0x18); uv(&mut m, 2); m.extend_from_slice(b"id");
    m.push(0x15); uv(&mut m, zz(0));
    m.push(0x16); uv(&mut m, zz(2));
    m.push(0x46); uv(&mut m, zz(4));
    m.push(0x00); m.push(0x00);
    m.push(0x26); uv(&mut m, zz(2));
    m.push(0x00); m.push(0x00);
    m
}

fn assemble(hdr: &[u8], page_payload: &[u8], meta: &[u8]) -> Vec<u8> {
    let mut f = Vec::new();
    f.extend_from_slice(b"PAR1");
    f.extend_from_slice(hdr);
    f.extend_from_slice(page_payload);
    f.extend_from_slice(meta);
    f.extend_from_slice(&(meta.len() as u32).to_le_bytes());
    f.extend_from_slice(b"PAR1");
    f
}

#[test]
fn sp151_65mib_page_passes_cap_check() {
    let hdr = page_header_claim_size(65 * 1024 * 1024);
    let payload = vec![0u8; 16];
    let meta = filemetadata_int64_one_page();
    let file = assemble(&hdr, &payload, &meta);

    let err = extract(&file, &["id"])
        .expect_err("file is truncated relative to its 65 MiB claim");
    let msg = format!("{err:?}");
    assert!(
        !msg.contains("SP151"),
        "65 MiB page must NOT trip the SP151 cap at default 256 MiB: {msg}"
    );
    assert!(
        !msg.contains("max_page_size"),
        "65 MiB page must NOT trip the SP151 cap at default 256 MiB: {msg}"
    );
}

#[test]
fn sp151_300mib_page_trips_cap_with_named_followup() {
    let hdr = page_header_claim_size(300 * 1024 * 1024);
    let payload = vec![0u8; 16];
    let meta = filemetadata_int64_one_page();
    let file = assemble(&hdr, &payload, &meta);

    let err = extract(&file, &["id"])
        .expect_err("300 MiB > 256 MiB cap must reject");
    match err {
        PqError::Unsupported(msg) => {
            assert!(
                msg.contains("SP151"),
                "300 MiB page rejection must name SP151: {msg}"
            );
            assert!(
                msg.contains("extract_with_cap"),
                "300 MiB page rejection must name extract_with_cap: {msg}"
            );
        }
        other => panic!("expected Unsupported(SP151...), got {other:?}"),
    }
}

#[test]
fn sp151_65mib_page_trips_custom_60mib_cap() {
    let hdr = page_header_claim_size(65 * 1024 * 1024);
    let payload = vec![0u8; 16];
    let meta = filemetadata_int64_one_page();
    let file = assemble(&hdr, &payload, &meta);

    let cap = 60 * 1024 * 1024;
    let err = extract_with_cap(&file, &["id"], cap)
        .expect_err("65 MiB > 60 MiB user cap must reject");
    match err {
        PqError::Unsupported(msg) => {
            assert!(msg.contains("SP151"), "{msg}");
            let cap_str = format!("max_page_size cap {cap}");
            assert!(
                msg.contains(&cap_str),
                "rejection must echo the operator's cap value {cap}: {msg}"
            );
        }
        other => panic!("expected Unsupported(SP151...), got {other:?}"),
    }
}

#[test]
fn sp151_huge_uncomp_no_oom_no_panic() {
    let hdr = page_header_claim_size(i32::MAX as i64);
    let payload = vec![0u8; 16];
    let meta = filemetadata_int64_one_page();
    let file = assemble(&hdr, &payload, &meta);

    let r = caught(move || extract(&file, &["id"]));
    assert!(r.is_ok(), "huge uncomp must NOT panic/OOM");
    match r.unwrap() {
        Err(PqError::Unsupported(msg)) => {
            assert!(msg.contains("SP151"), "{msg}");
        }
        other => panic!("expected Unsupported(SP151...), got {other:?}"),
    }
}
