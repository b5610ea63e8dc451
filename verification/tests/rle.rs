use kessel_parquet::rle::{decode_hybrid, decode_level_v1};

#[test]
fn kat_bitpacked_0_to_7_width3() {
    let stream = [0x03u8, 0x88, 0xC6, 0xFA];
    let v = decode_hybrid(&stream, 3, 8).expect("decode");
    assert_eq!(v, vec![0, 1, 2, 3, 4, 5, 6, 7]);
}

#[test]
fn kat_rle_run_value5_x8_width3() {
    let stream = [0x10u8, 0x05];
    let v = decode_hybrid(&stream, 3, 8).expect("decode");
    assert_eq!(v, vec![5, 5, 5, 5, 5, 5, 5, 5]);
}

#[test]
fn kat_bitwidth0_rle_four_zeros() {
    let stream = [0x08u8];
    let v = decode_hybrid(&stream, 0, 4).expect("decode");
    assert_eq!(v, vec![0, 0, 0, 0]);
}

#[test]
fn kat_mixed_rle_then_bitpacked() {
    let stream = [0x08u8, 0x05, 0x03, 0x88, 0xC6, 0xFA];
    let v = decode_hybrid(&stream, 3, 12).expect("decode");
    assert_eq!(v, vec![5, 5, 5, 5, 0, 1, 2, 3, 4, 5, 6, 7]);
}

#[test]
fn kat_overproduction_truncates() {
    let stream = [0x08u8, 0x05, 0x03, 0x88, 0xC6, 0xFA];
    let v = decode_hybrid(&stream, 3, 10).expect("decode");
    assert_eq!(v, vec![5, 5, 5, 5, 0, 1, 2, 3, 4, 5]);
}

#[test]
fn kat_rle_wide_value_width17() {
    let stream = [0x04u8, 0xA0, 0x86, 0x01];
    let v = decode_hybrid(&stream, 17, 2).expect("decode");
    assert_eq!(v, vec![100_000, 100_000]);
}

#[test]
fn kat_decode_level_v1_prefix_and_consumed() {
    let data = [0x02u8, 0x00, 0x00, 0x00, 0x08, 0x01];
    let (levels, consumed) =
        decode_level_v1(&data, 1, 4).expect("decode");
    assert_eq!(levels, vec![1, 1, 1, 1]);
    assert_eq!(consumed, 6);
}

fn enc_uvarint(out: &mut Vec<u8>, mut v: u64) {
    loop {
        let b = (v & 0x7f) as u8;
        v >>= 7;
        if v == 0 {
            out.push(b);
            break;
        } else {
            out.push(b | 0x80);
        }
    }
}

fn enc_bitpacked(vals: &[u64], bit_width: u32) -> Vec<u8> {
    assert!(vals.len() % 8 == 0 && bit_width >= 1 && bit_width <= 32);
    let groups = (vals.len() / 8) as u64;
    let mut out = Vec::new();
    enc_uvarint(&mut out, (groups << 1) | 1);
    let nbytes = vals.len() * bit_width as usize / 8;
    let mut bytes = vec![0u8; nbytes];
    let mut bitpos = 0usize;
    for &val in vals {
        for k in 0..bit_width as usize {
            let bit = ((val >> k) & 1) as u8;
            if bit == 1 {
                bytes[(bitpos + k) / 8] |= 1 << ((bitpos + k) % 8);
            }
        }
        bitpos += bit_width as usize;
    }
    out.extend_from_slice(&bytes);
    out
}

fn enc_rle(value: u64, run_len: u64, bit_width: u32) -> Vec<u8> {
    let mut out = Vec::new();
    enc_uvarint(&mut out, run_len << 1);
    let vb = ((bit_width as usize) + 7) / 8;
    for i in 0..vb {
        out.push(((value >> (8 * i as u32)) & 0xff) as u8);
    }
    out
}

#[test]
fn roundtrip_bitpacked_all_widths() {
    let mut state: u64 = 0x1234_5678_9abc_def0;
    let mut next = || {
        state = state
            .wrapping_mul(6364136223846793005)
            .wrapping_add(1442695040888963407);
        state >> 11
    };
    for bw in 1u32..=32 {
        for &count in &[8usize, 16, 64, 256] {
            let mask = if bw == 64 { u64::MAX } else { (1u64 << bw) - 1 };
            let vals: Vec<u64> =
                (0..count).map(|_| next() & mask).collect();
            let stream = enc_bitpacked(&vals, bw);
            let got = decode_hybrid(&stream, bw, count).expect("decode");
            assert_eq!(got, vals, "bw={bw} count={count}");
        }
    }
}

#[test]
fn roundtrip_rle_all_widths() {
    for bw in 1u32..=32 {
        let mask = (1u64 << bw) - 1;
        let value = 0xA5A5_A5A5_A5A5_A5A5u64 & mask;
        for &run in &[1u64, 7, 100, 1000] {
            let stream = enc_rle(value, run, bw);
            let got =
                decode_hybrid(&stream, bw, run as usize).expect("decode");
            assert_eq!(got, vec![value; run as usize], "bw={bw}");
        }
    }
}
