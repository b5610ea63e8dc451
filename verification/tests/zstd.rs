use kessel_parquet::zstd::{BLOCK_MAX_SIZE, ZSTD_MAGIC, ZstdError, decompress};
use kessel_parquet::zstd_literals::{LiteralsBlockType, decode_raw_literals, parse_literals_header};
use kessel_parquet::zstd_seqexec::{RepeatOffsets, execute_sequences};
use kessel_parquet::zstd_sequences::{SeqSymbolClass, SeqSymbolMode, decode_sequences_stream, load_fse_table_for_mode, parse_sequences_header};

fn build_raw_block_frame(payload: &[u8]) -> Vec<u8> {
    let mut out = Vec::new();
    out.extend_from_slice(&ZSTD_MAGIC);
    let fhd = 0b00100000u8;
    out.push(fhd);
    assert!(payload.len() < 256, "test helper: payload too large for 1-byte FCS");
    out.push(payload.len() as u8);
    let hdr = 0x1u32 | ((payload.len() as u32) << 3);
    out.push((hdr & 0xFF) as u8);
    out.push(((hdr >> 8) & 0xFF) as u8);
    out.push(((hdr >> 16) & 0xFF) as u8);
    out.extend_from_slice(payload);
    out
}

#[test]
fn sp125_kat_raw_block_5_bytes() {
    let payload = b"hello";
    let frame = build_raw_block_frame(payload);
    assert_eq!(decompress(&frame).unwrap(), payload);
}

#[test]
fn sp125_kat_raw_block_empty() {
    let frame = build_raw_block_frame(&[]);
    assert_eq!(decompress(&frame).unwrap(), b"");
}

#[test]
fn sp125_kat_bad_magic() {
    let bad = vec![0xDE, 0xAD, 0xBE, 0xEF, 0x00, 0x00, 0x00, 0x00];
    match decompress(&bad).unwrap_err() {
        ZstdError::BadMagic(bytes) => {
            assert_eq!(bytes, [0xDE, 0xAD, 0xBE, 0xEF]);
        }
        other => panic!("expected BadMagic; got {other:?}"),
    }
}

#[test]
fn sp125_kat_rle_block_200_bytes() {
    let mut out = Vec::new();
    out.extend_from_slice(&ZSTD_MAGIC);
    out.push(0b00100000u8);
    out.push(200u8);
    let hdr = 0x1u32 | (1u32 << 1) | (200u32 << 3);
    out.push((hdr & 0xFF) as u8);
    out.push(((hdr >> 8) & 0xFF) as u8);
    out.push(((hdr >> 16) & 0xFF) as u8);
    out.push(b'X');
    let decoded = decompress(&out).unwrap();
    assert_eq!(decoded.len(), 200);
    assert!(decoded.iter().all(|&b| b == b'X'));
}

#[test]
fn sp125_kat_multi_block_frame() {
    let mut out = Vec::new();
    out.extend_from_slice(&ZSTD_MAGIC);
    out.push(0b00100000u8);
    out.push(15u8);
    for (i, payload) in [b"AAAAA", b"BBBBB", b"CCCCC"].iter().enumerate() {
        let last = if i == 2 { 1u32 } else { 0 };
        let hdr = last | (5u32 << 3);
        out.push((hdr & 0xFF) as u8);
        out.push(((hdr >> 8) & 0xFF) as u8);
        out.push(((hdr >> 16) & 0xFF) as u8);
        out.extend_from_slice(*payload);
    }
    assert_eq!(decompress(&out).unwrap(), b"AAAAABBBBBCCCCC");
}

#[test]
fn sp125_kat_reserved_block_type_traps() {
    let mut out = Vec::new();
    out.extend_from_slice(&ZSTD_MAGIC);
    out.push(0b00100000u8);
    out.push(0u8);
    let hdr = 0x1u32 | (3u32 << 1);
    out.push((hdr & 0xFF) as u8);
    out.push(((hdr >> 8) & 0xFF) as u8);
    out.push(((hdr >> 16) & 0xFF) as u8);
    assert_eq!(decompress(&out).unwrap_err(), ZstdError::ReservedBlockType);
}

#[test]
fn sp125_kat_compressed_block_wired_by_sp136() {
    let mut out = Vec::new();
    out.extend_from_slice(&ZSTD_MAGIC);
    out.push(0b00100000u8);
    out.push(0u8);
    let hdr = 0x1u32 | (2u32 << 1);
    out.push((hdr & 0xFF) as u8);
    out.push(((hdr >> 8) & 0xFF) as u8);
    out.push(((hdr >> 16) & 0xFF) as u8);
    assert_eq!(
        decompress(&out).unwrap_err(),
        ZstdError::UnexpectedEof
    );
}

#[test]
fn sp125_kat_dictionary_rejected() {
    let mut out = Vec::new();
    out.extend_from_slice(&ZSTD_MAGIC);
    let fhd = 0b00100001u8;
    out.push(fhd);
    out.push(0x42u8);
    out.push(0u8);
    match decompress(&out).unwrap_err() {
        ZstdError::DictionaryNotSupported(0x42) => {}
        other => panic!("expected DictionaryNotSupported(0x42); got {other:?}"),
    }
}

#[test]
fn sp125_kat_decompression_bomb_fcs_rejected() {
    let mut out = Vec::new();
    out.extend_from_slice(&ZSTD_MAGIC);
    let fhd = 0b11000000u8;
    out.push(fhd);
    out.push(0x00);
    out.extend_from_slice(&u64::MAX.to_le_bytes());
    match decompress(&out).unwrap_err() {
        ZstdError::FrameContentSizeTooLarge { claimed: u64::MAX, .. } => {}
        other => panic!("expected FrameContentSizeTooLarge; got {other:?}"),
    }
}

#[test]
fn sp125_kat_reserved_bit_traps() {
    let mut out = Vec::new();
    out.extend_from_slice(&ZSTD_MAGIC);
    let fhd = 0b00101000u8;
    out.push(fhd);
    assert_eq!(
        decompress(&out).unwrap_err(),
        ZstdError::ReservedFrameHeaderBit(0b00101000u8)
    );
}

#[test]
fn sp125_kat_truncated_input_is_typed_error() {
    let bytes = ZSTD_MAGIC.to_vec();
    assert_eq!(decompress(&bytes).unwrap_err(), ZstdError::UnexpectedEof);
}

#[test]
fn sp125_kat_block_size_too_large() {
    let mut out = Vec::new();
    out.extend_from_slice(&ZSTD_MAGIC);
    let fhd = 0b10100000u8;
    out.push(fhd);
    out.extend_from_slice(&((BLOCK_MAX_SIZE as u32) + 1).to_le_bytes());
    let bs = (BLOCK_MAX_SIZE + 1) as u32;
    let hdr = 0x1u32 | (bs << 3);
    out.push((hdr & 0xFF) as u8);
    out.push(((hdr >> 8) & 0xFF) as u8);
    out.push(((hdr >> 16) & 0xFF) as u8);
    match decompress(&out).unwrap_err() {
        ZstdError::BlockSizeTooLarge { claimed, max } => {
            assert_eq!(claimed, BLOCK_MAX_SIZE + 1);
            assert_eq!(max, BLOCK_MAX_SIZE);
        }
        other => panic!("expected BlockSizeTooLarge; got {other:?}"),
    }
}

#[test]
fn sp125_kat_checksum_trailer_truncated() {
    let mut out = Vec::new();
    out.extend_from_slice(&ZSTD_MAGIC);
    let fhd = 0b00100100u8;
    out.push(fhd);
    out.push(0u8);
    out.push(0x01);
    out.push(0x00);
    out.push(0x00);
    assert_eq!(
        decompress(&out).unwrap_err(),
        ZstdError::TrailingChecksumTruncated
    );
}

#[test]
fn sp125_kat_deterministic_repeat() {
    let frame = build_raw_block_frame(b"deterministic");
    let r1 = decompress(&frame).unwrap();
    let r2 = decompress(&frame).unwrap();
    assert_eq!(r1, r2);
    assert_eq!(r1, b"deterministic");
}

#[test]
fn sp136_kat_decode_pyarrow_parquet_frame() {
    let compressed: &[u8] = &[
        0x28, 0xb5, 0x2f, 0xfd, 0x20, 0x2e, 0xf5, 0x00, 0x00,
        0xb0, 0x02, 0x00, 0x00, 0x00, 0x0a, 0x01, 0x01, 0x00,
        0x02, 0x00, 0x03, 0x00, 0x04, 0x00, 0x05, 0x00, 0x00,
        0x00, 0x00, 0x00, 0x00, 0x00, 0x04, 0x14, 0x00, 0x03,
        0x18, 0x63, 0x2e,
    ];
    let decoded = decompress(compressed).expect("decode pyarrow Parquet frame");
    assert_eq!(decoded.len(), 46);
    assert_eq!(&decoded[0..6], &[0x02, 0x00, 0x00, 0x00, 0x0a, 0x01]);
    for (i, v) in [1u64, 2, 3, 4, 5].iter().enumerate() {
        let off = 6 + i * 8;
        let bytes: [u8; 8] = decoded[off..off + 8].try_into().unwrap();
        assert_eq!(u64::from_le_bytes(bytes), *v);
    }
}

#[test]
fn sp137_fix_lock_pyarrow_frame_pipeline() {
    let block: &[u8] = &[
        0xb0, 0x02, 0x00, 0x00, 0x00, 0x0a, 0x01, 0x01, 0x00, 0x02,
        0x00, 0x03, 0x00, 0x04, 0x00, 0x05, 0x00, 0x00, 0x00, 0x00,
        0x00, 0x00, 0x00, 0x04, 0x14, 0x00, 0x03, 0x18, 0x63, 0x2e,
    ];
    let lit_hdr = parse_literals_header(block).unwrap();
    assert_eq!(lit_hdr.block_type, LiteralsBlockType::Raw);
    assert_eq!(lit_hdr.regenerated_size, 22);
    assert_eq!(lit_hdr.header_len, 1);
    let literals =
        decode_raw_literals(&block[1..], 22).unwrap();
    assert_eq!(literals.len(), 22);
    let seq_hdr = parse_sequences_header(&block[23..]).unwrap();
    assert_eq!(seq_hdr.num_sequences, 4);
    assert_eq!(seq_hdr.ll_mode, SeqSymbolMode::Predefined);
    assert_eq!(seq_hdr.of_mode, SeqSymbolMode::Rle);
    assert_eq!(seq_hdr.ml_mode, SeqSymbolMode::Rle);
    assert_eq!(seq_hdr.header_len, 2);
    let after = &block[25..];
    let (ll_table, ll_n) = load_fse_table_for_mode(
        SeqSymbolClass::LiteralLength, seq_hdr.ll_mode, after, None,
    ).unwrap();
    assert_eq!(ll_table.accuracy_log, 6);
    assert_eq!(ll_table.entries.len(), 64);
    assert_eq!(ll_table.entries[28].symbol, 8);
    assert_eq!(ll_table.entries[28].nb_bits, 5);
    assert_eq!(ll_table.entries[28].base_state, 0);
    let (of_table, of_n) = load_fse_table_for_mode(
        SeqSymbolClass::Offset, seq_hdr.of_mode, &after[ll_n..], None,
    ).unwrap();
    assert_eq!(of_table.accuracy_log, 0);
    assert_eq!(of_n, 1);
    let (ml_table, ml_n) = load_fse_table_for_mode(
        SeqSymbolClass::MatchLength, seq_hdr.ml_mode, &after[ll_n + of_n..], None,
    ).unwrap();
    assert_eq!(ml_table.accuracy_log, 0);
    assert_eq!(ml_n, 1);
    let bitstream = &after[ll_n + of_n + ml_n..];
    assert_eq!(bitstream.len(), 3);
    let seqs = decode_sequences_stream(
        bitstream, &ll_table, &of_table, &ml_table, seq_hdr.num_sequences,
    ).unwrap();
    assert_eq!(seqs.len(), 4);
    assert_eq!(seqs[0].literal_length, 8);
    assert_eq!(seqs[1].literal_length, 2);
    assert_eq!(seqs[2].literal_length, 2);
    assert_eq!(seqs[3].literal_length, 2);
    for s in &seqs {
        assert_eq!(s.offset, 1);
        assert_eq!(s.match_length, 6);
    }
    let mut repeats = RepeatOffsets::new();
    let mut out: Vec<u8> = Vec::new();
    let n = execute_sequences(
        &seqs, &literals, &mut repeats, &mut out, 64 * 1024,
    ).unwrap();
    assert_eq!(n, 46);
    let expected_prefix = [0x02, 0x00, 0x00, 0x00, 0x0a, 0x01];
    assert_eq!(&out[0..6], &expected_prefix[..]);
    for (i, v) in [1u64, 2, 3, 4, 5].iter().enumerate() {
        let off = 6 + i * 8;
        let bytes: [u8; 8] = out[off..off + 8].try_into().unwrap();
        assert_eq!(u64::from_le_bytes(bytes), *v);
    }
}

#[test]
fn sp136_kat_decode_reference_stream_hello() {
    let compressed: &[u8] = &[
        0x28, 0xb5, 0x2f, 0xfd, 0x04, 0x58, 0x95, 0x00, 0x00,
        0x60, 0x68, 0x65, 0x6c, 0x6c, 0x6f, 0x20, 0x77, 0x6f,
        0x72, 0x6c, 0x64, 0x0a, 0x01, 0x00, 0xf1, 0x4a, 0x11,
        0xa2, 0x6c, 0x06, 0x32,
    ];
    let decoded = decompress(compressed).expect("decode reference stream");
    assert_eq!(&decoded[..], b"hello hello hello hello world\n");
}
