use kessel_parquet::assembly::{
    assemble_list_of_list_primitive, assemble_list_of_map_kv, assemble_list_of_struct,
    assemble_list_primitive, assemble_map_kv, assemble_map_of_list, assemble_map_of_map_kv,
    assemble_map_of_struct, assemble_struct,
};
use kessel_parquet::bytes::{flba_be_to_i128, le_i32, le_i64, le_number, read_bits};
use kessel_parquet::codec::{expand, knows_codec, refuse_codec, zstd_error_text, FrameWords};
use kessel_parquet::dict::resolve_dict_indices;
use kessel_parquet::error::decimal_text;
use kessel_parquet::extract::transpose;
use kessel_parquet::float::widen;
use kessel_parquet::gzip;
use kessel_parquet::lz::copy_match;
use kessel_parquet::lz4;
use kessel_parquet::meta::Codec;
use kessel_parquet::page::{bit_width_for_max, check_page_size, decode_page, scatter_nulls, to_length};
use kessel_parquet::plain::{decode_plain, PlainSpec};
use kessel_parquet::rle::{decode_hybrid, decode_level_v1};
use kessel_parquet::schema::Type;
use kessel_parquet::snappy;
use kessel_parquet::thrift::{zigzag_decode, Reader, StructReader};
use kessel_parquet::varint::{read_varint, Varint};
use kessel_parquet::zstd::{self, ZstdError, ZSTD_MAX_DECOMP};
use kessel_parquet::{pqvalue_to_json, JsonPiece, PqError, PqValue};

fn ints(v: &[i64]) -> Vec<PqValue> {
    v.iter().map(|&n| PqValue::I64(n)).collect()
}

fn list(v: &[i64]) -> PqValue {
    PqValue::List(ints(v))
}

fn words() -> FrameWords {
    FrameWords { decode: "decode: ", size: "size ", wanted: " not " }
}

fn bad(m: &str) -> PqError {
    PqError::Bad(m.to_string())
}

fn text(v: &PqValue) -> String {
    let mut s = String::new();
    for p in pqvalue_to_json(v) {
        match p {
            JsonPiece::Text(t) => s.push_str(&t),
            JsonPiece::Float(_) => s.push('~'),
        }
    }
    s
}

#[test]
fn varints_of_every_length_are_read_back() {
    let mut n: u64 = 1;
    for len in 1..=10 {
        let mut b = vec![0xaa, 0xbb];
        let mut m = n;
        while m >= 128 {
            b.push((m % 128) as u8 | 128);
            m /= 128;
        }
        b.push(m as u8);
        let end = b.len();
        b.push(0x55);
        assert_eq!(end - 2, len);
        match read_varint(&b, 2, 10) {
            Varint::Value { value, end: e } => {
                assert_eq!(value, n);
                assert_eq!(e, end);
            }
            _ => panic!("{n}"),
        }
        if len < 10 {
            n = n * 128 + 5;
        }
        if len == 9 {
            n = u64::MAX;
        }
    }
    assert!(matches!(read_varint(&[0x80, 0x80], 0, 10), Varint::Truncated));
    assert!(matches!(read_varint(&[0x80; 12], 0, 5), Varint::TooLong));
}

#[test]
fn zigzag_codes_and_numbers_match_one_to_one() {
    for (u, v) in [(0, 0), (1, -1), (2, 1), (3, -2), (u64::MAX - 1, i64::MAX), (u64::MAX, i64::MIN)] {
        assert_eq!(zigzag_decode(u), v);
    }
    let mut r = Reader::new(&[0x03, 0xac, 0x02]);
    assert_eq!(r.ivarint().unwrap(), -2);
    assert_eq!(r.uvarint().unwrap(), 300);
    assert!(r.at_end());
}

#[test]
fn bytes_give_their_numbers_back() {
    assert_eq!(le_number(&[0x34, 0x12]), 0x1234);
    assert_eq!(le_i32(&(-77i32).to_le_bytes(), 0), -77);
    assert_eq!(le_i64(&i64::MIN.to_le_bytes(), 0), i64::MIN);
    assert_eq!(flba_be_to_i128(&[0xff, 0x85]), -123);
    assert_eq!(flba_be_to_i128(&i128::MIN.to_be_bytes()), i128::MIN);
    let n: u64 = 0x0123_4567_89ab_cdef;
    assert_eq!(read_bits(&n.to_le_bytes(), 1, 3, 21), (n >> 11) & 0x1f_ffff);
}

#[test]
fn runs_of_both_kinds_give_their_values() {
    // Five times 6, then eight values of three bits: 0 to 7.
    let data = [10, 6, 3, 0b1000_1000, 0b1100_0110, 0b1111_1010];
    let mut want = vec![6; 5];
    want.extend(0..8u64);
    assert_eq!(decode_hybrid(&data, 3, 13).unwrap(), want);
    assert_eq!(decode_hybrid(&data, 3, 7).unwrap(), want[..7]);
    let mut prefixed = vec![6, 0, 0, 0];
    prefixed.extend_from_slice(&data);
    prefixed.extend_from_slice(&[9, 9]);
    assert_eq!(decode_level_v1(&prefixed, 3, 13).unwrap(), (want, 10));
}

#[test]
fn level_widths_are_those_the_largest_level_takes() {
    for (max, width) in [(0, 0), (1, 1), (2, 2), (3, 2), (4, 3), (7, 3), (8, 4), (u32::MAX, 32)] {
        assert_eq!(bit_width_for_max(max), width);
    }
}

#[test]
fn plain_values_of_each_type_are_read_back() {
    let whatever = [0xee; 3];
    let read = |mut data: Vec<u8>, spec: PlainSpec, n: usize| {
        data.extend_from_slice(&whatever);
        decode_plain(&data, spec, n).unwrap()
    };
    assert_eq!(
        read([-1i32, 5].iter().flat_map(|v| v.to_le_bytes()).collect(), PlainSpec::plain(Type::Int32), 2),
        ints(&[-1, 5])
    );
    assert_eq!(
        read(i64::MIN.to_le_bytes().to_vec(), PlainSpec::plain(Type::Int64), 1),
        ints(&[i64::MIN])
    );
    assert_eq!(
        read((-0.5f64).to_le_bytes().to_vec(), PlainSpec::plain(Type::Double), 1),
        vec![PqValue::F64((-0.5f64).to_bits())]
    );
    assert_eq!(
        read(1.5f32.to_le_bytes().to_vec(), PlainSpec::plain(Type::Float), 1),
        vec![PqValue::F64(1.5f64.to_bits())]
    );
    assert_eq!(
        read(vec![0b101], PlainSpec::plain(Type::Boolean), 3),
        vec![PqValue::Bool(true), PqValue::Bool(false), PqValue::Bool(true)]
    );
    assert_eq!(
        read(vec![2, 0, 0, 0, b'h', b'i', 0, 0, 0, 0], PlainSpec::plain(Type::ByteArray), 2),
        vec![PqValue::Bytes(b"hi".to_vec()), PqValue::Bytes(vec![])]
    );
    assert_eq!(
        read(b"abcdef".to_vec(), PlainSpec::flba(3), 2),
        vec![PqValue::Bytes(b"abc".to_vec()), PqValue::Bytes(b"def".to_vec())]
    );
    assert_eq!(
        read(vec![0xff, 0x85], PlainSpec::flba_decimal(2, 4, 2), 1),
        vec![PqValue::Decimal { unscaled: -123, scale: 2 }]
    );
    // Half a day into the second day of the epoch.
    let mut day = (43_200_000_000_000u64).to_le_bytes().to_vec();
    day.extend_from_slice(&2_440_589u32.to_le_bytes());
    assert_eq!(
        read(day, PlainSpec::plain(Type::Int96), 1),
        vec![PqValue::Timestamp(129_600_000_000_000)]
    );
}

#[test]
fn dictionary_indices_pick_their_values() {
    let dict = ints(&[100, 200, 300]);
    assert_eq!(
        resolve_dict_indices(&[2, 0x03, 0b10_00_01_10, 0b00], &dict, 5).unwrap(),
        ints(&[300, 200, 100, 300, 100])
    );
    assert!(resolve_dict_indices(&[2, 0x03, 0b11, 0], &dict, 1).is_err());
}

#[test]
fn values_are_scattered_over_the_slots_that_hold_one() {
    assert_eq!(
        scatter_nulls(&vec![0, 1, 1, 0], ints(&[4, 5]), 1).unwrap(),
        vec![PqValue::Null, PqValue::I64(4), PqValue::I64(5), PqValue::Null]
    );
    assert_eq!(
        scatter_nulls(&vec![1, 1], ints(&[4]), 1).unwrap_err(),
        bad("value/def-level count mismatch")
    );
}

#[test]
fn a_page_encoding_out_of_reach_is_refused() {
    assert_eq!(
        decode_page(&[], 5, PlainSpec::plain(Type::Int64), 0, 0, &[]).unwrap_err(),
        PqError::Unsupported("data page encoding (DELTA/BYTE_STREAM_SPLIT): OBJ-2c".to_string())
    );
}

#[test]
fn a_copy_repeats_what_it_has_just_written() {
    let mut out = b"abc".to_vec();
    copy_match(&mut out, 2, 5);
    assert_eq!(out, b"abcbcbcb");
}

#[test]
fn literals_and_copies_expand() {
    // Ten bytes: four literals, then six bytes from four back.
    assert_eq!(
        snappy::decompress(&[10, 3 << 2, b'w', b'x', b'y', b'z', (6 - 4) << 2 | 1, 4], 10).unwrap(),
        b"wxyzwxyzwx"
    );
    assert_eq!(
        lz4::decompress(&[0x42, b'w', b'x', b'y', b'z', 4, 0], 10).unwrap(),
        b"wxyzwxyzwx"
    );
    assert_eq!(
        snappy::decompress(&[10, 0, b'w'], 9).unwrap_err(),
        bad("snappy preamble length != uncompressed_page_size")
    );
    assert_eq!(
        lz4::decompress(&[0x10, b'w'], 9).unwrap_err(),
        bad("lz4: decoded 1 bytes, expected 9")
    );
}

#[test]
fn stored_gzip_blocks_expand() {
    let mut member = vec![0x1f, 0x8b, 8, 0, 0, 0, 0, 0, 0, 0xff];
    member.extend_from_slice(&[0, 5, 0, 0xfa, 0xff]);
    member.extend_from_slice(b"12345");
    member.extend_from_slice(&[1, 4, 0, 0xfb, 0xff]);
    member.extend_from_slice(b"6789");
    member.extend_from_slice(&0xcbf4_3926u32.to_le_bytes());
    member.extend_from_slice(&9u32.to_le_bytes());
    assert_eq!(gzip::decompress(&member, 9).unwrap(), b"123456789");
    let n = member.len();
    member[n - 8] ^= 1;
    assert!(gzip::decompress(&member, 9).is_err());
}

#[test]
fn each_frame_error_comes_from_its_input() {
    let frame = |rest: &[u8]| {
        let mut f = vec![0x28, 0xb5, 0x2f, 0xfd];
        f.extend_from_slice(rest);
        zstd::decompress(&f).unwrap_err()
    };
    let raw = |last: u32, kind: u32, size: u32| {
        let h = last | kind << 1 | size << 3;
        [h as u8, (h >> 8) as u8, (h >> 16) as u8]
    };
    assert_eq!(zstd::decompress(&[0x28]).unwrap_err(), ZstdError::UnexpectedEof);
    assert_eq!(zstd::decompress(b"PAR1").unwrap_err(), ZstdError::BadMagic(*b"PAR1"));
    assert_eq!(frame(&[0x28, 1]), ZstdError::ReservedFrameHeaderBit(0x28));
    assert_eq!(frame(&[0x21, 77, 1]), ZstdError::DictionaryNotSupported(77));
    let mut huge = vec![0xe0];
    huge.extend_from_slice(&u64::MAX.to_le_bytes());
    assert_eq!(
        frame(&huge),
        ZstdError::FrameContentSizeTooLarge { claimed: u64::MAX, cap: ZSTD_MAX_DECOMP }
    );
    let mut reserved = vec![0x20, 1];
    reserved.extend_from_slice(&raw(1, 3, 1));
    assert_eq!(frame(&reserved), ZstdError::ReservedBlockType);
    let mut large = vec![0x20, 1];
    large.extend_from_slice(&raw(1, 0, 200_000));
    assert_eq!(frame(&large), ZstdError::BlockSizeTooLarge { claimed: 200_000, max: 131_072 });
    let mut short = vec![0x20, 2];
    short.extend_from_slice(&raw(1, 0, 1));
    short.push(b'a');
    assert_eq!(frame(&short), ZstdError::SizeMismatch { declared: 2, decoded: 1 });
    let mut sum = vec![0x24, 1];
    sum.extend_from_slice(&raw(1, 0, 1));
    sum.extend_from_slice(&[b'a', 0, 0]);
    assert_eq!(frame(&sum), ZstdError::TrailingChecksumTruncated);
}

#[test]
fn a_frame_that_grows_without_end_is_stopped() {
    let mut frame = vec![0x28, 0xb5, 0x2f, 0xfd, 0x00, 0x38];
    let h: u32 = 1 << 1 | 131_072 << 3;
    for _ in 0..=ZSTD_MAX_DECOMP / 131_072 {
        frame.extend_from_slice(&[h as u8, (h >> 8) as u8, (h >> 16) as u8, b'z']);
    }
    match zstd::decompress(&frame).unwrap_err() {
        ZstdError::DecompressionBomb { cap, .. } => assert_eq!(cap, ZSTD_MAX_DECOMP),
        other => panic!("{other:?}"),
    }
}

#[test]
fn frame_errors_are_put_in_words() {
    let cases = [
        (ZstdError::UnexpectedEof, "UnexpectedEof"),
        (ZstdError::BadMagic([1, 2, 3, 255]), "BadMagic([1, 2, 3, 255])"),
        (ZstdError::ReservedFrameHeaderBit(8), "ReservedFrameHeaderBit(8)"),
        (ZstdError::DictionaryNotSupported(9), "DictionaryNotSupported(9)"),
        (
            ZstdError::FrameContentSizeTooLarge { claimed: 5, cap: 4 },
            "FrameContentSizeTooLarge { claimed: 5, cap: 4 }",
        ),
        (ZstdError::ReservedBlockType, "ReservedBlockType"),
        (
            ZstdError::BlockSizeTooLarge { claimed: 5, max: 4 },
            "BlockSizeTooLarge { claimed: 5, max: 4 }",
        ),
        (
            ZstdError::SizeMismatch { declared: 5, decoded: 4 },
            "SizeMismatch { declared: 5, decoded: 4 }",
        ),
        (
            ZstdError::DecompressionBomb { decoded: 5, cap: 4 },
            "DecompressionBomb { decoded: 5, cap: 4 }",
        ),
        (ZstdError::TrailingChecksumTruncated, "TrailingChecksumTruncated"),
    ];
    for (e, t) in cases {
        assert_eq!(zstd_error_text(&e), t);
        assert_eq!(zstd_error_text(&e), format!("{e:?}"));
    }
    assert_eq!(
        expand(Codec::Zstd, b"PAR1", 4, words()).unwrap_err(),
        bad("decode: BadMagic([80, 65, 82, 49])")
    );
    let frame = [0x28, 0xb5, 0x2f, 0xfd, 0x20, 1, 1 + (1 << 3), 0, 0, b'a'];
    assert_eq!(expand(Codec::Zstd, &frame, 1, words()).unwrap(), b"a");
    assert_eq!(expand(Codec::Zstd, &frame, 2, words()).unwrap_err(), bad("size 1 not 2"));
}

#[test]
fn codecs_out_of_reach_are_refused() {
    for codec in [Codec::Brotli, Codec::Other(5), Codec::Other(3)] {
        assert!(!knows_codec(codec));
        assert_eq!(expand(codec, &[], 0, words()).unwrap_err(), refuse_codec(codec));
    }
    assert_eq!(
        refuse_codec(Codec::Other(3)),
        PqError::Unsupported("compression codec: OBJ-2c".to_string())
    );
    for codec in [Codec::Uncompressed, Codec::Snappy, Codec::Gzip, Codec::Zstd, Codec::Lz4Raw] {
        assert!(knows_codec(codec));
    }
}

#[test]
fn floats_keep_their_value_when_widened() {
    for x in [0.0f32, -0.0, 1.0, -2.5, f32::MIN_POSITIVE, f32::MAX, 1e-45, 7.3e-40, f32::INFINITY, f32::NEG_INFINITY] {
        assert_eq!(widen(x.to_bits()), (x as f64).to_bits(), "{x}");
    }
    assert!(f64::from_bits(widen(f32::NAN.to_bits())).is_nan());
}

#[test]
fn byte_strings_have_different_texts_in_plain_ascii() {
    let mut seen: Vec<String> = Vec::new();
    for b in 0..=255u8 {
        let t = text(&PqValue::Bytes(vec![b]));
        assert!(t.chars().all(|c| (' '..='~').contains(&c)));
        assert!(!seen.contains(&t));
        seen.push(t);
    }
    assert_eq!(text(&PqValue::Bytes(b"a\"\\\n\xff".to_vec())), "\"a\\\"\\\\\\u000a\\u00ff\"");
}

#[test]
fn json_of_every_kind_of_value() {
    let v = PqValue::Struct(vec![
        ("n\u{1}ä\"".to_string(), PqValue::MapKv(vec![(PqValue::Bool(true), list(&[1, 2]))])),
        ("t".to_string(), PqValue::Timestamp(-1)),
        ("d".to_string(), PqValue::Decimal { unscaled: i128::MIN, scale: 3 }),
        ("f".to_string(), PqValue::F64(0)),
    ]);
    assert_eq!(
        text(&v),
        "{\"n\\u0001ä\\\"\":[[true,[1,2]]],\"t\":-1,\"d\":{\"unscaled\":\
         \"-170141183460469231731687303715884105728\",\"scale\":3},\"f\":~}"
    );
    let pieces = pqvalue_to_json(&PqValue::List(vec![PqValue::F64(2.5f64.to_bits())]));
    let floats: Vec<u64> = pieces
        .iter()
        .filter_map(|p| match p {
            JsonPiece::Float(b) => Some(*b),
            JsonPiece::Text(_) => None,
        })
        .collect();
    assert_eq!(floats, [2.5f64.to_bits()]);
}

#[test]
fn numbers_are_written_in_decimal() {
    for n in [0i128, 7, -10, i64::MAX as i128, i128::MIN, i128::MAX] {
        assert_eq!(decimal_text(n), n.to_string());
    }
}

#[test]
fn lists_are_put_together_from_their_levels() {
    // [1, null], absent, [], [2]
    assert_eq!(
        assemble_list_primitive(&[0, 1, 0, 0, 0], &[3, 2, 0, 1, 3], &ints(&[1, 2]), 3, true, true)
            .unwrap(),
        vec![
            PqValue::List(vec![PqValue::I64(1), PqValue::Null]),
            PqValue::Null,
            list(&[]),
            list(&[2]),
        ]
    );
    // [[1, 2], [3]], []
    assert_eq!(
        assemble_list_of_list_primitive(
            &[0, 2, 1, 0],
            &[2, 2, 2, 0],
            &ints(&[1, 2, 3]),
            2,
            false,
            false,
            false
        )
        .unwrap(),
        vec![PqValue::List(vec![list(&[1, 2]), list(&[3])]), list(&[])]
    );
    assert_eq!(
        assemble_list_primitive(&[0], &[1], &[], 1, false, false).unwrap_err(),
        bad("nested: value stream exhausted")
    );
    assert_eq!(
        assemble_list_primitive(&[0], &[0], &ints(&[1]), 1, false, false).unwrap_err(),
        bad("nested: values not fully consumed")
    );
}

#[test]
fn maps_are_put_together_from_their_levels() {
    // {10: 1, 20: 2}, {}
    assert_eq!(
        assemble_map_kv(&[0, 1, 0], &[1, 1, 0], &ints(&[10, 20]), &ints(&[1, 2]), 1, false, false)
            .unwrap(),
        vec![
            PqValue::MapKv(vec![
                (PqValue::I64(10), PqValue::I64(1)),
                (PqValue::I64(20), PqValue::I64(2)),
            ]),
            PqValue::MapKv(vec![]),
        ]
    );
    // {10: [1, 2], 20: []}
    assert_eq!(
        assemble_map_of_list(
            &[0, 2, 1],
            &[2, 2, 1],
            &ints(&[10, 20]),
            &ints(&[1, 2]),
            2,
            false,
            false
        )
        .unwrap(),
        vec![PqValue::MapKv(vec![
            (PqValue::I64(10), list(&[1, 2])),
            (PqValue::I64(20), list(&[])),
        ])]
    );
    // [{10: 1}, {}]
    assert_eq!(
        assemble_list_of_map_kv(&[0, 1], &[2, 1], &ints(&[10]), &ints(&[1]), 2, false, false).unwrap(),
        vec![PqValue::List(vec![
            PqValue::MapKv(vec![(PqValue::I64(10), PqValue::I64(1))]),
            PqValue::MapKv(vec![]),
        ])]
    );
    // {10: {1: 5, 2: 6}}
    assert_eq!(
        assemble_map_of_map_kv(
            &[0, 2],
            &[2, 2],
            &ints(&[10]),
            &ints(&[1, 2]),
            &ints(&[5, 6]),
            2,
            false,
            false
        )
        .unwrap(),
        vec![PqValue::MapKv(vec![(
            PqValue::I64(10),
            PqValue::MapKv(vec![
                (PqValue::I64(1), PqValue::I64(5)),
                (PqValue::I64(2), PqValue::I64(6)),
            ])
        )])]
    );
}

#[test]
fn structs_are_put_together_from_their_columns() {
    let names = ["a".to_string(), "b".to_string()];
    let row = |a: i64, b: i64| {
        PqValue::Struct(vec![
            ("a".to_string(), PqValue::I64(a)),
            ("b".to_string(), PqValue::I64(b)),
        ])
    };
    let columns = [ints(&[1, 2, 3]), ints(&[4, 5, 6])];
    assert_eq!(
        assemble_list_of_struct(&[0, 1, 0, 0], &[1, 1, 0, 1], &names, &columns, 1, false).unwrap(),
        vec![PqValue::List(vec![row(1, 4), row(2, 5)]), list(&[]), PqValue::List(vec![row(3, 6)])]
    );
    assert_eq!(
        assemble_map_of_struct(
            &[0, 1, 0],
            &[1, 1, 1],
            &ints(&[7, 8, 9]),
            &names,
            &columns,
            1,
            false
        )
        .unwrap(),
        vec![
            PqValue::MapKv(vec![(PqValue::I64(7), row(1, 4)), (PqValue::I64(8), row(2, 5))]),
            PqValue::MapKv(vec![(PqValue::I64(9), row(3, 6))]),
        ]
    );
    let holes = [vec![PqValue::Null, PqValue::I64(1)], vec![PqValue::Null, PqValue::Null]];
    assert_eq!(
        assemble_struct(&names, &holes, true).unwrap(),
        vec![
            PqValue::Null,
            PqValue::Struct(vec![
                ("a".to_string(), PqValue::I64(1)),
                ("b".to_string(), PqValue::Null),
            ]),
        ]
    );
    assert_eq!(
        assemble_struct(&names, &[ints(&[1]), ints(&[])], false).unwrap_err(),
        bad("struct: field length mismatch")
    );
    assert_eq!(assemble_struct(&[], &[], false).unwrap_err(), bad("struct: no fields"));
}

#[test]
fn columns_turn_into_rows() {
    assert_eq!(
        transpose(&vec![ints(&[1, 2]), ints(&[3, 4])]).unwrap(),
        vec![ints(&[1, 3]), ints(&[2, 4])]
    );
    assert_eq!(
        transpose(&vec![ints(&[1]), ints(&[])]).unwrap_err(),
        bad("column length mismatch")
    );
}

#[test]
fn lengths_and_page_sizes_are_checked() {
    assert_eq!(to_length(5, "range").unwrap(), 5);
    assert_eq!(to_length(-1, "range").unwrap_err(), bad("range"));
    assert!(check_page_size("page", 10, 10).is_ok());
    assert_eq!(
        check_page_size("page", 11, 10).unwrap_err(),
        PqError::Unsupported(
            "page size 11 exceeds max_page_size cap 10: \
             SP151 (raise via kessel_parquet::extract_with_cap)"
                .to_string()
        )
    );
}

#[test]
fn a_failed_read_leaves_the_position_where_it_is() {
    let mut r = Reader::new(&[1, 2, 3]);
    assert_eq!(r.byte().unwrap(), 1);
    assert_eq!(r.take(3).unwrap_err(), bad("eof: take"));
    assert_eq!(r.pos(), 1);
    assert_eq!(r.take(usize::MAX).unwrap_err(), bad("len overflow"));
    assert_eq!(r.pos(), 1);
    assert_eq!(r.take(2).unwrap(), &[2, 3]);
    assert_eq!(r.byte().unwrap_err(), bad("eof: byte"));
    assert_eq!(r.pos(), 3);
    let mut r = Reader::new(&[0xff; 12]);
    assert_eq!(r.uvarint().unwrap_err(), bad("varint overflow"));
    assert_eq!(r.pos(), 11);
    assert_eq!(r.uvarint().unwrap_err(), bad("eof: byte"));
    assert_eq!(r.pos(), 12);
}

#[test]
fn a_value_of_another_type_is_not_consumed() {
    let mut s = StructReader::new(&[0x15, 0x0e, 0x00]);
    let f = s.next_field().unwrap().unwrap();
    assert_eq!(s.read_i64(&f).unwrap_err(), bad("expected i64"));
    assert_eq!(s.reader_pos(), 1);
    assert_eq!(s.read_binary(&f).unwrap_err(), bad("expected binary"));
    assert_eq!(s.reader_pos(), 1);
    assert_eq!(s.read_i32(&f).unwrap(), 7);
    assert_eq!(s.reader_pos(), 2);
    let mut s = StructReader::new(&[0x16, 0x0e, 0x00]);
    let f = s.next_field().unwrap().unwrap();
    assert_eq!(s.read_i32(&f).unwrap_err(), bad("expected i32"));
    assert_eq!(s.reader_pos(), 1);
    assert_eq!(s.read_i64(&f).unwrap(), 7);
}

#[test]
fn a_failed_skip_stops_where_the_value_breaks_off() {
    // {1: 7, 2: ["ab", five bytes that are not there]}
    let mut s = StructReader::new(&[0x15, 0x0e, 0x19, 0x28, 0x02, b'a', b'b', 0x05, b'c']);
    assert_eq!(s.skip(12).unwrap_err(), bad("eof: take"));
    assert_eq!((s.reader_pos(), s.save_last_id()), (8, 2));
    // {1: {3: a number that breaks off
    let mut s = StructReader::new(&[0x1c, 0x35, 0x80]);
    assert_eq!(s.skip(12).unwrap_err(), bad("eof: byte"));
    assert_eq!((s.reader_pos(), s.save_last_id()), (3, 3));
    // {1: {1: 1}, 2: a number that breaks off
    let mut s = StructReader::new(&[0x1c, 0x15, 0x02, 0x00, 0x15, 0x80]);
    assert_eq!(s.skip(12).unwrap_err(), bad("eof: byte"));
    assert_eq!((s.reader_pos(), s.save_last_id()), (6, 2));
    let mut s = StructReader::new(&[0x00; 7]);
    s.restore_last_id(4);
    assert_eq!(s.skip(13).unwrap_err(), bad("skip: unknown ctype"));
    assert_eq!((s.reader_pos(), s.save_last_id()), (0, 4));
    assert_eq!(s.skip(7).unwrap_err(), bad("eof: take"));
    assert_eq!((s.reader_pos(), s.save_last_id()), (0, 4));
    s.skip(12).unwrap();
    assert_eq!((s.reader_pos(), s.save_last_id()), (1, 4));
}

#[test]
fn a_frame_header_says_how_large_its_window_is() {
    let (h, end) = zstd::decode_frame_header(&[0x60, 0x00, 0x00], 0).unwrap();
    assert_eq!(h.frame_content_size, Some(256));
    assert!(h.single_segment);
    assert!(!h.content_checksum);
    assert_eq!(h.window_size, 256);
    assert_eq!(end, 3);
    for (descriptor, size) in [(0u8, 1024u64), (7, 1920), (0x38, 131_072), (0xff, 15 << 38)] {
        let (h, end) = zstd::decode_frame_header(&[0x04, descriptor], 0).unwrap();
        assert_eq!(h.frame_content_size, None);
        assert!(!h.single_segment);
        assert!(h.content_checksum);
        assert_eq!(h.window_size, size);
        assert_eq!(end, 2);
    }
}

#[test]
fn values_are_scattered_by_the_largest_level() {
    assert_eq!(
        scatter_nulls(&vec![2, 1, 0, 2], ints(&[4, 5]), 2).unwrap(),
        vec![PqValue::I64(4), PqValue::Null, PqValue::Null, PqValue::I64(5)]
    );
}
