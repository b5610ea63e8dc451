use kessel_parquet::classify::classify_column_plan;
use kessel_parquet::meta::{FileMetaData, decode_page_header};
use kessel_parquet::plan::ColumnKind;
use kessel_parquet::schema::SchemaNode;
use kessel_parquet::thrift::StructReader;
use kessel_parquet::{DEFAULT_MAX_PAGE_SIZE, PqError, PqValue, extract, extract_with_cap};

#[derive(Clone)]
enum Datum {
    Truth(bool),
    I32(i32),
    I64(i64),
    Double(u64),
    Binary(Vec<u8>),
    List(u8, Vec<Datum>),
    Struct(Vec<(i16, Datum)>),
}

fn varint(out: &mut Vec<u8>, mut n: u64) {
    while n >= 128 {
        out.push((n % 128) as u8 + 128);
        n /= 128;
    }
    out.push(n as u8);
}

fn zigzag(v: i64) -> u64 {
    ((v << 1) ^ (v >> 63)) as u64
}

fn code(d: &Datum) -> u8 {
    match d {
        Datum::Truth(true) => 1,
        Datum::Truth(false) => 2,
        Datum::I32(_) => 5,
        Datum::I64(_) => 6,
        Datum::Double(_) => 7,
        Datum::Binary(_) => 8,
        Datum::List(..) => 9,
        Datum::Struct(_) => 12,
    }
}

fn write(out: &mut Vec<u8>, d: &Datum) {
    match d {
        Datum::Truth(_) => {}
        Datum::I32(n) => varint(out, zigzag(*n as i64)),
        Datum::I64(n) => varint(out, zigzag(*n)),
        Datum::Double(n) => out.extend_from_slice(&n.to_le_bytes()),
        Datum::Binary(s) => {
            varint(out, s.len() as u64);
            out.extend_from_slice(s);
        }
        Datum::List(elements, items) => {
            if items.len() < 15 {
                out.push((items.len() as u8) * 16 + elements);
            } else {
                out.push(240 + elements);
                varint(out, items.len() as u64);
            }
            for item in items {
                write(out, item);
            }
        }
        Datum::Struct(fields) => {
            let mut last: i16 = 0;
            for (id, value) in fields {
                let step = *id as i32 - last as i32;
                if 0 < step && step <= 15 {
                    out.push((step as u8) * 16 + code(value));
                } else {
                    out.push(code(value));
                    varint(out, zigzag(*id as i64));
                }
                last = *id;
                write(out, value);
            }
            out.push(0);
        }
    }
}

fn form(d: &Datum) -> Vec<u8> {
    let mut out = Vec::new();
    write(&mut out, d);
    out
}

struct Page {
    header: Datum,
    section: Vec<u8>,
}

fn v1_page(n: i32, encoding: i32, uncompressed: i32, section: Vec<u8>) -> Page {
    Page {
        header: Datum::Struct(vec![
            (1, Datum::I32(0)),
            (2, Datum::I32(uncompressed)),
            (3, Datum::I32(section.len() as i32)),
            (
                5,
                Datum::Struct(vec![
                    (1, Datum::I32(n)),
                    (2, Datum::I32(encoding)),
                    (3, Datum::I32(3)),
                    (4, Datum::I32(3)),
                ]),
            ),
        ]),
        section,
    }
}

fn dict_page(n: i32, section: Vec<u8>) -> Page {
    Page {
        header: Datum::Struct(vec![
            (1, Datum::I32(2)),
            (2, Datum::I32(section.len() as i32)),
            (3, Datum::I32(section.len() as i32)),
            (7, Datum::Struct(vec![(1, Datum::I32(n)), (2, Datum::I32(0))])),
        ]),
        section,
    }
}

fn v2_page(n: i32, nulls: i32, encoding: i32, def_len: i32, section: Vec<u8>) -> Page {
    Page {
        header: Datum::Struct(vec![
            (1, Datum::I32(3)),
            (2, Datum::I32(section.len() as i32)),
            (3, Datum::I32(section.len() as i32)),
            (
                8,
                Datum::Struct(vec![
                    (1, Datum::I32(n)),
                    (2, Datum::I32(nulls)),
                    (3, Datum::I32(n)),
                    (4, Datum::I32(encoding)),
                    (5, Datum::I32(def_len)),
                    (6, Datum::I32(0)),
                    (7, Datum::Truth(false)),
                ]),
            ),
        ]),
        section,
    }
}

fn page_form(p: &Page) -> Vec<u8> {
    let mut out = form(&p.header);
    out.extend_from_slice(&p.section);
    out
}

struct Column {
    name: Vec<u8>,
    ptype: i32,
    optional: bool,
}

struct Part {
    codec: i32,
    dict: Option<Page>,
    pages: Vec<Page>,
    values: i64,
}

fn column(name: &str, ptype: i32, optional: bool) -> Column {
    Column { name: name.as_bytes().to_vec(), ptype, optional }
}

fn part(pages: Vec<Page>, values: i64) -> Part {
    Part { codec: 0, dict: None, pages, values }
}

fn file_form(columns: &[Column], groups: &[Vec<Part>]) -> Vec<u8> {
    let mut file = b"PAR1".to_vec();
    let mut group_records = Vec::new();
    let mut total = 0;
    for parts in groups {
        let mut chunks = Vec::new();
        for (c, p) in columns.iter().zip(parts) {
            let at = file.len() as i64;
            if let Some(d) = &p.dict {
                file.extend_from_slice(&page_form(d));
            }
            let data = file.len() as i64;
            for page in &p.pages {
                file.extend_from_slice(&page_form(page));
            }
            let mut fields = vec![
                (1, Datum::I32(c.ptype)),
                (2, Datum::List(5, vec![Datum::I32(0), Datum::I32(3), Datum::I32(8)])),
                (3, Datum::List(8, vec![Datum::Binary(c.name.clone())])),
                (4, Datum::I32(p.codec)),
                (5, Datum::I64(p.values)),
                (9, Datum::I64(data)),
            ];
            if p.dict.is_some() {
                fields.push((11, Datum::I64(at)));
            }
            chunks.push(Datum::Struct(vec![(3, Datum::Struct(fields))]));
        }
        let rows = parts.first().map_or(0, |p| p.values);
        total += rows;
        group_records
            .push(Datum::Struct(vec![(1, Datum::List(12, chunks)), (3, Datum::I64(rows))]));
    }
    let mut schema = vec![Datum::Struct(vec![
        (4, Datum::Binary(b"schema".to_vec())),
        (5, Datum::I32(columns.len() as i32)),
    ])];
    for c in columns {
        schema.push(Datum::Struct(vec![
            (1, Datum::I32(c.ptype)),
            (3, Datum::I32(if c.optional { 1 } else { 0 })),
            (4, Datum::Binary(c.name.clone())),
        ]));
    }
    let record = form(&Datum::Struct(vec![
        (1, Datum::I32(2)),
        (2, Datum::List(12, schema)),
        (3, Datum::I64(total)),
        (4, Datum::List(12, group_records)),
    ]));
    file.extend_from_slice(&record);
    file.extend_from_slice(&(record.len() as u32).to_le_bytes());
    file.extend_from_slice(b"PAR1");
    file
}

fn int64s(values: &[i64]) -> Vec<u8> {
    values.iter().flat_map(|v| v.to_le_bytes()).collect()
}

fn strings(values: &[&str]) -> Vec<u8> {
    let mut out = Vec::new();
    for v in values {
        out.extend_from_slice(&(v.len() as u32).to_le_bytes());
        out.extend_from_slice(v.as_bytes());
    }
    out
}

fn plain_int64_page(values: &[i64]) -> Page {
    let section = int64s(values);
    v1_page(values.len() as i32, 0, section.len() as i32, section)
}

fn bytes(s: &str) -> PqValue {
    PqValue::Bytes(s.as_bytes().to_vec())
}

/// Columns `id`, `tag` and `note`, in two row groups of three rows and of two.
fn sample() -> Vec<u8> {
    let columns = [column("id", 2, false), column("tag", 6, false), column("note", 2, true)];
    let dictionary = strings(&["red", "blue"]);
    let mut note: Vec<u8> = vec![2, 0, 0, 0, 0x03, 0b101];
    note.extend_from_slice(&int64s(&[-1, -3]));
    let groups = vec![
        vec![
            part(vec![plain_int64_page(&[1, 2]), plain_int64_page(&[3])], 3),
            Part {
                codec: 0,
                dict: Some(dict_page(2, dictionary)),
                pages: vec![v1_page(3, 8, 3, vec![1, 0x03, 0b010])],
                values: 3,
            },
            part(vec![v1_page(3, 0, note.len() as i32, note)], 3),
        ],
        vec![
            part(vec![plain_int64_page(&[i64::MIN, i64::MAX])], 2),
            part(vec![v1_page(2, 0, 14, strings(&["x", "green"]))], 2),
            part(vec![v2_page(2, 1, 0, 2, {
                let mut s = vec![0x03, 0b10];
                s.extend_from_slice(&int64s(&[9]));
                s
            })], 2),
        ],
    ];
    file_form(&columns, &groups)
}

#[test]
fn a_table_is_read_as_it_was_written() {
    let file = sample();
    let rows = extract(&file, &["id", "tag", "note"]).unwrap();
    assert_eq!(
        rows,
        vec![
            vec![PqValue::I64(1), bytes("red"), PqValue::I64(-1)],
            vec![PqValue::I64(2), bytes("blue"), PqValue::Null],
            vec![PqValue::I64(3), bytes("red"), PqValue::I64(-3)],
            vec![PqValue::I64(i64::MIN), bytes("x"), PqValue::Null],
            vec![PqValue::I64(i64::MAX), bytes("green"), PqValue::I64(9)],
        ]
    );
}

#[test]
fn columns_come_in_the_order_they_are_wanted() {
    let file = sample();
    let whole = extract(&file, &["id", "tag", "note"]).unwrap();
    let turned = extract(&file, &["note", "id", "note"]).unwrap();
    assert_eq!(turned.len(), whole.len());
    for (a, b) in whole.iter().zip(&turned) {
        assert_eq!(b, &vec![a[2].clone(), a[0].clone(), a[2].clone()]);
    }
}

#[test]
fn every_row_is_as_wide_as_what_is_wanted() {
    let file = sample();
    for row in extract(&file, &["tag"]).unwrap() {
        assert_eq!(row.len(), 1);
    }
    assert_eq!(extract(&file, &[]).unwrap(), Vec::<Vec<PqValue>>::new());
}

#[test]
fn an_unknown_column_is_named() {
    let e = extract(&sample(), &["id", "colour"]).unwrap_err();
    assert_eq!(e, PqError::Bad("column `colour` not found in Parquet schema".to_string()));
    assert_eq!(e.line(), "parquet: column `colour` not found in Parquet schema");
}

#[test]
fn a_name_that_is_not_utf8_is_read_with_replacement_characters() {
    let columns = [Column { name: vec![b'n', 0xff, b'm'], ptype: 2, optional: false }];
    let file = file_form(&columns, &[vec![part(vec![plain_int64_page(&[5])], 1)]]);
    assert_eq!(extract(&file, &["n\u{fffd}m"]).unwrap(), vec![vec![PqValue::I64(5)]]);
    let columns = [column("größe", 2, false)];
    let file = file_form(&columns, &[vec![part(vec![plain_int64_page(&[6])], 1)]]);
    assert_eq!(extract(&file, &["größe"]).unwrap(), vec![vec![PqValue::I64(6)]]);
}

#[test]
fn a_larger_cap_gives_the_same_rows() {
    let columns = [column("id", 2, false)];
    let file = file_form(&columns, &[vec![part(vec![plain_int64_page(&[1, 2])], 2)]]);
    let rows = extract_with_cap(&file, &["id"], 16).unwrap();
    assert_eq!(rows, vec![vec![PqValue::I64(1)], vec![PqValue::I64(2)]]);
    assert_eq!(extract_with_cap(&file, &["id"], 17).unwrap(), rows);
    assert_eq!(extract_with_cap(&file, &["id"], DEFAULT_MAX_PAGE_SIZE).unwrap(), rows);
}

#[test]
fn a_page_above_the_cap_is_refused_in_words() {
    let columns = [column("id", 2, false)];
    let file = file_form(&columns, &[vec![part(vec![plain_int64_page(&[1, 2])], 2)]]);
    let e = extract_with_cap(&file, &["id"], 15).unwrap_err();
    assert_eq!(
        e,
        PqError::Unsupported(
            "v1 page compressed size 16 exceeds max_page_size cap 15: \
             SP151 (raise via kessel_parquet::extract_with_cap)"
                .to_string()
        )
    );
    assert_eq!(
        e.line(),
        "parquet unsupported: v1 page compressed size 16 exceeds max_page_size cap 15: \
         SP151 (raise via kessel_parquet::extract_with_cap)"
    );
}

#[test]
fn under_a_cap_of_zero_no_row_comes_out() {
    let columns = [column("id", 2, false)];
    let file = file_form(&columns, &[vec![part(vec![plain_int64_page(&[1])], 1)]]);
    assert!(extract_with_cap(&file, &["id"], 0).is_err());
    let empty = file_form(&columns, &[vec![part(vec![plain_int64_page(&[])], 0)]]);
    assert_eq!(extract_with_cap(&empty, &["id"], 0).unwrap(), Vec::<Vec<PqValue>>::new());
}

#[test]
fn each_codec_expands_to_the_same_rows() {
    let columns = [column("id", 2, false)];
    let raw = int64s(&[7, 7, -2]);
    let mut snappy = vec![24];
    snappy.push(23 * 4);
    snappy.extend_from_slice(&raw);
    let mut lz4 = vec![0xf0, 24 - 15];
    lz4.extend_from_slice(&raw);
    let mut zstd = vec![0x28, 0xb5, 0x2f, 0xfd, 0x20, 24];
    zstd.extend_from_slice(&[1 + (24 << 3), 0, 0]);
    zstd.extend_from_slice(&raw);
    for (codec, section) in [(0, raw.clone()), (1, snappy), (6, zstd), (7, lz4)] {
        let p = Part {
            codec,
            dict: None,
            pages: vec![v1_page(3, 0, 24, section)],
            values: 3,
        };
        let file = file_form(&columns, &[vec![p]]);
        assert_eq!(
            extract(&file, &["id"]).unwrap(),
            vec![vec![PqValue::I64(7)], vec![PqValue::I64(7)], vec![PqValue::I64(-2)]],
            "codec {codec}"
        );
    }
}

#[test]
fn columns_of_different_lengths_make_no_rows() {
    let columns = [column("a", 2, false), column("b", 2, false)];
    let file = file_form(
        &columns,
        &[vec![
            part(vec![plain_int64_page(&[1, 2])], 2),
            part(vec![plain_int64_page(&[3])], 1),
        ]],
    );
    assert_eq!(
        extract(&file, &["a", "b"]).unwrap_err(),
        PqError::Bad("column length mismatch".to_string())
    );
    assert_eq!(extract(&file, &["b"]).unwrap(), vec![vec![PqValue::I64(3)]]);
}

#[test]
fn the_frame_of_a_file_is_checked() {
    let file = sample();
    let said = |f: &[u8]| match extract(f, &["id"]).unwrap_err() {
        PqError::Bad(m) => m,
        PqError::Unsupported(m) => panic!("{m}"),
    };
    assert_eq!(said(&file[..11]), "file too short");
    let mut head = file.clone();
    head[0] = b'Q';
    assert_eq!(said(&head), "leading magic");
    let mut tail = file.clone();
    let n = tail.len();
    tail[n - 1] = b'2';
    assert_eq!(said(&tail), "trailing magic");
    let mut length = file.clone();
    length[n - 8..n - 4].copy_from_slice(&u32::MAX.to_le_bytes());
    assert_eq!(said(&length), "metadata length exceeds file");
}

#[test]
fn page_header_fields_may_come_in_any_order_among_others() {
    let plain = Datum::Struct(vec![
        (1, Datum::I32(0)),
        (2, Datum::I32(160)),
        (3, Datum::I32(40)),
        (5, Datum::Struct(vec![(1, Datum::I32(20)), (2, Datum::I32(8))])),
    ]);
    let turned = Datum::Struct(vec![
        (
            5,
            Datum::Struct(vec![
                (9, Datum::Double(77)),
                (2, Datum::I32(8)),
                (6, Datum::List(12, vec![Datum::Struct(vec![(1, Datum::Truth(true))])])),
                (1, Datum::I32(20)),
            ]),
        ),
        (300, Datum::Binary(b"aside".to_vec())),
        (3, Datum::I32(40)),
        (4, Datum::List(6, (0..20).map(Datum::I64).collect())),
        (2, Datum::I32(160)),
        (1, Datum::I32(0)),
    ]);
    let (a, a_len) = decode_page_header(&form(&plain)).unwrap();
    let mut b_bytes = form(&turned);
    let b_end = b_bytes.len();
    b_bytes.extend_from_slice(&[0xff; 9]);
    let (b, b_len) = decode_page_header(&b_bytes).unwrap();
    assert_eq!(a_len, form(&plain).len());
    assert_eq!(b_len, b_end);
    for h in [a, b] {
        assert_eq!(h.page_type, 0);
        assert_eq!(h.uncompressed_size, 160);
        assert_eq!(h.compressed_size, 40);
        assert_eq!(h.dp_num_values, 20);
        assert_eq!(h.dp_encoding, 8);
        assert_eq!(h.dict_num_values, 0);
        assert!(h.v2_is_compressed);
    }
}

#[test]
fn metadata_fields_without_a_meaning_are_passed_over() {
    let element = |fields: Vec<(i16, Datum)>| Datum::Struct(fields);
    let record = Datum::Struct(vec![
        (7, Datum::Struct(vec![(1, Datum::Struct(vec![])), (2, Datum::Truth(false))])),
        (3, Datum::I64(12)),
        (
            2,
            Datum::List(
                12,
                vec![
                    element(vec![(5, Datum::I32(2)), (4, Datum::Binary(b"root".to_vec()))]),
                    element(vec![
                        (4, Datum::Binary(b"b".to_vec())),
                        (9, Datum::I32(99)),
                        (1, Datum::I32(6)),
                    ]),
                    element(vec![
                        (1, Datum::I32(1)),
                        (3, Datum::I32(1)),
                        (4, Datum::Binary(b"a".to_vec())),
                    ]),
                ],
            ),
        ),
        (1, Datum::I32(1)),
        (4, Datum::List(12, vec![])),
    ]);
    let mut b = form(&record);
    b.extend_from_slice(b"anything");
    let md = FileMetaData::decode(&b).unwrap();
    assert_eq!(md.version, 1);
    assert_eq!(md.num_rows, 12);
    assert!(md.flat_schema);
    assert!(md.row_groups.is_empty());
    let names: Vec<&str> = md.leaves.iter().map(|l| l.name.as_str()).collect();
    assert_eq!(names, ["b", "a"]);
}

#[test]
fn to_skip_a_value_is_to_pass_over_its_bytes() {
    let values = [
        Datum::Truth(true),
        Datum::I32(-1),
        Datum::I64(i64::MIN),
        Datum::Double(1),
        Datum::Binary(vec![0xff; 200]),
        Datum::List(5, (0..16).map(Datum::I32).collect()),
        Datum::Struct(vec![
            (1, Datum::List(12, vec![Datum::Struct(vec![(40, Datum::I32(1))])])),
            (-5, Datum::Truth(false)),
        ]),
    ];
    for d in values {
        let mut b = form(&d);
        let end = b.len();
        b.extend_from_slice(&[0x15, 0x02]);
        let mut s = StructReader::new(&b);
        s.skip(code(&d)).unwrap();
        assert_eq!(s.reader_pos(), end);
    }
    let mut s = StructReader::new(&[1, 2]);
    assert!(s.skip(11).is_err());
}

#[test]
fn a_list_column_gives_its_lists_back() {
    // Optional lists of optional numbers: [7, null], absent, [], [9].
    // Repetition levels 0, 1, 0, 0, 0, one bit each, least significant first.
    let mut section: Vec<u8> = vec![2, 0, 0, 0, 0x03, 0b00010];
    // Definition levels 3, 2, 0, 1, 3, two bits each.
    section.extend_from_slice(&[3, 0, 0, 0, 0x03, 0b01_00_10_11, 0b11]);
    section.extend_from_slice(&int64s(&[7, 9]));
    let page = v1_page(5, 0, section.len() as i32, section);
    let mut file = b"PAR1".to_vec();
    file.extend_from_slice(&page_form(&page));
    let chunk = Datum::Struct(vec![(
        3,
        Datum::Struct(vec![
            (1, Datum::I32(2)),
            (2, Datum::List(5, vec![Datum::I32(0)])),
            (
                3,
                Datum::List(
                    8,
                    ["xs", "list", "element"]
                        .iter()
                        .map(|s| Datum::Binary(s.as_bytes().to_vec()))
                        .collect(),
                ),
            ),
            (4, Datum::I32(0)),
            (5, Datum::I64(5)),
            (9, Datum::I64(4)),
        ]),
    )]);
    let name = |s: &str| (4, Datum::Binary(s.as_bytes().to_vec()));
    let record = form(&Datum::Struct(vec![
        (1, Datum::I32(2)),
        (
            2,
            Datum::List(
                12,
                vec![
                    Datum::Struct(vec![name("schema"), (5, Datum::I32(1))]),
                    Datum::Struct(vec![
                        (3, Datum::I32(1)),
                        name("xs"),
                        (5, Datum::I32(1)),
                        (6, Datum::I32(3)),
                    ]),
                    Datum::Struct(vec![(3, Datum::I32(2)), name("list"), (5, Datum::I32(1))]),
                    Datum::Struct(vec![(1, Datum::I32(2)), (3, Datum::I32(1)), name("element")]),
                ],
            ),
        ),
        (3, Datum::I64(4)),
        (
            4,
            Datum::List(
                12,
                vec![Datum::Struct(vec![(1, Datum::List(12, vec![chunk])), (3, Datum::I64(4))])],
            ),
        ),
    ]));
    file.extend_from_slice(&record);
    file.extend_from_slice(&(record.len() as u32).to_le_bytes());
    file.extend_from_slice(b"PAR1");
    assert_eq!(
        extract(&file, &["xs"]).unwrap(),
        vec![
            vec![PqValue::List(vec![PqValue::I64(7), PqValue::Null])],
            vec![PqValue::Null],
            vec![PqValue::List(vec![])],
            vec![PqValue::List(vec![PqValue::I64(9)])],
        ]
    );
}

#[test]
fn a_missing_chunk_is_named_by_its_path() {
    let name = |s: &str| (4, Datum::Binary(s.as_bytes().to_vec()));
    let record = form(&Datum::Struct(vec![
        (1, Datum::I32(2)),
        (
            2,
            Datum::List(
                12,
                vec![
                    Datum::Struct(vec![name("schema"), (5, Datum::I32(1))]),
                    Datum::Struct(vec![
                        (3, Datum::I32(1)),
                        name("x\"s"),
                        (5, Datum::I32(1)),
                        (6, Datum::I32(3)),
                    ]),
                    Datum::Struct(vec![(3, Datum::I32(2)), name("list"), (5, Datum::I32(1))]),
                    Datum::Struct(vec![(1, Datum::I32(2)), (3, Datum::I32(1)), name("element")]),
                ],
            ),
        ),
        (3, Datum::I64(1)),
        (
            4,
            Datum::List(
                12,
                vec![Datum::Struct(vec![(1, Datum::List(12, vec![])), (3, Datum::I64(1))])],
            ),
        ),
    ]));
    let mut file = b"PAR1".to_vec();
    file.extend_from_slice(&record);
    file.extend_from_slice(&(record.len() as u32).to_le_bytes());
    file.extend_from_slice(b"PAR1");
    assert_eq!(
        extract(&file, &["x\"s"]).unwrap_err(),
        PqError::Bad(
            "row group missing column for path [\"x\\\"s\", \"list\", \"element\"]".to_string()
        )
    );
}

/// Up to eight levels of `width` bits, with their length before them.
fn levels(width: usize, values: &[u64]) -> Vec<u8> {
    let mut n: u64 = 0;
    for (i, v) in values.iter().enumerate() {
        n |= v << (i * width);
    }
    let mut out = vec![1 + width as u8, 0, 0, 0, 0x03];
    out.extend_from_slice(&n.to_le_bytes()[..width]);
    out
}

fn leveled_page(n: i32, parts: &[Vec<u8>], values: &[i64]) -> Page {
    let mut section: Vec<u8> = parts.concat();
    section.extend_from_slice(&int64s(values));
    v1_page(n, 0, section.len() as i32, section)
}

fn group(name: &str, repetition: i32, children: i32, converted: Option<i32>) -> Datum {
    let mut fields = vec![
        (3, Datum::I32(repetition)),
        (4, Datum::Binary(name.as_bytes().to_vec())),
        (5, Datum::I32(children)),
    ];
    if let Some(c) = converted {
        fields.push((6, Datum::I32(c)));
    }
    Datum::Struct(fields)
}

fn leaf(name: &str, repetition: i32) -> Datum {
    Datum::Struct(vec![
        (1, Datum::I32(2)),
        (3, Datum::I32(repetition)),
        (4, Datum::Binary(name.as_bytes().to_vec())),
    ])
}

/// A file of one row group, with a chunk of 64-bit integers in one page for each path.
fn nested_file(elements: Vec<Datum>, chunks: Vec<(&str, i64, Page)>) -> Vec<u8> {
    let mut file = b"PAR1".to_vec();
    let mut columns = Vec::new();
    for (path, values, page) in chunks {
        let at = file.len() as i64;
        file.extend_from_slice(&page_form(&page));
        let names = path.split('.').map(|s| Datum::Binary(s.as_bytes().to_vec())).collect();
        columns.push(Datum::Struct(vec![(
            3,
            Datum::Struct(vec![
                (1, Datum::I32(2)),
                (2, Datum::List(5, vec![Datum::I32(0), Datum::I32(3)])),
                (3, Datum::List(8, names)),
                (4, Datum::I32(0)),
                (5, Datum::I64(values)),
                (9, Datum::I64(at)),
            ]),
        )]));
    }
    let record = form(&Datum::Struct(vec![
        (1, Datum::I32(2)),
        (2, Datum::List(12, elements)),
        (3, Datum::I64(1)),
        (
            4,
            Datum::List(
                12,
                vec![Datum::Struct(vec![(1, Datum::List(12, columns)), (3, Datum::I64(1))])],
            ),
        ),
    ]));
    file.extend_from_slice(&record);
    file.extend_from_slice(&(record.len() as u32).to_le_bytes());
    file.extend_from_slice(b"PAR1");
    file
}

#[test]
fn a_map_of_maps_keeps_the_keys_of_null_values() {
    // {1: {10: 5, 11: null}, 2: {}}
    let elements = vec![
        group("schema", 0, 1, None),
        group("m", 0, 1, Some(1)),
        group("kv", 2, 2, None),
        leaf("key", 0),
        group("value", 0, 1, Some(1)),
        group("kv", 2, 2, None),
        leaf("key", 0),
        leaf("item", 1),
    ];
    let chunks = vec![
        ("m.kv.key", 2, leveled_page(2, &[levels(1, &[0, 1]), levels(1, &[1, 1])], &[1, 2])),
        (
            "m.kv.value.kv.key",
            3,
            leveled_page(3, &[levels(2, &[0, 2, 1]), levels(2, &[2, 2, 1])], &[10, 11]),
        ),
        (
            "m.kv.value.kv.item",
            3,
            leveled_page(3, &[levels(2, &[0, 2, 1]), levels(2, &[3, 2, 1])], &[5]),
        ),
    ];
    let pair = |k: i64, v: PqValue| (PqValue::I64(k), v);
    assert_eq!(
        extract(&nested_file(elements, chunks), &["m"]).unwrap(),
        vec![vec![PqValue::MapKv(vec![
            pair(1, PqValue::MapKv(vec![pair(10, PqValue::I64(5)), pair(11, PqValue::Null)])),
            pair(2, PqValue::MapKv(vec![])),
        ])]]
    );
}

fn ab(a: PqValue, b: i64) -> PqValue {
    PqValue::Struct(vec![("a".to_string(), a), ("b".to_string(), PqValue::I64(b))])
}

#[test]
fn an_optional_field_of_an_optional_struct_may_be_null() {
    // {a: 7, b: 1}, {a: null, b: 2}, absent
    let elements =
        || vec![group("schema", 0, 1, None), group("s", 1, 2, None), leaf("a", 1), leaf("b", 0)];
    let b = || leveled_page(3, &[levels(1, &[1, 1, 0])], &[1, 2]);
    let want = vec![
        vec![ab(PqValue::I64(7), 1)],
        vec![ab(PqValue::Null, 2)],
        vec![PqValue::Null],
    ];
    let first = leveled_page(3, &[levels(2, &[2, 1, 0])], &[7]);
    let file = nested_file(elements(), vec![("s.a", 3, first), ("s.b", 3, b())]);
    assert_eq!(extract(&file, &["s"]).unwrap(), want);
    let mut section = vec![0x03, 0b00_01_10, 0];
    section.extend_from_slice(&int64s(&[7]));
    let second = v2_page(3, 2, 0, 3, section);
    let file = nested_file(elements(), vec![("s.a", 3, second), ("s.b", 3, b())]);
    assert_eq!(extract(&file, &["s"]).unwrap(), want);
    let above = leveled_page(3, &[levels(2, &[3, 1, 0])], &[7]);
    let file = nested_file(elements(), vec![("s.a", 3, above), ("s.b", 3, b())]);
    assert_eq!(
        extract(&file, &["s"]).unwrap_err(),
        PqError::Bad("definition level exceeds max".to_string())
    );
}

#[test]
fn an_optional_field_of_a_struct_in_a_list_may_be_null() {
    // [{a: 7, b: 1}, {a: null, b: 2}], []
    let elements = vec![
        group("schema", 0, 1, None),
        group("xs", 0, 1, Some(3)),
        group("list", 2, 1, None),
        group("element", 0, 2, None),
        leaf("a", 1),
        leaf("b", 0),
    ];
    let reps = levels(1, &[0, 1, 0]);
    let chunks = vec![
        (
            "xs.list.element.a",
            3,
            leveled_page(3, &[reps.clone(), levels(2, &[2, 1, 0])], &[7]),
        ),
        (
            "xs.list.element.b",
            3,
            leveled_page(3, &[reps.clone(), levels(1, &[1, 1, 0])], &[1, 2]),
        ),
    ];
    assert_eq!(
        extract(&nested_file(elements, chunks), &["xs"]).unwrap(),
        vec![
            vec![PqValue::List(vec![ab(PqValue::I64(7), 1), ab(PqValue::Null, 2)])],
            vec![PqValue::List(vec![])],
        ]
    );
}

#[test]
fn an_optional_field_of_a_struct_in_a_map_may_be_null() {
    // {10: {a: null, b: 1}, 11: {a: 7, b: 2}}
    let elements = vec![
        group("schema", 0, 1, None),
        group("m", 0, 1, Some(1)),
        group("kv", 2, 2, None),
        leaf("key", 0),
        group("value", 0, 2, None),
        leaf("a", 1),
        leaf("b", 0),
    ];
    let reps = levels(1, &[0, 1]);
    let ones = levels(1, &[1, 1]);
    let chunks = vec![
        ("m.kv.key", 2, leveled_page(2, &[reps.clone(), ones.clone()], &[10, 11])),
        ("m.kv.value.a", 2, leveled_page(2, &[reps.clone(), levels(2, &[1, 2])], &[7])),
        ("m.kv.value.b", 2, leveled_page(2, &[reps.clone(), ones.clone()], &[1, 2])),
    ];
    assert_eq!(
        extract(&nested_file(elements, chunks), &["m"]).unwrap(),
        vec![vec![PqValue::MapKv(vec![
            (PqValue::I64(10), ab(PqValue::Null, 1)),
            (PqValue::I64(11), ab(PqValue::I64(7), 2)),
        ])]]
    );
}

fn ab_of(a: i64, b: PqValue) -> PqValue {
    PqValue::Struct(vec![("a".to_string(), PqValue::I64(a)), ("b".to_string(), b)])
}

#[test]
fn a_list_inside_an_optional_struct_is_told_from_its_absence() {
    // {a: 1, b: [7, null]}, {a: 2, b: null}, {a: 3, b: []}, absent
    let elements = vec![
        group("schema", 0, 1, None),
        group("s", 1, 2, None),
        leaf("a", 0),
        group("b", 1, 1, Some(3)),
        group("list", 2, 1, None),
        leaf("element", 1),
    ];
    let reps = levels(1, &[0, 1, 0, 0, 0]);
    let defs = levels(3, &[4, 3, 1, 2, 0]);
    let chunks = vec![
        ("s.a", 4, leveled_page(4, &[levels(1, &[1, 1, 1, 0])], &[1, 2, 3])),
        ("s.b.list.element", 5, leveled_page(5, &[reps, defs], &[7])),
    ];
    assert_eq!(
        extract(&nested_file(elements, chunks), &["s"]).unwrap(),
        vec![
            vec![ab_of(1, PqValue::List(vec![PqValue::I64(7), PqValue::Null]))],
            vec![ab_of(2, PqValue::Null)],
            vec![ab_of(3, PqValue::List(vec![]))],
            vec![PqValue::Null],
        ]
    );
}

#[test]
fn an_element_of_a_list_of_structs_counts_its_level_from_the_list() {
    let plan = |list: i32, outer: i32| {
        let elements = vec![
            group("schema", 0, 1, None),
            group("s", outer, 1, None),
            group("b", list, 1, Some(3)),
            group("list", 2, 1, None),
            group("element", 0, 1, None),
            leaf("c", 1),
        ];
        let record = form(&Datum::Struct(vec![(2, Datum::List(12, elements))]));
        let md = FileMetaData::decode(&record).unwrap();
        classify_column_plan(&md.schema_tree.root, "s", &md.leaves).unwrap()
    };
    for (list, outer, level) in [(0, 0, 1), (1, 0, 2), (0, 1, 1), (1, 1, 2)] {
        match plan(list, outer).kind {
            ColumnKind::NestedStruct { fields, .. } => match fields[0].nested.as_deref() {
                Some(ColumnKind::NestedListOfStruct { list_max_def_level, .. }) => {
                    assert_eq!(*list_max_def_level, level)
                }
                _ => panic!("{list} {outer}"),
            },
            _ => panic!("{list} {outer}"),
        }
    }
}

#[test]
fn a_list_of_optional_structs_gives_the_structs_that_are_there() {
    // [{a: 7}], [], with an element that may be null
    let elements = vec![
        group("schema", 0, 1, None),
        group("xs", 0, 1, Some(3)),
        group("list", 2, 1, None),
        group("element", 1, 1, None),
        leaf("a", 0),
    ];
    let chunks = vec![(
        "xs.list.element.a",
        2,
        leveled_page(2, &[levels(1, &[0, 0]), levels(2, &[2, 0])], &[7]),
    )];
    assert_eq!(
        extract(&nested_file(elements, chunks), &["xs"]).unwrap(),
        vec![
            vec![PqValue::List(vec![PqValue::Struct(vec![("a".to_string(), PqValue::I64(7))])])],
            vec![PqValue::List(vec![])],
        ]
    );
}

#[test]
fn a_schema_may_be_nested_deeply() {
    let depth = 2000;
    let mut elements = vec![group("schema", 0, 1, None)];
    for i in 1..depth {
        elements.push(group("g", i % 3, 1, None));
    }
    elements.push(leaf("x", 1));
    let record = form(&Datum::Struct(vec![(2, Datum::List(12, elements))]));
    let md = FileMetaData::decode(&record).unwrap();
    assert_eq!(md.clone().leaves.len(), 1);
    assert!(!md.flat_schema);
    let mut node = &md.schema_tree.root;
    let mut above = 0;
    while let SchemaNode::Group { children, .. } = node {
        assert_eq!(children.len(), 1);
        node = &children[0];
        above += 1;
    }
    assert_eq!(above, depth);
    match node {
        SchemaNode::Leaf { name, max_def_level, max_rep_level, path, .. } => {
            assert_eq!(name, "x");
            assert_eq!(*max_def_level, 667 + 666 + 1);
            assert_eq!(*max_rep_level, 666);
            assert_eq!(path.len(), 2001);
        }
        SchemaNode::Group { .. } => panic!("a group"),
    }
}

#[test]
fn a_schema_may_miscount_its_children() {
    let page = |values: &[i64]| leveled_page(2, &[], values);
    let rows = |values: &[i64]| values.iter().map(|v| vec![PqValue::I64(*v)]).collect::<Vec<_>>();
    // More children are announced than there are, fewer than there are, and no root at all.
    for elements in [
        vec![group("schema", 0, 5, None), leaf("x", 0), leaf("y", 0)],
        vec![group("schema", 0, 1, None), leaf("x", 0), leaf("y", 0)],
        vec![leaf("x", 0), leaf("y", 0)],
    ] {
        let file = nested_file(elements, vec![("x", 2, page(&[7, 8])), ("y", 2, page(&[3, 4]))]);
        assert_eq!(extract(&file, &["x"]).unwrap(), rows(&[7, 8]));
        assert_eq!(extract(&file, &["y"]).unwrap(), rows(&[3, 4]));
    }
    // A group inside the list takes what is there; what it does not take stands beside it.
    for (count, fields) in [(9, vec!["a", "b"]), (1, vec!["a"])] {
        let elements =
            vec![group("schema", 0, 1, None), group("s", 0, count, None), leaf("a", 0), leaf("b", 0)];
        let record = form(&Datum::Struct(vec![(2, Datum::List(12, elements))]));
        let md = FileMetaData::decode(&record).unwrap();
        assert_eq!(md.leaves.len(), 2);
        match &md.schema_tree.root {
            SchemaNode::Group { children, .. } => {
                assert_eq!(children.len(), 3 - fields.len());
                match &children[0] {
                    SchemaNode::Group { children, .. } => {
                        assert_eq!(children.len(), fields.len())
                    }
                    SchemaNode::Leaf { .. } => panic!("a leaf"),
                }
            }
            SchemaNode::Leaf { .. } => panic!("a leaf"),
        }
    }
}

#[test]
fn deep_values_are_skipped_without_a_deep_stack() {
    let mut b = vec![0x19; 10_000_000];
    let mut s = StructReader::new(&b);
    assert!(s.skip(9).is_err());
    b.push(0x09);
    let mut s = StructReader::new(&b);
    s.skip(9).unwrap();
    assert_eq!(s.reader_pos(), 10_000_001);
    let mut structs = vec![0x1c; 1_000_000];
    structs.resize(2_000_001, 0);
    let mut s = StructReader::new(&structs);
    s.skip(12).unwrap();
    assert_eq!(s.reader_pos(), 2_000_001);
    let truths = [0xf1, 0xff, 0xff, 0xff, 0xff, 0xff, 0xff, 0xff, 0xff, 0xff, 0x01, 0x77];
    let mut s = StructReader::new(&truths);
    s.skip(9).unwrap();
    assert_eq!(s.reader_pos(), 11);
}

#[test]
fn a_page_header_depends_on_its_own_bytes_alone() {
    let h = form(&v2_page(9, 1, 8, 4, vec![0; 30]).header);
    let (whole, n) = decode_page_header(&h).unwrap();
    assert_eq!(n, h.len());
    for m in 0..n {
        assert!(matches!(decode_page_header(&h[..m]), Err(PqError::Bad(_))), "{m}");
    }
    let mut more = h.clone();
    more.extend_from_slice(&[0x15, 0x15, 0xff]);
    let (same, k) = decode_page_header(&more).unwrap();
    assert_eq!(k, n);
    assert_eq!(format!("{same:?}"), format!("{whole:?}"));
}
