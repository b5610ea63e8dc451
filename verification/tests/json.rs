use kessel_parquet::{JsonPiece, PqValue, pqvalue_list_to_json, pqvalue_to_json};

fn joined(pieces: Vec<JsonPiece>) -> String {
    let mut s = String::new();
    for p in pieces {
        match p {
            JsonPiece::Text(t) => s.push_str(&t),
            JsonPiece::Float(b) => s.push_str(&f64::from_bits(b).to_string()),
        }
    }
    s
}

#[test]
fn list_variant_constructs_and_compares() {
    let v = PqValue::List(vec![
        PqValue::I64(1),
        PqValue::I64(2),
        PqValue::Null,
    ]);
    let v2 = v.clone();
    assert_eq!(v, v2);
}

#[test]
fn list_variant_nested_clone() {
    let v = PqValue::List(vec![
        PqValue::List(vec![PqValue::I64(1)]),
        PqValue::List(vec![PqValue::Null]),
    ]);
    assert_eq!(v.clone(), v);
}

#[test]
fn list_variant_empty() {
    let v = PqValue::List(Vec::new());
    match &v {
        PqValue::List(items) => assert!(items.is_empty()),
        _ => panic!("expected List"),
    }
}

#[test]
fn list_to_json_primitives() {
    let v = vec![
        PqValue::Null,
        PqValue::Bool(true),
        PqValue::Bool(false),
        PqValue::I64(-7),
        PqValue::I64(0),
        PqValue::I64(42),
    ];
    assert_eq!(
        joined(pqvalue_list_to_json(&v)).into_bytes(),
        br#"[null,true,false,-7,0,42]"#.to_vec()
    );
}

#[test]
fn list_to_json_bytes_escaping() {
    let v = vec![PqValue::Bytes(vec![b'a', b'"', b'b', b'\\', b'c', 0x01, 0xff])];
    let got = joined(pqvalue_list_to_json(&v)).into_bytes();
    let s = std::str::from_utf8(&got).expect("ASCII-only output");
    assert_eq!(s, "[\"a\\\"b\\\\c\\u0001\\u00ff\"]");
}

#[test]
fn list_to_json_decimal_and_timestamp() {
    let v = vec![
        PqValue::Timestamp(1_500_000_000),
        PqValue::Decimal { unscaled: -12345, scale: 2 },
    ];
    assert_eq!(
        joined(pqvalue_list_to_json(&v)).into_bytes(),
        br#"[1500000000,{"unscaled":"-12345","scale":2}]"#.to_vec()
    );
}

#[test]
fn list_to_json_nested() {
    let v = vec![
        PqValue::List(vec![PqValue::I64(1), PqValue::I64(2)]),
        PqValue::List(vec![]),
        PqValue::List(vec![PqValue::Null]),
    ];
    assert_eq!(
        joined(pqvalue_list_to_json(&v)).into_bytes(),
        br#"[[1,2],[],[null]]"#.to_vec()
    );
}

#[test]
fn list_to_json_empty() {
    let v: Vec<PqValue> = Vec::new();
    assert_eq!(joined(pqvalue_list_to_json(&v)).into_bytes(), b"[]".to_vec());
}

#[test]
fn map_variant_constructs_and_compares() {
    let v = PqValue::MapKv(vec![
        (PqValue::Bytes(b"a".to_vec()), PqValue::I64(1)),
        (PqValue::Bytes(b"b".to_vec()), PqValue::I64(2)),
    ]);
    assert_eq!(v.clone(), v);
}

#[test]
fn struct_variant_constructs_and_compares() {
    let v = PqValue::Struct(vec![
        ("id".into(), PqValue::I64(42)),
        ("name".into(), PqValue::Bytes(b"alice".to_vec())),
    ]);
    assert_eq!(v.clone(), v);
}

#[test]
fn map_json_serialization() {
    let v = PqValue::MapKv(vec![
        (PqValue::Bytes(b"x".to_vec()), PqValue::I64(10)),
        (PqValue::Bytes(b"y".to_vec()), PqValue::Null),
    ]);
    let s = joined(pqvalue_to_json(&v));
    assert_eq!(s, r#"[["x",10],["y",null]]"#);
}

#[test]
fn struct_json_serialization() {
    let v = PqValue::Struct(vec![
        ("a".into(), PqValue::I64(1)),
        ("b".into(), PqValue::Bool(true)),
        ("c".into(), PqValue::Null),
    ]);
    let s = joined(pqvalue_to_json(&v));
    assert_eq!(s, r#"{"a":1,"b":true,"c":null}"#);
}

#[test]
fn nested_list_in_struct_json() {
    let v = PqValue::Struct(vec![
        ("items".into(), PqValue::List(vec![
            PqValue::I64(1), PqValue::I64(2),
        ])),
    ]);
    let s = joined(pqvalue_to_json(&v));
    assert_eq!(s, r#"{"items":[1,2]}"#);
}
