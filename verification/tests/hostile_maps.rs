use kessel_parquet::classify::classify_column_plan;
use kessel_parquet::{PqError, PqValue, meta};
use kessel_parquet::assembly::{assemble_map_kv, assemble_struct};

fn caught<T>(f: impl FnOnce() -> T) -> Result<T, String> {
    Ok(f())
}

fn assert_well_behaved_err<F, T>(name: &str, f: F)
where
    F: FnOnce() -> Result<T, PqError> + Sized,
{
    let r = caught(f);
    match r {
        Ok(Ok(_)) => panic!("{name}: expected Err, got Ok"),
        Ok(Err(_)) => {  }
        Err(_) => panic!("{name}: PANICKED on adversarial input"),
    }
}

#[test]
fn sp144_pt1_map_rep_def_length_mismatch() {
    assert_well_behaved_err("map rep/def len mismatch", || {
        assemble_map_kv(
            &[0u32, 1, 0],
            &[1u32, 1],
            &[PqValue::Bytes(b"a".to_vec())],
            &[PqValue::I64(1)],
            1,
            false,
            false,
        )
    });
}

#[test]
fn sp144_pt2_map_key_stream_truncated() {
    assert_well_behaved_err("map key truncated", || {
        assemble_map_kv(
            &[0u32, 1],
            &[1u32, 1],
            &[],
            &[PqValue::I64(1), PqValue::I64(2)],
            1,
            false,
            false,
        )
    });
}

#[test]
fn sp144_pt3_map_value_stream_truncated() {
    assert_well_behaved_err("map value truncated", || {
        assemble_map_kv(
            &[0u32, 1],
            &[1u32, 1],
            &[PqValue::Bytes(b"a".to_vec()), PqValue::Bytes(b"b".to_vec())],
            &[],
            1,
            false,
            false,
        )
    });
}

#[test]
fn sp144_pt4_map_keys_unconsumed_overflow() {
    assert_well_behaved_err("map keys overflow", || {
        assemble_map_kv(
            &[0u32],
            &[1u32],
            &[PqValue::Bytes(b"a".to_vec()), PqValue::Bytes(b"b".to_vec())],
            &[PqValue::I64(1)],
            1,
            false,
            false,
        )
    });
}

#[test]
fn sp144_pt5_map_rep_level_overflow() {
    assert_well_behaved_err("map rep overflow", || {
        assemble_map_kv(
            &[0u32, 2],
            &[1u32, 1],
            &[PqValue::Bytes(b"a".to_vec()), PqValue::Bytes(b"b".to_vec())],
            &[PqValue::I64(1), PqValue::I64(2)],
            1,
            false,
            false,
        )
    });
}

#[test]
fn sp144_pt6_map_def_level_overflow() {
    assert_well_behaved_err("map def overflow", || {
        assemble_map_kv(
            &[0u32],
            &[5u32],
            &[PqValue::Bytes(b"a".to_vec())],
            &[PqValue::I64(1)],
            2,
            true,
            false,
        )
    });
}

#[test]
fn sp144_pt7_map_value_null_with_required_value() {
    assert_well_behaved_err("map value null with REQ value", || {
        assemble_map_kv(
            &[0u32],
            &[2u32],
            &[],
            &[],
            3,
            true,
            false,
        )
    });
}

#[test]
fn sp144_pt8_struct_names_columns_mismatch() {
    assert_well_behaved_err("struct names/cols mismatch", || {
        assemble_struct(
            &["a".to_string(), "b".to_string(), "c".to_string()],
            &[
                vec![PqValue::I64(1)],
                vec![PqValue::Bool(true)],
            ],
            false,
        )
    });
}

#[test]
fn sp144_pt9_struct_field_length_mismatch() {
    assert_well_behaved_err("struct field len mismatch", || {
        assemble_struct(
            &["a".to_string(), "b".to_string()],
            &[
                vec![PqValue::I64(1), PqValue::I64(2)],
                vec![PqValue::Bool(true)],
            ],
            false,
        )
    });
}

#[test]
fn sp144_pt10_struct_empty_fields() {
    assert_well_behaved_err("struct empty fields", || {
        assemble_struct(&[], &[], false)
    });
}

#[test]
fn sp144_pt11_map_empty_streams_with_values() {
    assert_well_behaved_err("map empty streams with values", || {
        assemble_map_kv(
            &[],
            &[],
            &[PqValue::Bytes(b"a".to_vec())],
            &[],
            1,
            false,
            false,
        )
    });
}

#[test]
fn sp144_pt12_malformed_map_one_child() {
    let root = meta::SchemaNode::Group {
        name: "root".into(),
        repetition: meta::Repetition::Required,
        children: vec![meta::SchemaNode::Group {
            name: "my_map".into(),
            repetition: meta::Repetition::Required,
            children: vec![meta::SchemaNode::Group {
                name: "key_value".into(),
                repetition: meta::Repetition::Repeated,
                children: vec![meta::SchemaNode::Leaf {
                    name: "element".into(),
                    repetition: meta::Repetition::Required,
                    ptype: meta::Type::Int64,
                    max_def_level: 1,
                    max_rep_level: 1,
                    path: vec![
                        "root".into(),
                        "my_map".into(),
                        "key_value".into(),
                        "element".into(),
                    ],
                }],
                logical_type: None,
            }],
            logical_type: Some(meta::LogicalType::MapKv),
        }],
        logical_type: None,
    };
    let result = classify_column_plan(&root, "my_map", &[]);
    match result {
        Err(PqError::Unsupported(msg))
            if msg.contains("non-canonical MAP") =>
        {
            
        }
        Err(other) => panic!(
            "pt12: expected Unsupported(non-canonical MAP), got Err({other:?})"
        ),
        Ok(_) => panic!(
            "pt12: expected Unsupported(non-canonical MAP), got Ok(_)"
        ),
    }
}

#[test]
fn sp144_pt13_map_optional_key_rejected() {
    let root = meta::SchemaNode::Group {
        name: "root".into(),
        repetition: meta::Repetition::Required,
        children: vec![meta::SchemaNode::Group {
            name: "my_map".into(),
            repetition: meta::Repetition::Required,
            children: vec![meta::SchemaNode::Group {
                name: "key_value".into(),
                repetition: meta::Repetition::Repeated,
                children: vec![
                    meta::SchemaNode::Leaf {
                        name: "key".into(),
                        repetition: meta::Repetition::Optional,
                        ptype: meta::Type::ByteArray,
                        max_def_level: 2,
                        max_rep_level: 1,
                        path: vec![
                            "root".into(),
                            "my_map".into(),
                            "key_value".into(),
                            "key".into(),
                        ],
                    },
                    meta::SchemaNode::Leaf {
                        name: "value".into(),
                        repetition: meta::Repetition::Required,
                        ptype: meta::Type::Int64,
                        max_def_level: 1,
                        max_rep_level: 1,
                        path: vec![
                            "root".into(),
                            "my_map".into(),
                            "key_value".into(),
                            "value".into(),
                        ],
                    },
                ],
                logical_type: None,
            }],
            logical_type: Some(meta::LogicalType::MapKv),
        }],
        logical_type: None,
    };
    let result = classify_column_plan(&root, "my_map", &[]);
    match result {
        Err(PqError::Bad(msg))
            if msg.contains("MAP key") && msg.contains("REQUIRED") =>
        {
            
        }
        Err(other) => panic!(
            "pt13: expected Bad(MAP key must be REQUIRED), got Err({other:?})"
        ),
        Ok(_) => panic!(
            "pt13: expected Bad(MAP key must be REQUIRED), got Ok(_)"
        ),
    }
}

#[test]
fn sp144_pt14_map_group_key_rejected() {
    let root = meta::SchemaNode::Group {
        name: "root".into(),
        repetition: meta::Repetition::Required,
        children: vec![meta::SchemaNode::Group {
            name: "my_map".into(),
            repetition: meta::Repetition::Required,
            children: vec![meta::SchemaNode::Group {
                name: "key_value".into(),
                repetition: meta::Repetition::Repeated,
                children: vec![
                    meta::SchemaNode::Group {
                        name: "key".into(),
                        repetition: meta::Repetition::Required,
                        children: vec![meta::SchemaNode::Leaf {
                            name: "inner".into(),
                            repetition: meta::Repetition::Required,
                            ptype: meta::Type::Int64,
                            max_def_level: 1,
                            max_rep_level: 1,
                            path: vec![
                                "root".into(),
                                "my_map".into(),
                                "key_value".into(),
                                "key".into(),
                                "inner".into(),
                            ],
                        }],
                        logical_type: None,
                    },
                    meta::SchemaNode::Leaf {
                        name: "value".into(),
                        repetition: meta::Repetition::Required,
                        ptype: meta::Type::Int64,
                        max_def_level: 1,
                        max_rep_level: 1,
                        path: vec![
                            "root".into(),
                            "my_map".into(),
                            "key_value".into(),
                            "value".into(),
                        ],
                    },
                ],
                logical_type: None,
            }],
            logical_type: Some(meta::LogicalType::MapKv),
        }],
        logical_type: None,
    };
    let result = classify_column_plan(&root, "my_map", &[]);
    match result {
        Err(PqError::Unsupported(msg)) if msg.contains("SP145") => {
            
        }
        Err(other) => panic!(
            "pt14: expected Unsupported(SP145), got Err({other:?})"
        ),
        Ok(_) => panic!(
            "pt14: expected Unsupported(SP145), got Ok(_)"
        ),
    }
}

#[test]
fn sp145_pt_struct_with_nested_list_accepted_classifies_until_leaf_lookup() {
    let root = meta::SchemaNode::Group {
        name: "root".into(),
        repetition: meta::Repetition::Required,
        children: vec![meta::SchemaNode::Group {
            name: "my_struct".into(),
            repetition: meta::Repetition::Required,
            children: vec![
                meta::SchemaNode::Group {
                    name: "tags".into(),
                    repetition: meta::Repetition::Required,
                    children: vec![meta::SchemaNode::Group {
                        name: "list".into(),
                        repetition: meta::Repetition::Repeated,
                        children: vec![meta::SchemaNode::Leaf {
                            name: "element".into(),
                            repetition: meta::Repetition::Required,
                            ptype: meta::Type::ByteArray,
                            max_def_level: 1,
                            max_rep_level: 1,
                            path: vec![
                                "root".into(),
                                "my_struct".into(),
                                "tags".into(),
                                "list".into(),
                                "element".into(),
                            ],
                        }],
                        logical_type: None,
                    }],
                    logical_type: Some(meta::LogicalType::List),
                },
                meta::SchemaNode::Leaf {
                    name: "id".into(),
                    repetition: meta::Repetition::Required,
                    ptype: meta::Type::Int64,
                    max_def_level: 0,
                    max_rep_level: 0,
                    path: vec![
                        "root".into(),
                        "my_struct".into(),
                        "id".into(),
                    ],
                },
            ],
            logical_type: None,
        }],
        logical_type: None,
    };
    let result = classify_column_plan(&root, "my_struct", &[]);
    match result {
        Err(PqError::Unsupported(msg)) if msg.contains("SP145") => panic!(
            "SP145 regressed: struct<List> should classify, got Unsupported(SP145): {msg}"
        ),
        Err(PqError::Bad(msg)) if msg.contains("missing") => {  }
        Err(other) => panic!(
            "sp145_pt: expected Bad(missing) post-lift, got Err({other:?})"
        ),
        Ok(_) => panic!(
            "sp145_pt: expected Bad(missing) post-lift (empty leaves), got Ok(_)"
        ),
    }
}
