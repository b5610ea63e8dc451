use kessel_parquet::{PqError, PqValue, meta};
use kessel_parquet::assembly::{assemble_list_of_list_of_list_primitive, assemble_list_of_list_primitive, assemble_list_of_map_kv, assemble_list_of_struct, assemble_map_of_list, assemble_map_of_map_kv, assemble_map_of_struct};
use kessel_parquet::classify::classify_column_plan;

fn caught<T>(f: impl FnOnce() -> T) -> Result<T, String> {
    Ok(f())
}

fn assert_well_behaved_err<F, T>(name: &str, f: F)
where
    F: FnOnce() -> Result<T, PqError> + Sized,
{
    let r = caught(f);
    match r {
        Ok(Ok(_)) => panic!("{name}: expected Err, got Ok"),
        Ok(Err(_)) => {  }
        Err(_) => panic!("{name}: PANICKED on adversarial input"),
    }
}

#[test]
fn sp145_pt1_lol_rep_overflow() {
    assert_well_behaved_err("lol rep overflow", || {
        assemble_list_of_list_primitive(
            &[0u32, 5],
            &[2u32, 2],
            &[PqValue::I64(1), PqValue::I64(2)],
            2, false, false, false,
        )
    });
}

#[test]
fn sp145_pt2_lol_value_underflow() {
    assert_well_behaved_err("lol value underflow", || {
        assemble_list_of_list_primitive(
            &[0u32, 2],
            &[2u32, 2],
            &[PqValue::I64(1)],
            2, false, false, false,
        )
    });
}

#[test]
fn sp145_pt3_lol_value_unconsumed_overflow() {
    assert_well_behaved_err("lol value unconsumed", || {
        assemble_list_of_list_primitive(
            &[0u32],
            &[2u32],
            &[PqValue::I64(1), PqValue::I64(2)],
            2, false, false, false,
        )
    });
}

#[test]
fn sp145_pt4_lol_def_overflow() {
    assert_well_behaved_err("lol def overflow", || {
        assemble_list_of_list_primitive(
            &[0u32],
            &[99u32],
            &[PqValue::I64(1)],
            2, false, false, false,
        )
    });
}

#[test]
fn sp145_pt5_los_field_length_mismatch() {
    assert_well_behaved_err("los field length mismatch", || {
        assemble_list_of_struct(
            &[0u32, 1],
            &[1u32, 1],
            &["a".to_string(), "b".to_string()],
            &[
                vec![PqValue::I64(1), PqValue::I64(2)],
                vec![PqValue::I64(3)],
            ],
            1, false,
        )
    });
}

#[test]
fn sp145_pt6_los_rep_overflow() {
    assert_well_behaved_err("los rep overflow", || {
        assemble_list_of_struct(
            &[0u32, 7],
            &[1u32, 1],
            &["a".to_string()],
            &[vec![PqValue::I64(1), PqValue::I64(2)]],
            1, false,
        )
    });
}

#[test]
fn sp145_pt7_mos_keys_mismatch() {
    assert_well_behaved_err("mos keys mismatch", || {
        assemble_map_of_struct(
            &[0u32, 1],
            &[1u32, 1],
            &[PqValue::Bytes(b"a".to_vec())],
            &["v".to_string()],
            &[vec![PqValue::I64(1), PqValue::I64(2)]],
            1, false,
        )
    });
}

#[test]
fn sp145_pt8_mos_rep_overflow() {
    assert_well_behaved_err("mos rep overflow", || {
        assemble_map_of_struct(
            &[0u32, 4],
            &[1u32, 1],
            &[PqValue::Bytes(b"a".to_vec()), PqValue::Bytes(b"b".to_vec())],
            &["v".to_string()],
            &[vec![PqValue::I64(1), PqValue::I64(2)]],
            1, false,
        )
    });
}

#[test]
fn sp145_pt9_mol_rep_overflow() {
    assert_well_behaved_err("mol rep overflow", || {
        assemble_map_of_list(
            &[0u32, 9],
            &[2u32, 2],
            &[PqValue::Bytes(b"a".to_vec())],
            &[PqValue::Bytes(b"x".to_vec()), PqValue::Bytes(b"y".to_vec())],
            2, false, false,
        )
    });
}

#[test]
fn sp145_pt10_mol_value_underflow() {
    assert_well_behaved_err("mol value underflow", || {
        assemble_map_of_list(
            &[0u32, 2],
            &[2u32, 2],
            &[PqValue::Bytes(b"a".to_vec())],
            &[PqValue::Bytes(b"x".to_vec())],
            2, false, false,
        )
    });
}

#[test]
fn sp146_pt11_classify_accepts_list_list_list() {
    let root = meta::SchemaNode::Group {
        name: "root".into(),
        repetition: meta::Repetition::Required,
        children: vec![meta::SchemaNode::Group {
            name: "lol_outer".into(),
            repetition: meta::Repetition::Required,
            children: vec![meta::SchemaNode::Group {
                name: "list".into(),
                repetition: meta::Repetition::Repeated,
                children: vec![meta::SchemaNode::Group {
                    name: "element".into(),
                    repetition: meta::Repetition::Required,
                    children: vec![meta::SchemaNode::Group {
                        name: "list".into(),
                        repetition: meta::Repetition::Repeated,
                        children: vec![meta::SchemaNode::Group {
                            name: "element".into(),
                            repetition: meta::Repetition::Required,
                            children: vec![meta::SchemaNode::Group {
                                name: "list".into(),
                                repetition: meta::Repetition::Repeated,
                                children: vec![meta::SchemaNode::Leaf {
                                    name: "element".into(),
                                    repetition: meta::Repetition::Required,
                                    ptype: meta::Type::Int64,
                                    max_def_level: 3,
                                    max_rep_level: 3,
                                    path: vec!["root".into(), "lol_outer".into(),
                                               "list".into(), "element".into(),
                                               "list".into(), "element".into(),
                                               "list".into(), "element".into()],
                                }],
                                logical_type: None,
                            }],
                            logical_type: Some(meta::LogicalType::List),
                        }],
                        logical_type: None,
                    }],
                    logical_type: Some(meta::LogicalType::List),
                }],
                logical_type: None,
            }],
            logical_type: Some(meta::LogicalType::List),
        }],
        logical_type: None,
    };
    let r = classify_column_plan(&root, "lol_outer", &[]);
    match r {
        Err(PqError::Bad(msg)) if msg.contains("missing from flat leaves list")
            || msg.contains("element") => {  }
        Err(other) => panic!("pt11: expected Bad(leaf-missing), got Err({other:?})"),
        Ok(_) => panic!("pt11: classified to Ok but leaves slice was empty"),
    }
}

#[test]
fn sp146_pt12_classify_accepts_list_of_map() {
    let root = meta::SchemaNode::Group {
        name: "root".into(),
        repetition: meta::Repetition::Required,
        children: vec![meta::SchemaNode::Group {
            name: "lom".into(),
            repetition: meta::Repetition::Required,
            children: vec![meta::SchemaNode::Group {
                name: "list".into(),
                repetition: meta::Repetition::Repeated,
                children: vec![meta::SchemaNode::Group {
                    name: "element".into(),
                    repetition: meta::Repetition::Required,
                    children: vec![meta::SchemaNode::Group {
                        name: "key_value".into(),
                        repetition: meta::Repetition::Repeated,
                        children: vec![
                            meta::SchemaNode::Leaf {
                                name: "key".into(),
                                repetition: meta::Repetition::Required,
                                ptype: meta::Type::ByteArray,
                                max_def_level: 2,
                                max_rep_level: 2,
                                path: vec!["root".into(), "lom".into(), "list".into(),
                                           "element".into(), "key_value".into(), "key".into()],
                            },
                            meta::SchemaNode::Leaf {
                                name: "value".into(),
                                repetition: meta::Repetition::Required,
                                ptype: meta::Type::Int64,
                                max_def_level: 2,
                                max_rep_level: 2,
                                path: vec!["root".into(), "lom".into(), "list".into(),
                                           "element".into(), "key_value".into(), "value".into()],
                            },
                        ],
                        logical_type: None,
                    }],
                    logical_type: Some(meta::LogicalType::MapKv),
                }],
                logical_type: None,
            }],
            logical_type: Some(meta::LogicalType::List),
        }],
        logical_type: None,
    };
    let r = classify_column_plan(&root, "lom", &[]);
    match r {
        Err(PqError::Bad(msg)) if msg.contains("missing from flat leaves") => {  }
        Err(other) => panic!("pt12: expected Bad(leaf-missing), got Err({other:?})"),
        Ok(_) => panic!("pt12: classified to Ok but leaves slice was empty"),
    }
}

#[test]
fn sp146_pt13_classify_accepts_map_of_map() {
    let outer_key_leaf = meta::SchemaLeaf {
        name: "key".into(),
        repetition: meta::Repetition::Required,
        ptype: meta::Type::ByteArray,
        type_length: None,
        converted_type: None,
        scale: None,
        precision: None,
        logical_type_decimal: None,
    };
    let leaves_for_test = vec![outer_key_leaf];
    let root = meta::SchemaNode::Group {
        name: "root".into(),
        repetition: meta::Repetition::Required,
        children: vec![meta::SchemaNode::Group {
            name: "mom".into(),
            repetition: meta::Repetition::Required,
            children: vec![meta::SchemaNode::Group {
                name: "key_value".into(),
                repetition: meta::Repetition::Repeated,
                children: vec![
                    meta::SchemaNode::Leaf {
                        name: "key".into(),
                        repetition: meta::Repetition::Required,
                        ptype: meta::Type::ByteArray,
                        max_def_level: 1,
                        max_rep_level: 1,
                        path: vec!["root".into(), "mom".into(), "key_value".into(), "key".into()],
                    },
                    meta::SchemaNode::Group {
                        name: "value".into(),
                        repetition: meta::Repetition::Required,
                        children: vec![meta::SchemaNode::Group {
                            name: "key_value".into(),
                            repetition: meta::Repetition::Repeated,
                            children: vec![
                                meta::SchemaNode::Leaf {
                                    name: "key".into(),
                                    repetition: meta::Repetition::Required,
                                    ptype: meta::Type::ByteArray,
                                    max_def_level: 2,
                                    max_rep_level: 2,
                                    path: vec!["root".into(), "mom".into(), "key_value".into(),
                                               "value".into(), "key_value".into(), "key".into()],
                                },
                                meta::SchemaNode::Leaf {
                                    name: "value".into(),
                                    repetition: meta::Repetition::Required,
                                    ptype: meta::Type::Int64,
                                    max_def_level: 2,
                                    max_rep_level: 2,
                                    path: vec!["root".into(), "mom".into(), "key_value".into(),
                                               "value".into(), "key_value".into(), "value".into()],
                                },
                            ],
                            logical_type: None,
                        }],
                        logical_type: Some(meta::LogicalType::MapKv),
                    },
                ],
                logical_type: None,
            }],
            logical_type: Some(meta::LogicalType::MapKv),
        }],
        logical_type: None,
    };
    let r = classify_column_plan(&root, "mom", &leaves_for_test);
    match r {
        Err(PqError::Bad(msg)) if msg.contains("missing from flat leaves") => {  }
        Err(other) => panic!("pt13: expected Bad(inner-leaf-missing), got Err({other:?})"),
        Ok(_) => panic!("pt13: classified to Ok but inner leaves were not provided"),
    }
}

#[test]
fn sp145_pt14_classify_rejects_noncanonical_inner_list() {
    let root = meta::SchemaNode::Group {
        name: "root".into(),
        repetition: meta::Repetition::Required,
        children: vec![meta::SchemaNode::Group {
            name: "lol_bad".into(),
            repetition: meta::Repetition::Required,
            children: vec![meta::SchemaNode::Group {
                name: "list".into(),
                repetition: meta::Repetition::Repeated,
                children: vec![meta::SchemaNode::Group {
                    name: "element".into(),
                    repetition: meta::Repetition::Required,
                    children: vec![meta::SchemaNode::Group {
                        name: "list".into(),
                        repetition: meta::Repetition::Required,
                        children: vec![meta::SchemaNode::Leaf {
                            name: "element".into(),
                            repetition: meta::Repetition::Required,
                            ptype: meta::Type::Int64,
                            max_def_level: 2,
                            max_rep_level: 1,
                            path: vec!["root".into(), "lol_bad".into(),
                                       "list".into(), "element".into(),
                                       "list".into(), "element".into()],
                        }],
                        logical_type: None,
                    }],
                    logical_type: Some(meta::LogicalType::List),
                }],
                logical_type: None,
            }],
            logical_type: Some(meta::LogicalType::List),
        }],
        logical_type: None,
    };
    let r = classify_column_plan(&root, "lol_bad", &[]);
    match r {
        Err(PqError::Unsupported(msg)) if msg.contains("middle not REPEATED") => {  }
        Err(other) => panic!("pt14: expected Unsupported(middle not REPEATED), got Err({other:?})"),
        Ok(_) => panic!("pt14: expected Unsupported, got Ok(_)"),
    }
}

#[test]
fn sp145_pt15_mol_value_unconsumed() {
    assert_well_behaved_err("mol value unconsumed", || {
        assemble_map_of_list(
            &[0u32],
            &[2u32],
            &[PqValue::Bytes(b"a".to_vec())],
            &[PqValue::Bytes(b"x".to_vec()), PqValue::Bytes(b"y".to_vec())],
            2, false, false,
        )
    });
}

#[test]
fn sp145_pt16_los_empty_levels_with_items() {
    assert_well_behaved_err("los empty levels with items", || {
        assemble_list_of_struct(
            &[],
            &[],
            &["a".to_string()],
            &[vec![PqValue::I64(1)]],
            1, false,
        )
    });
}

#[test]
fn sp146_pt17_lll_rep_overflow() {
    assert_well_behaved_err("lll rep overflow", || {
        assemble_list_of_list_of_list_primitive(
            &[0u32, 5],
            &[3u32, 3],
            &[PqValue::I64(1), PqValue::I64(2)],
            3, false, false, false, false,
        )
    });
}

#[test]
fn sp146_pt18_lll_value_underflow() {
    assert_well_behaved_err("lll value underflow", || {
        assemble_list_of_list_of_list_primitive(
            &[0u32, 3],
            &[3u32, 3],
            &[PqValue::I64(1)],
            3, false, false, false, false,
        )
    });
}

#[test]
fn sp146_pt19_lll_def_overflow() {
    assert_well_behaved_err("lll def overflow", || {
        assemble_list_of_list_of_list_primitive(
            &[0u32],
            &[99u32],
            &[PqValue::I64(1)],
            3, false, false, false, false,
        )
    });
}

#[test]
fn sp146_pt20_lom_rep_overflow() {
    assert_well_behaved_err("lom rep overflow", || {
        assemble_list_of_map_kv(
            &[0u32, 5],
            &[2u32, 2],
            &[PqValue::Bytes(b"a".to_vec()), PqValue::Bytes(b"b".to_vec())],
            &[PqValue::I64(1), PqValue::I64(2)],
            2, false, false,
        )
    });
}

#[test]
fn sp146_pt21_lom_value_underflow() {
    assert_well_behaved_err("lom value underflow", || {
        assemble_list_of_map_kv(
            &[0u32, 2],
            &[2u32, 2],
            &[PqValue::Bytes(b"a".to_vec()), PqValue::Bytes(b"b".to_vec())],
            &[PqValue::I64(1)],
            2, false, false,
        )
    });
}

#[test]
fn sp146_pt22_mom_rep_overflow() {
    assert_well_behaved_err("mom rep overflow", || {
        assemble_map_of_map_kv(
            &[0u32, 4],
            &[2u32, 2],
            &[PqValue::Bytes(b"a".to_vec())],
            &[PqValue::Bytes(b"x".to_vec()), PqValue::Bytes(b"y".to_vec())],
            &[PqValue::I64(1), PqValue::I64(2)],
            2, false, false,
        )
    });
}

#[test]
fn sp146_pt23_mom_outer_key_underflow() {
    assert_well_behaved_err("mom outer-key underflow", || {
        assemble_map_of_map_kv(
            &[0u32, 1],
            &[2u32, 2],
            &[PqValue::Bytes(b"a".to_vec())],
            &[PqValue::Bytes(b"x".to_vec()), PqValue::Bytes(b"y".to_vec())],
            &[PqValue::I64(1), PqValue::I64(2)],
            2, false, false,
        )
    });
}

#[test]
fn sp146_pt24_mom_inner_value_unconsumed() {
    assert_well_behaved_err("mom inner-value unconsumed", || {
        assemble_map_of_map_kv(
            &[0u32],
            &[2u32],
            &[PqValue::Bytes(b"a".to_vec())],
            &[PqValue::Bytes(b"x".to_vec())],
            &[PqValue::I64(1), PqValue::I64(2)],
            2, false, false,
        )
    });
}
