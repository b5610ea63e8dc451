use kessel_parquet::{PqError, PqValue, meta, plain};
use kessel_parquet::assembly::assemble_list_primitive;
use kessel_parquet::page::{decode_data_page_v2_nested, decode_page_v1_nested};
use kessel_parquet::rle::decode_hybrid;

fn caught<T>(f: impl FnOnce() -> T) -> Result<T, String> {
    Ok(f())
}

fn assert_well_behaved_err<F, T>(name: &str, f: F)
where
    F: FnOnce() -> Result<T, PqError> + Sized,
{
    let r = caught(f);
    match r {
        Ok(Ok(_)) => panic!("{name}: expected Err, got Ok"),
        Ok(Err(_)) => {  }
        Err(_) => panic!("{name}: PANICKED on adversarial input"),
    }
}

#[test]
fn pt1_def_level_overflow() {
    assert_well_behaved_err("def overflow", || {
        assemble_list_primitive(
            &[0u32, 0],
            &[3u32, 1],
            &[PqValue::I64(1)],
            2,
            false,
            true,
        )
    });
}

#[test]
fn pt2_rep_level_overflow() {
    assert_well_behaved_err("rep overflow", || {
        assemble_list_primitive(
            &[0u32, 2],
            &[1u32, 1],
            &[PqValue::I64(1), PqValue::I64(2)],
            1,
            false,
            false,
        )
    });
}

#[test]
fn pt3_bit_width_too_large() {
    assert_well_behaved_err("bit_width too large", || {
        decode_hybrid(&[0x01, 0x02, 0x03], 65, 4)
    });
}

#[test]
fn pt4_v2_rep_section_overrun() {
    assert_well_behaved_err("v2 rep section overrun", || {
        decode_data_page_v2_nested(
            &[0u8; 5],
            0,
            plain::PlainSpec::plain(meta::Type::Int64),
            3,
            1,
            1,
            100,
            0,
            false,
            meta::Codec::Uncompressed,
            10,
            &[],
        )
    });
}

#[test]
fn pt5_value_stream_truncated() {
    assert_well_behaved_err("value truncated", || {
        assemble_list_primitive(
            &[0u32, 1, 1],
            &[1u32, 1, 1],
            &[PqValue::I64(1)],
            1,
            false,
            false,
        )
    });
}

#[test]
fn pt6_value_stream_overrun() {
    assert_well_behaved_err("value overrun", || {
        assemble_list_primitive(
            &[0u32],
            &[2u32],
            &[PqValue::I64(1), PqValue::I64(2)],
            2,
            true,
            false,
        )
    });
}

#[test]
fn pt7_rep_def_length_mismatch() {
    assert_well_behaved_err("len mismatch", || {
        assemble_list_primitive(
            &[0u32, 1, 0],
            &[1u32, 1],
            &[PqValue::I64(1), PqValue::I64(2)],
            1,
            false,
            false,
        )
    });
}

#[test]
fn pt8_rep_level_far_overflow() {
    assert_well_behaved_err("rep far overflow", || {
        assemble_list_primitive(
            &[0u32, 5],
            &[1u32, 1],
            &[PqValue::I64(1)],
            1,
            false,
            false,
        )
    });
}

#[test]
fn pt9_rep1_without_active_list() {
    assert_well_behaved_err("rep1 first", || {
        assemble_list_primitive(
            &[1u32, 0],
            &[1u32, 1],
            &[PqValue::I64(1), PqValue::I64(2)],
            1,
            false,
            false,
        )
    });
}

#[test]
fn pt10_item_null_with_required_element() {
    assert_well_behaved_err("item null with REQ element", || {
        assemble_list_primitive(
            &[0u32],
            &[2u32],
            &[],
            3,
            true,
            false,
        )
    });
}

#[test]
fn pt11_empty_streams_with_values() {
    assert_well_behaved_err("empty streams with values", || {
        assemble_list_primitive(
            &[],
            &[],
            &[PqValue::I64(1)],
            1,
            false,
            false,
        )
    });
}

#[test]
fn pt12_huge_num_values_no_oom() {
    assert_well_behaved_err("huge num_values direct", || {
        decode_hybrid(&[0x00], 1, 1_000_000_000)
    });
}

#[test]
fn pt12b_huge_n_via_page_v1_nested_no_oom() {
    assert_well_behaved_err("huge n via v1 nested page", || {
        let mut payload = Vec::new();
        payload.extend_from_slice(&1u32.to_le_bytes());
        payload.push(0x00);
        decode_page_v1_nested(
            &payload,
            0,
            plain::PlainSpec::plain(meta::Type::Int64),
            1_000_000_000,
            1,
            1,
            &[],
        )
    });
}

#[test]
fn pt13_deep_nesting_rejected_covered_by_t6() {
}
