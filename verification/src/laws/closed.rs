//! A cap of zero: nothing is read.
use vstd::prelude::*;

use crate::chunk::{
    chunk_levels, chunk_values, flat_page_at, flat_pages, header_at, nested_page_at, nested_pages,
    v1_payload, v2_region, SizeWords,
};
use crate::codec::{expanded, FrameWords};
use crate::extract::{column_of, extracted, SourceView};
use crate::meta::{Codec, ColumnChunkView, PageHeader, RowGroupView};
use crate::laws::columns::{column_in, lemma_columns, lemma_rows, lemma_sources};
use crate::nested::{
    field_columns, kind_column, leaf_fields, list_column, list_of_map_column,
    list_of_struct_column, map_column, map_of_list_column, map_of_map_column,
    located, map_of_struct_column, only_list_column, FieldWords,
};
use crate::page::{
    at_max, encoded_values, flat_page, flat_page_v2, level_width, nested_page, nested_page_v2,
    v2_section,
};
use crate::plain::PlainSpec;
use crate::plan::{FieldView, KindView};
use crate::value::PqV;

verus! {

/// Every page that is read is within the cap, as it is in the file and as it is decompressed.
pub proof fn law_page_within_cap(
    file: Seq<u8>,
    off: int,
    cc: ColumnChunkView,
    spec: PlainSpec,
    max_def: u32,
    max_rep: u32,
    dict: Seq<PqV>,
    cap: int,
)
    ensures
        ({
            let h = header_at(file, off, "data page offset past EOF"@)->Ok_0.0;
            let within = 0 <= h.compressed_size <= cap && 0 <= h.uncompressed_size <= cap;
            &&& flat_page_at(file, off, cc, spec, max_def, dict, cap) is Ok ==> within
            &&& nested_page_at(file, off, cc, spec, max_def, max_rep, dict, cap) is Ok ==> within
        }),
{
    reveal(flat_page_v2);
}

/// No bytes hold no value.
proof fn lemma_no_bytes(s: Seq<u8>, encoding: i32, spec: PlainSpec, n: nat, dict: Seq<PqV>)
    requires
        s.len() == 0,
    ensures
        encoded_values(s, encoding, spec, n, dict) matches Ok(v) ==> n == 0 && v.len() == 0,
{
    crate::plain::lemma_plain_len(s, spec, n);
    if n > 0 {
        lemma_no_byte_arrays(s, n, spec.decimal);
        assert(n * 4 > 0 && n * 8 > 0 && n * 12 > 0);
        match spec.flba_len {
            Some(w) => {
                if w > 0 {
                    assert(n * w > 0) by (nonlinear_arith)
                        requires
                            n > 0,
                            w > 0,
                    ;
                }
            },
            None => {},
        }
    }
}

proof fn lemma_no_byte_arrays(s: Seq<u8>, n: nat, dec: Option<crate::plain::DecimalSpec>)
    requires
        s.len() == 0,
        n > 0,
    ensures
        crate::plain::byte_arrays_at(s, 0, n, dec) is Err,
    decreases n,
{
    assert(crate::plain::byte_arrays_at(s, 0, 0, dec) is Ok);
    if n > 1 {
        lemma_no_byte_arrays(s, (n - 1) as nat, dec);
    }
}

proof fn lemma_no_levels(s: Seq<u8>, w: nat, n: nat)
    requires
        s.len() == 0,
    ensures
        crate::rle::prefixed_levels(s, w, n) is Err,
        crate::rle::hybrid(s, w, n) matches Ok(v) ==> n == 0 && v.len() == 0,
{
    assert(crate::varint::continuation(s, 0) == 0);
    assert(crate::varint::varint_at(s, 0, 10) == crate::varint::VarintView::Truncated);
}

proof fn lemma_empty_payload(codec: Codec, s: Seq<u8>, w: FrameWords)
    requires
        s.len() == 0,
    ensures
        expanded(codec, s, 0, w) matches Ok(v) ==> v.len() == 0,
{
    reveal(expanded);
    crate::laws::blocks::law_snappy_len(s, 0);
}

proof fn lemma_v1_closed(
    file: Seq<u8>,
    start: int,
    h: PageHeader,
    cc: ColumnChunkView,
    w: SizeWords,
)
    requires
        0 <= start <= file.len(),
    ensures
        v1_payload(file, start, h, cc, w, 0) matches Ok((_, payload)) ==> payload.len() == 0,
{
    if v1_payload(file, start, h, cc, w, 0) is Ok {
        lemma_empty_payload(
            cc.codec,
            file.subrange(start, start + h.compressed_size),
            crate::page::page_words(),
        );
    }
}

proof fn lemma_v2_closed(file: Seq<u8>, start: int, h: PageHeader, compressed: Seq<char>)
    requires
        0 <= start <= file.len(),
    ensures
        v2_region(file, start, h, compressed, 0) matches Ok(region) ==> region.len() == 0,
{
}

proof fn lemma_flat_v1_closed(
    payload: Seq<u8>,
    encoding: i32,
    spec: PlainSpec,
    n: nat,
    max_def: u32,
    dict: Seq<PqV>,
)
    requires
        payload.len() == 0,
    ensures
        flat_page(payload, encoding, spec, n, max_def, dict) matches Ok(v) ==> v.len() == 0,
{
    reveal(flat_page);
    lemma_no_bytes(payload, encoding, spec, n, dict);
    lemma_no_levels(payload, level_width(max_def), n);
}

proof fn lemma_flat_closed(
    file: Seq<u8>,
    off: int,
    cc: ColumnChunkView,
    spec: PlainSpec,
    max_def: u32,
    dict: Seq<PqV>,
)
    requires
        0 <= off,
    ensures
        flat_page_at(file, off, cc, spec, max_def, dict, 0) matches Ok((v, _)) ==> v.len() == 0,
{
    match header_at(file, off, "data page offset past EOF"@) {
        Ok((h, start)) => {
            let w = SizeWords {
                compressed: "v1 page compressed"@,
                uncompressed: "v1 page uncompressed"@,
            };
            if h.page_type == 0 {
                lemma_v1_closed(file, start, h, cc, w);
                match v1_payload(file, start, h, cc, w, 0) {
                    Ok((n, payload)) => {
                        lemma_flat_v1_closed(
                            payload,
                            h.dp_encoding,
                            spec,
                            n as nat,
                            max_def,
                            dict,
                        );
                    },
                    Err(_) => {},
                }
            } else if h.page_type == 3 {
                lemma_v2_closed(file, start, h, "v2 page compressed"@);
                match v2_region(file, start, h, "v2 page compressed"@, 0) {
                    Ok(region) => {
                        lemma_flat_v2_closed(region, h, cc.codec, spec, max_def, dict);
                    },
                    Err(_) => {},
                }
            }
        },
        Err(_) => {},
    }
}

proof fn lemma_flat_v2_closed(
    region: Seq<u8>,
    h: PageHeader,
    codec: Codec,
    spec: PlainSpec,
    max_def: u32,
    dict: Seq<PqV>,
)
    requires
        region.len() == 0,
    ensures
        flat_page_v2(region, h, codec, spec, max_def, dict, 0) matches Ok(v) ==> v.len() == 0,
{
    reveal(flat_page_v2);
    if flat_page_v2(region, h, codec, spec, max_def, dict, 0) is Ok {
        let n = h.v2_num_values as nat;
        let none = region.take(0);
        let section = region.skip(0);
        lemma_no_levels(none, level_width(max_def), n);
        lemma_empty_payload(codec, section, crate::page::v2_words());
        let (defs, present) = crate::page::v2_levels(
            none,
            n,
            h.v2_num_nulls as int,
            max_def,
        )->Ok_0;
        let body = v2_section(
            codec,
            h.v2_is_compressed,
            section,
            0,
            crate::page::v2_words(),
            "v2 raw values length mismatch"@,
        )->Ok_0;
        lemma_no_bytes(body, h.v2_encoding, spec, present, dict);
    }
}

proof fn lemma_flat_pages_closed(
    file: Seq<u8>,
    off: int,
    cc: ColumnChunkView,
    spec: PlainSpec,
    max_def: u32,
    dict: Seq<PqV>,
    want: int,
)
    requires
        0 <= off,
        want > 0,
    ensures
        flat_pages(file, off, cc, spec, max_def, dict, want, seq![], 0) is Err,
    decreases file.len() - off,
{
    lemma_flat_closed(file, off, cc, spec, max_def, dict);
    match flat_page_at(file, off, cc, spec, max_def, dict, 0) {
        Ok((v, next)) => {
            assert(Seq::<PqV>::empty() + v =~= seq![]);
            lemma_flat_pages_closed(file, next, cc, spec, max_def, dict, want);
        },
        Err(_) => {},
    }
}

/// Under a cap of zero a flat column has no values.
pub proof fn law_chunk_values_closed(
    file: Seq<u8>,
    cc: ColumnChunkView,
    spec: PlainSpec,
    max_def: u32,
)
    ensures
        chunk_values(file, cc, spec, max_def, 0) matches Ok(v) ==> v.len() == 0,
{
    reveal(chunk_values);
    if chunk_values(file, cc, spec, max_def, 0) is Ok && cc.num_values > 0 {
        let dict = crate::chunk::dictionary(
            file,
            cc,
            spec,
            SizeWords {
                compressed: "dict page compressed"@,
                uncompressed: "dict page uncompressed"@,
            },
            0,
        )->Ok_0;
        lemma_flat_pages_closed(
            file,
            cc.data_page_offset as int,
            cc,
            spec,
            max_def,
            dict,
            cc.num_values as int,
        );
    }
}

proof fn lemma_at_max_none(n: nat)
    ensures
        at_max(crate::page::no_levels(n), 0) == n,
    decreases n,
{
    if n > 0 {
        assert(crate::page::no_levels(n).drop_last() =~= crate::page::no_levels((n - 1) as nat));
        lemma_at_max_none((n - 1) as nat);
    }
}

proof fn lemma_nested_closed(
    file: Seq<u8>,
    off: int,
    cc: ColumnChunkView,
    spec: PlainSpec,
    max_def: u32,
    max_rep: u32,
    dict: Seq<PqV>,
)
    requires
        0 <= off,
    ensures
        nested_page_at(file, off, cc, spec, max_def, max_rep, dict, 0) matches Ok((l, _)) ==>
            l.0.len() == 0 && l.1.len() == 0 && l.2.len() == 0,
{
    match header_at(file, off, "data page offset past EOF"@) {
        Ok((h, start)) => {
            let w = SizeWords {
                compressed: "nested v1 page compressed"@,
                uncompressed: "nested v1 page uncompressed"@,
            };
            if h.page_type == 0 {
                lemma_v1_closed(file, start, h, cc, w);
                match v1_payload(file, start, h, cc, w, 0) {
                    Ok((n, payload)) => {
                        lemma_nested_v1_closed(
                            payload,
                            h.dp_encoding,
                            spec,
                            n as nat,
                            max_rep,
                            max_def,
                            dict,
                        );
                    },
                    Err(_) => {},
                }
            } else if h.page_type == 3 {
                lemma_v2_closed(file, start, h, "nested v2 page compressed"@);
                match v2_region(file, start, h, "nested v2 page compressed"@, 0) {
                    Ok(region) => {
                        lemma_nested_v2_closed(region, h, cc, spec, max_def, max_rep, dict);
                    },
                    Err(_) => {},
                }
            }
        },
        Err(_) => {},
    }
}

proof fn lemma_nested_v1_closed(
    payload: Seq<u8>,
    encoding: i32,
    spec: PlainSpec,
    n: nat,
    max_rep: u32,
    max_def: u32,
    dict: Seq<PqV>,
)
    requires
        payload.len() == 0,
    ensures
        nested_page(payload, encoding, spec, n, max_rep, max_def, dict) matches Ok(l) ==>
            l.0.len() == 0 && l.1.len() == 0 && l.2.len() == 0,
{
    reveal(nested_page);
    lemma_no_levels(payload, crate::page::level_width(max_rep), n);
    let rest = payload.skip(0);
    lemma_no_levels(rest, crate::page::level_width(max_def), n);
    lemma_at_max_none(n);
    lemma_no_bytes(rest.skip(0), encoding, spec, n, dict);
}

proof fn lemma_nested_v2_closed(
    region: Seq<u8>,
    h: PageHeader,
    cc: ColumnChunkView,
    spec: PlainSpec,
    max_def: u32,
    max_rep: u32,
    dict: Seq<PqV>,
)
    requires
        region.len() == 0,
    ensures
        crate::chunk::nested_v2_of(region, h, cc, spec, max_def, max_rep, dict, 0) matches Ok(l)
            ==> l.0.len() == 0 && l.1.len() == 0 && l.2.len() == 0,
{
    reveal(nested_page_v2);
    if crate::chunk::nested_v2_of(region, h, cc, spec, max_def, max_rep, dict, 0) is Ok {
        let n = h.v2_num_values as nat;
        let a = region.take(0);
        let b = region.subrange(0, 0);
        let section = region.skip(0);
        lemma_no_levels(a, crate::page::level_width(max_rep), n);
        lemma_no_levels(b, crate::page::level_width(max_def), n);
        lemma_at_max_none(n);
        lemma_empty_payload(cc.codec, section, crate::page::nested_v2_words());
        let body = v2_section(
            cc.codec,
            h.v2_is_compressed,
            section,
            0,
            crate::page::nested_v2_words(),
            "nested v2 raw values length mismatch"@,
        )->Ok_0;
        let def = crate::page::levels_v2(
            b,
            max_def,
            n,
            "nested v2 def"@,
            "nested v2 def_len non-zero for max_def_level=0"@,
        )->Ok_0;
        lemma_no_bytes(body, h.v2_encoding, spec, at_max(def, max_def), dict);
    }
}

proof fn lemma_nested_pages_closed(
    file: Seq<u8>,
    off: int,
    cc: ColumnChunkView,
    spec: PlainSpec,
    max_def: u32,
    max_rep: u32,
    dict: Seq<PqV>,
    want: int,
)
    requires
        0 <= off,
        want > 0,
    ensures
        nested_pages(
            file,
            off,
            cc,
            spec,
            max_def,
            max_rep,
            dict,
            want,
            (seq![], seq![], seq![]),
            0,
        ) is Err,
    decreases file.len() - off,
{
    lemma_nested_closed(file, off, cc, spec, max_def, max_rep, dict);
    match nested_page_at(file, off, cc, spec, max_def, max_rep, dict, 0) {
        Ok((l, next)) => {
            assert(Seq::<u32>::empty() + l.0 =~= seq![]);
            assert(Seq::<u32>::empty() + l.1 =~= seq![]);
            assert(Seq::<PqV>::empty() + l.2 =~= seq![]);
            lemma_nested_pages_closed(file, next, cc, spec, max_def, max_rep, dict, want);
        },
        Err(_) => {},
    }
}

/// Under a cap of zero a nested leaf has no values.
pub proof fn law_chunk_levels_closed(
    file: Seq<u8>,
    cc: ColumnChunkView,
    spec: PlainSpec,
    max_def: u32,
    max_rep: u32,
)
    ensures
        chunk_levels(file, cc, spec, max_def, max_rep, 0) matches Ok(l) ==> l.0.len() == 0
            && l.1.len() == 0 && l.2.len() == 0,
{
    reveal(chunk_levels);
    if chunk_levels(file, cc, spec, max_def, max_rep, 0) is Ok && cc.num_values > 0 {
        let dict = crate::chunk::dictionary(
            file,
            cc,
            spec,
            SizeWords {
                compressed: "nested dict page compressed"@,
                uncompressed: "nested dict page uncompressed"@,
            },
            0,
        )->Ok_0;
        lemma_nested_pages_closed(
            file,
            cc.data_page_offset as int,
            cc,
            spec,
            max_def,
            max_rep,
            dict,
            cc.num_values as int,
        );
    }
}

/// All nested leaves at once.
proof fn lemma_levels_closed(file: Seq<u8>)
    ensures
        forall|cc: ColumnChunkView, spec: PlainSpec, d: u32, r: u32|
            (#[trigger] chunk_levels(file, cc, spec, d, r, 0)) matches Ok(l) ==> l.0.len() == 0
                && l.1.len() == 0 && l.2.len() == 0,
{
    assert forall|cc: ColumnChunkView, spec: PlainSpec, d: u32, r: u32|
        (#[trigger] chunk_levels(file, cc, spec, d, r, 0)) is Ok implies ({
        let l = chunk_levels(file, cc, spec, d, r, 0)->Ok_0;
        l.0.len() == 0 && l.1.len() == 0 && l.2.len() == 0
    }) by {
        law_chunk_levels_closed(file, cc, spec, d, r);
    }
}

proof fn lemma_leaf_fields_closed(
    file: Seq<u8>,
    g: RowGroupView,
    fields: Seq<FieldView>,
    k: nat,
    w: FieldWords,
)
    ensures
        leaf_fields(file, g, fields, k, w, 0) matches Ok((rep, def, _)) ==> rep.len() == 0
            && def.len() == 0,
    decreases k,
{
    if k > 0 {
        lemma_leaf_fields_closed(file, g, fields, (k - 1) as nat, w);
        lemma_levels_closed(file);
    }
}

proof fn lemma_fields_closed(file: Seq<u8>, g: RowGroupView, fields: Seq<FieldView>, k: nat)
    requires
        k <= fields.len(),
    ensures
        field_columns(file, g, fields, k, 0) matches Ok(c) ==> c.len() == k && forall|i: int|
            0 <= i < k ==> (#[trigger] c[i]).len() == 0,
    decreases fields, 0int, k,
{
    if k > 0 {
        lemma_fields_closed(file, g, fields, (k - 1) as nat);
        let f = fields[k - 1];
        match f.nested {
            Some(kind) => {
                law_kind_closed(file, g, *kind);
            },
            None => {
                match located(g, f.chunk_path, f.ptype, crate::nested::struct_words()) {
                    Ok(cc) => {
                        law_chunk_values_closed(file, cc, f.spec, f.max_def_level);
                    },
                    Err(_) => {},
                }
            },
        }
        assert(crate::nested::field_column(file, g, f, 0) matches Ok(v) ==> v.len() == 0);
    }
}

/// Under a cap of zero a column of any shape has no values.
pub proof fn law_kind_closed(file: Seq<u8>, g: RowGroupView, kind: KindView)
    ensures
        kind_column(file, g, kind, 0) matches Ok(v) ==> v.len() == 0,
    decreases kind, 1int, 0nat,
{
    match kind {
        KindView::Flat { .. } => {},
        KindView::NestedListPrimitive { .. } => {
            reveal(only_list_column);
            reveal(list_column);
            lemma_levels_closed(file);
        },
        KindView::NestedMapKV { .. } => {
            reveal(map_column);
            lemma_levels_closed(file);
        },
        KindView::NestedStruct { outer_optional, fields } => {
            lemma_fields_closed(file, g, fields, fields.len());
        },
        KindView::NestedListOfListPrimitive { .. } => {
            reveal(only_list_column);
            reveal(list_column);
            lemma_levels_closed(file);
        },
        KindView::NestedListOfStruct { outer_optional, list_max_def_level, fields } => {
            reveal(list_of_struct_column);
            lemma_leaf_fields_closed(
                file,
                g,
                fields,
                fields.len(),
                crate::nested::list_of_struct_words(),
            );
        },
        KindView::NestedMapOfStruct { value_fields, .. } => {
            reveal(map_of_struct_column);
            lemma_leaf_fields_closed(
                file,
                g,
                value_fields,
                value_fields.len(),
                crate::nested::map_of_struct_words(),
            );
        },
        KindView::NestedMapOfList { .. } => {
            reveal(map_of_list_column);
            lemma_levels_closed(file);
        },
        KindView::NestedListOfListOfListPrimitive { .. } => {
            reveal(only_list_column);
            reveal(list_column);
            lemma_levels_closed(file);
        },
        KindView::NestedListOfMap { .. } => {
            reveal(list_of_map_column);
            lemma_levels_closed(file);
        },
        KindView::NestedMapOfMap { .. } => {
            reveal(map_of_map_column);
            lemma_levels_closed(file);
        },
    }
}

proof fn lemma_column_closed(file: Seq<u8>, g: RowGroupView, s: SourceView)
    ensures
        column_of(file, g, s, 0) matches Ok(v) ==> v.len() == 0,
{
    match s {
        SourceView::Leaf { name, spec, ptype, max_def_level } => {
            match crate::extract::named_from(g.columns, name, 0) {
                Some(cc) => law_chunk_values_closed(file, cc, spec, max_def_level),
                None => {},
            }
        },
        SourceView::Shape(plan) => {
            match plan.kind {
                KindView::Flat { spec, ptype, max_def_level } => {
                    match located(g, plan.chunk_path, ptype, crate::extract::column_words()) {
                        Ok(cc) => law_chunk_values_closed(file, cc, spec, max_def_level),
                        Err(_) => {},
                    }
                },
                KindView::NestedListPrimitive { .. } => {
                    reveal(list_column);
                    lemma_levels_closed(file);
                },
                KindView::NestedListOfListPrimitive { .. } => {
                    reveal(list_column);
                    lemma_levels_closed(file);
                },
                KindView::NestedListOfListOfListPrimitive { .. } => {
                    reveal(list_column);
                    lemma_levels_closed(file);
                },
                _ => law_kind_closed(file, g, plan.kind),
            }
        },
    }
}

proof fn lemma_column_in_closed(file: Seq<u8>, row_groups: Seq<RowGroupView>, n: nat, s: SourceView)
    ensures
        column_in(file, row_groups, n, s, 0) matches Ok(v) ==> v.len() == 0,
    decreases n,
{
    if n > 0 {
        lemma_column_in_closed(file, row_groups, (n - 1) as nat, s);
        lemma_column_closed(file, row_groups[n - 1], s);
    }
}

/// Under a cap of zero no row comes out.
pub proof fn law_cap_zero(file: Seq<u8>, wanted: Seq<Seq<char>>)
    ensures
        extracted(file, wanted, 0) matches Ok(rows) ==> rows.len() == 0,
{
    if extracted(file, wanted, 0) is Ok {
        let (a, b) = crate::footer::metadata_range(file)->Ok_0;
        let md = crate::meta::metadata_of(file.subrange(a, b))->Ok_0;
        if wanted.len() > 0 {
            lemma_rows(file, md, wanted, 0, 0);
            let s = crate::extract::source_of(md, wanted[0])->Ok_0;
            lemma_column_in_closed(file, md.row_groups, md.row_groups.len(), s);
        } else {
            lemma_sources(md, wanted, 0);
            assert(crate::extract::sources_of(md, wanted, 0)->Ok_0 =~= seq![]);
            lemma_columns(file, md.row_groups, md.row_groups.len(), seq![], 0);
        }
    }
}

} // verus!
