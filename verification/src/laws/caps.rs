//! The cap on the size of pages.
use vstd::prelude::*;

use crate::chunk::{
    chunk_levels, chunk_values, dictionary, flat_page_at, flat_pages, nested_page_at, nested_pages,
    SizeWords,
};
use crate::extract::{column_of, columns_of, extracted, plan_column, with_group, SourceView};
use crate::meta::{ColumnChunkView, RowGroupView};
use crate::nested::{
    field_column, field_columns, kind_column, leaf_fields, list_column, list_of_map_column,
    list_of_struct_column, map_column, map_of_list_column, map_of_map_column, map_of_struct_column,
    only_list_column, FieldWords,
};
use crate::page::{flat_page_v2, page_size, Levels};
use crate::plain::PlainSpec;
use crate::plan::{FieldView, KindView, PlanView};
use crate::value::PqV;

verus! {

/// A page within the cap is within every larger one; no page with a byte in it is within a cap of
/// zero.
pub proof fn law_page_size(what: Seq<char>, size: int, cap: int, more: int)
    ensures
        page_size(what, size, cap) is Ok && cap <= more ==> page_size(what, size, more) is Ok,
        size > 0 ==> page_size(what, size, 0) is Err,
        page_size(what, size, cap) is Ok <==> size <= cap,
{
}

proof fn lemma_dictionary(
    file: Seq<u8>,
    cc: ColumnChunkView,
    spec: PlainSpec,
    w: SizeWords,
    cap: int,
    more: int,
)
    requires
        cap <= more,
        dictionary(file, cc, spec, w, cap) is Ok,
    ensures
        dictionary(file, cc, spec, w, more) == dictionary(file, cc, spec, w, cap),
{
}

proof fn lemma_flat_page(
    file: Seq<u8>,
    off: int,
    cc: ColumnChunkView,
    spec: PlainSpec,
    max_def: u32,
    dict: Seq<PqV>,
    cap: int,
    more: int,
)
    requires
        cap <= more,
        flat_page_at(file, off, cc, spec, max_def, dict, cap) is Ok,
    ensures
        flat_page_at(file, off, cc, spec, max_def, dict, more) == flat_page_at(
            file,
            off,
            cc,
            spec,
            max_def,
            dict,
            cap,
        ),
{
    reveal(flat_page_v2);
}

proof fn lemma_flat_pages(
    file: Seq<u8>,
    off: int,
    cc: ColumnChunkView,
    spec: PlainSpec,
    max_def: u32,
    dict: Seq<PqV>,
    want: int,
    have: Seq<PqV>,
    cap: int,
    more: int,
)
    requires
        cap <= more,
        flat_pages(file, off, cc, spec, max_def, dict, want, have, cap) is Ok,
    ensures
        flat_pages(file, off, cc, spec, max_def, dict, want, have, more) == flat_pages(
            file,
            off,
            cc,
            spec,
            max_def,
            dict,
            want,
            have,
            cap,
        ),
    decreases file.len() - off,
{
    if have.len() < want {
        lemma_flat_page(file, off, cc, spec, max_def, dict, cap, more);
        match flat_page_at(file, off, cc, spec, max_def, dict, cap) {
            Ok((vals, next)) => {
                lemma_flat_pages(
                    file,
                    next,
                    cc,
                    spec,
                    max_def,
                    dict,
                    want,
                    have + vals,
                    cap,
                    more,
                );
            },
            Err(_) => {},
        }
    }
}

/// A flat column that can be read under a cap is the same under every larger one.
pub proof fn law_chunk_values_cap(
    file: Seq<u8>,
    cc: ColumnChunkView,
    spec: PlainSpec,
    max_def: u32,
    cap: int,
    more: int,
)
    requires
        cap <= more,
        chunk_values(file, cc, spec, max_def, cap) is Ok,
    ensures
        chunk_values(file, cc, spec, max_def, more) == chunk_values(
            file,
            cc,
            spec,
            max_def,
            cap,
        ),
{
    reveal(chunk_values);
    let w = SizeWords {
        compressed: "dict page compressed"@,
        uncompressed: "dict page uncompressed"@,
    };
    lemma_dictionary(file, cc, spec, w, cap, more);
    lemma_flat_pages(
        file,
        cc.data_page_offset as int,
        cc,
        spec,
        max_def,
        dictionary(file, cc, spec, w, cap)->Ok_0,
        cc.num_values as int,
        seq![],
        cap,
        more,
    );
}

proof fn lemma_nested_page(
    file: Seq<u8>,
    off: int,
    cc: ColumnChunkView,
    spec: PlainSpec,
    max_def: u32,
    max_rep: u32,
    dict: Seq<PqV>,
    cap: int,
    more: int,
)
    requires
        cap <= more,
        nested_page_at(file, off, cc, spec, max_def, max_rep, dict, cap) is Ok,
    ensures
        nested_page_at(file, off, cc, spec, max_def, max_rep, dict, more) == nested_page_at(
            file,
            off,
            cc,
            spec,
            max_def,
            max_rep,
            dict,
            cap,
        ),
{
}

proof fn lemma_nested_pages(
    file: Seq<u8>,
    off: int,
    cc: ColumnChunkView,
    spec: PlainSpec,
    max_def: u32,
    max_rep: u32,
    dict: Seq<PqV>,
    want: int,
    have: Levels,
    cap: int,
    more: int,
)
    requires
        cap <= more,
        nested_pages(file, off, cc, spec, max_def, max_rep, dict, want, have, cap) is Ok,
    ensures
        nested_pages(file, off, cc, spec, max_def, max_rep, dict, want, have, more)
            == nested_pages(file, off, cc, spec, max_def, max_rep, dict, want, have, cap),
    decreases file.len() - off,
{
    if have.0.len() < want {
        lemma_nested_page(file, off, cc, spec, max_def, max_rep, dict, cap, more);
        match nested_page_at(file, off, cc, spec, max_def, max_rep, dict, cap) {
            Ok((l, next)) => {
                lemma_nested_pages(
                    file,
                    next,
                    cc,
                    spec,
                    max_def,
                    max_rep,
                    dict,
                    want,
                    (have.0 + l.0, have.1 + l.1, have.2 + l.2),
                    cap,
                    more,
                );
            },
            Err(_) => {},
        }
    }
}

/// A nested leaf that can be read under a cap is the same under every larger one.
pub proof fn law_chunk_levels_cap(
    file: Seq<u8>,
    cc: ColumnChunkView,
    spec: PlainSpec,
    max_def: u32,
    max_rep: u32,
    cap: int,
    more: int,
)
    requires
        cap <= more,
        chunk_levels(file, cc, spec, max_def, max_rep, cap) is Ok,
    ensures
        chunk_levels(file, cc, spec, max_def, max_rep, more) == chunk_levels(
            file,
            cc,
            spec,
            max_def,
            max_rep,
            cap,
        ),
{
    reveal(chunk_levels);
    let w = SizeWords {
        compressed: "nested dict page compressed"@,
        uncompressed: "nested dict page uncompressed"@,
    };
    lemma_dictionary(file, cc, spec, w, cap, more);
    lemma_nested_pages(
        file,
        cc.data_page_offset as int,
        cc,
        spec,
        max_def,
        max_rep,
        dictionary(file, cc, spec, w, cap)->Ok_0,
        cc.num_values as int,
        (seq![], seq![], seq![]),
        cap,
        more,
    );
}

/// All nested leaves at once.
proof fn lemma_levels(file: Seq<u8>, cap: int, more: int)
    requires
        cap <= more,
    ensures
        forall|cc: ColumnChunkView, spec: PlainSpec, d: u32, r: u32|
            (#[trigger] chunk_levels(file, cc, spec, d, r, cap)) is Ok ==> chunk_levels(
                file,
                cc,
                spec,
                d,
                r,
                more,
            ) == chunk_levels(file, cc, spec, d, r, cap),
{
    assert forall|cc: ColumnChunkView, spec: PlainSpec, d: u32, r: u32|
        (#[trigger] chunk_levels(file, cc, spec, d, r, cap)) is Ok implies chunk_levels(
        file,
        cc,
        spec,
        d,
        r,
        more,
    ) == chunk_levels(file, cc, spec, d, r, cap) by {
        law_chunk_levels_cap(file, cc, spec, d, r, cap, more);
    }
}

proof fn lemma_list(
    file: Seq<u8>,
    cc: ColumnChunkView,
    spec: PlainSpec,
    max_def: u32,
    max_rep: u32,
    opts: Seq<bool>,
    item_optional: bool,
    cap: int,
    more: int,
)
    requires
        cap <= more,
        list_column(file, cc, spec, max_def, max_rep, opts, item_optional, cap) is Ok,
    ensures
        list_column(file, cc, spec, max_def, max_rep, opts, item_optional, more) == list_column(
            file,
            cc,
            spec,
            max_def,
            max_rep,
            opts,
            item_optional,
            cap,
        ),
{
    reveal(list_column);
    lemma_levels(file, cap, more);
}

proof fn lemma_leaf_fields(
    file: Seq<u8>,
    g: RowGroupView,
    fields: Seq<FieldView>,
    k: nat,
    w: FieldWords,
    cap: int,
    more: int,
)
    requires
        cap <= more,
        leaf_fields(file, g, fields, k, w, cap) is Ok,
    ensures
        leaf_fields(file, g, fields, k, w, more) == leaf_fields(file, g, fields, k, w, cap),
    decreases k,
{
    if k > 0 {
        lemma_leaf_fields(file, g, fields, (k - 1) as nat, w, cap, more);
        lemma_levels(file, cap, more);
    }
}

proof fn lemma_fields(
    file: Seq<u8>,
    g: RowGroupView,
    fields: Seq<FieldView>,
    k: nat,
    cap: int,
    more: int,
)
    requires
        cap <= more,
        k <= fields.len(),
        field_columns(file, g, fields, k, cap) is Ok,
    ensures
        field_columns(file, g, fields, k, more) == field_columns(file, g, fields, k, cap),
    decreases fields, 0int, k,
{
    if k > 0 {
        lemma_fields(file, g, fields, (k - 1) as nat, cap, more);
        lemma_field(file, g, fields[k - 1], cap, more);
    }
}

proof fn lemma_field(file: Seq<u8>, g: RowGroupView, f: FieldView, cap: int, more: int)
    requires
        cap <= more,
        field_column(file, g, f, cap) is Ok,
    ensures
        field_column(file, g, f, more) == field_column(file, g, f, cap),
    decreases f, 0int, 0nat,
{
    match f.nested {
        Some(kind) => {
            law_kind_cap(file, g, *kind, cap, more);
        },
        None => {
            match crate::nested::located(g, f.chunk_path, f.ptype, crate::nested::struct_words()) {
                Ok(cc) => {
                    law_chunk_values_cap(file, cc, f.spec, f.max_def_level, cap, more);
                },
                Err(_) => {},
            }
        },
    }
}

/// A column of any shape that can be read under a cap is the same under every larger one.
pub proof fn law_kind_cap(file: Seq<u8>, g: RowGroupView, kind: KindView, cap: int, more: int)
    requires
        cap <= more,
        kind_column(file, g, kind, cap) is Ok,
    ensures
        kind_column(file, g, kind, more) == kind_column(file, g, kind, cap),
    decreases kind, 0int, 0nat,
{
    match kind {
        KindView::Flat { .. } => {},
        KindView::NestedListPrimitive {
            spec,
            ptype,
            max_def_level,
            max_rep_level,
            outer_optional,
            element_optional,
        } => {
            reveal(only_list_column);
            match crate::nested::only_element(
                g,
                ptype,
                "decode_list_primitive_in_rg: expected 1 candidate chunk, found "@,
            ) {
                Ok(cc) => lemma_list(
                    file,
                    cc,
                    spec,
                    max_def_level,
                    max_rep_level,
                    seq![outer_optional],
                    element_optional,
                    cap,
                    more,
                ),
                Err(_) => {},
            }
        },
        KindView::NestedMapKV { .. } => {
            reveal(map_column);
            lemma_levels(file, cap, more);
        },
        KindView::NestedStruct { outer_optional, fields } => {
            lemma_fields(file, g, fields, fields.len(), cap, more);
        },
        KindView::NestedListOfListPrimitive {
            spec,
            ptype,
            max_def_level,
            max_rep_level,
            outer_optional,
            inner_optional,
            item_optional,
        } => {
            reveal(only_list_column);
            match crate::nested::only_element(
                g,
                ptype,
                "decode_list_of_list_primitive_in_rg: expected 1 candidate, found "@,
            ) {
                Ok(cc) => lemma_list(
                    file,
                    cc,
                    spec,
                    max_def_level,
                    max_rep_level,
                    seq![outer_optional, inner_optional],
                    item_optional,
                    cap,
                    more,
                ),
                Err(_) => {},
            }
        },
        KindView::NestedListOfStruct { outer_optional, list_max_def_level, fields } => {
            reveal(list_of_struct_column);
            lemma_leaf_fields(
                file,
                g,
                fields,
                fields.len(),
                crate::nested::list_of_struct_words(),
                cap,
                more,
            );
        },
        KindView::NestedMapOfStruct { value_fields, .. } => {
            reveal(map_of_struct_column);
            lemma_levels(file, cap, more);
            lemma_leaf_fields(
                file,
                g,
                value_fields,
                value_fields.len(),
                crate::nested::map_of_struct_words(),
                cap,
                more,
            );
        },
        KindView::NestedMapOfList { .. } => {
            reveal(map_of_list_column);
            lemma_levels(file, cap, more);
        },
        KindView::NestedListOfListOfListPrimitive {
            spec,
            ptype,
            max_def_level,
            max_rep_level,
            outer_optional,
            middle_optional,
            inner_optional,
            item_optional,
        } => {
            reveal(only_list_column);
            match crate::nested::only_element(
                g,
                ptype,
                "decode_list_of_list_of_list_primitive_in_rg: expected 1 candidate, found "@,
            ) {
                Ok(cc) => lemma_list(
                    file,
                    cc,
                    spec,
                    max_def_level,
                    max_rep_level,
                    seq![outer_optional, middle_optional, inner_optional],
                    item_optional,
                    cap,
                    more,
                ),
                Err(_) => {},
            }
        },
        KindView::NestedListOfMap { .. } => {
            reveal(list_of_map_column);
            lemma_levels(file, cap, more);
        },
        KindView::NestedMapOfMap { .. } => {
            reveal(map_of_map_column);
            lemma_levels(file, cap, more);
        },
    }
}

proof fn lemma_plan(file: Seq<u8>, g: RowGroupView, plan: PlanView, cap: int, more: int)
    requires
        cap <= more,
        plan_column(file, g, plan, cap) is Ok,
    ensures
        plan_column(file, g, plan, more) == plan_column(file, g, plan, cap),
{
    match plan.kind {
        KindView::Flat { spec, ptype, max_def_level } => {
            let cc = crate::nested::located(
                g,
                plan.chunk_path,
                ptype,
                crate::extract::column_words(),
            )->Ok_0;
            law_chunk_values_cap(file, cc, spec, max_def_level, cap, more);
        },
        KindView::NestedListPrimitive {
            spec,
            ptype,
            max_def_level,
            max_rep_level,
            outer_optional,
            element_optional,
        } => {
            let cc = crate::nested::located(
                g,
                plan.chunk_path,
                ptype,
                crate::extract::column_words(),
            )->Ok_0;
            lemma_list(
                file,
                cc,
                spec,
                max_def_level,
                max_rep_level,
                seq![outer_optional],
                element_optional,
                cap,
                more,
            );
        },
        KindView::NestedListOfListPrimitive {
            spec,
            ptype,
            max_def_level,
            max_rep_level,
            outer_optional,
            inner_optional,
            item_optional,
        } => {
            let cc = crate::nested::located(
                g,
                plan.chunk_path,
                ptype,
                crate::extract::list_of_list_words(),
            )->Ok_0;
            lemma_list(
                file,
                cc,
                spec,
                max_def_level,
                max_rep_level,
                seq![outer_optional, inner_optional],
                item_optional,
                cap,
                more,
            );
        },
        KindView::NestedListOfListOfListPrimitive {
            spec,
            ptype,
            max_def_level,
            max_rep_level,
            outer_optional,
            middle_optional,
            inner_optional,
            item_optional,
        } => {
            let cc = crate::nested::located(
                g,
                plan.chunk_path,
                ptype,
                crate::extract::list_of_list_of_list_words(),
            )->Ok_0;
            lemma_list(
                file,
                cc,
                spec,
                max_def_level,
                max_rep_level,
                seq![outer_optional, middle_optional, inner_optional],
                item_optional,
                cap,
                more,
            );
        },
        _ => {
            law_kind_cap(file, g, plan.kind, cap, more);
        },
    }
}

proof fn lemma_column(file: Seq<u8>, g: RowGroupView, s: SourceView, cap: int, more: int)
    requires
        cap <= more,
        column_of(file, g, s, cap) is Ok,
    ensures
        column_of(file, g, s, more) == column_of(file, g, s, cap),
{
    match s {
        SourceView::Leaf { name, spec, ptype, max_def_level } => {
            let cc = crate::extract::named_from(g.columns, name, 0)->0;
            law_chunk_values_cap(file, cc, spec, max_def_level, cap, more);
        },
        SourceView::Shape(plan) => {
            lemma_plan(file, g, plan, cap, more);
        },
    }
}

proof fn lemma_group(
    file: Seq<u8>,
    g: RowGroupView,
    sources: Seq<SourceView>,
    k: nat,
    have: Seq<Seq<PqV>>,
    cap: int,
    more: int,
)
    requires
        cap <= more,
        with_group(file, g, sources, k, have, cap) is Ok,
    ensures
        with_group(file, g, sources, k, have, more) == with_group(
            file,
            g,
            sources,
            k,
            have,
            cap,
        ),
    decreases k,
{
    if k > 0 {
        lemma_group(file, g, sources, (k - 1) as nat, have, cap, more);
        lemma_column(file, g, sources[k - 1], cap, more);
    }
}

proof fn lemma_columns(
    file: Seq<u8>,
    row_groups: Seq<RowGroupView>,
    n: nat,
    sources: Seq<SourceView>,
    cap: int,
    more: int,
)
    requires
        cap <= more,
        columns_of(file, row_groups, n, sources, cap) is Ok,
    ensures
        columns_of(file, row_groups, n, sources, more) == columns_of(
            file,
            row_groups,
            n,
            sources,
            cap,
        ),
    decreases n,
{
    if n > 0 {
        lemma_columns(file, row_groups, (n - 1) as nat, sources, cap, more);
        let have = columns_of(file, row_groups, (n - 1) as nat, sources, cap)->Ok_0;
        lemma_group(file, row_groups[n - 1], sources, sources.len(), have, cap, more);
    }
}

/// Rows that can be read under a cap are the same under every larger one: raising the cap turns
/// failures into rows, and changes no row.
pub proof fn law_cap(file: Seq<u8>, wanted: Seq<Seq<char>>, cap: int, more: int)
    requires
        cap <= more,
        extracted(file, wanted, cap) is Ok,
    ensures
        extracted(file, wanted, more) == extracted(file, wanted, cap),
{
    let (a, b) = crate::footer::metadata_range(file)->Ok_0;
    let md = crate::meta::metadata_of(file.subrange(a, b))->Ok_0;
    let sources = crate::extract::sources_of(md, wanted, wanted.len())->Ok_0;
    lemma_columns(file, md.row_groups, md.row_groups.len(), sources, cap, more);
}

} // verus!
