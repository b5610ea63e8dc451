//! Leaves beside nested columns, and fields of structs that are themselves nested.
use vstd::prelude::*;

use crate::chunk::chunk_values;
use crate::classify::{
    level, list_plan, map_plan, nested_kind, node_name, optional, struct_field, struct_fields,
    struct_list_kind, struct_plan,
};
use crate::error::PqErrorView;
use crate::extract::{column_of, column_words, extracted, source_of, SourceView};
use crate::laws::fields::Datum;
use crate::laws::files::framed;
use crate::laws::nested_files::{law_single_column, single_rows, spec_at};
use crate::laws::plans::{column_at, lemma_leaf_at};
use crate::laws::shape_files::{
    chunk_for, elements_in, file_ok, law_located, leaf_part_rows, LeafPart,
};
use crate::laws::shapes::readable;
use crate::leaf::{find_leaf, plain_spec_of};
use crate::meta::{ColumnChunkView, FileMetaDataView, RowGroupView};
use crate::nested::{element_chunks, is_element, kind_column, list_column, only_list_column};
use crate::plain::PlainSpec;
use crate::plan::{FieldView, KindView, PlanView};
use crate::schema::{
    leaves_of, LogicalType, Repetition, SchemaElementView, SchemaLeafView, SchemaNodeView, Type,
};
use crate::value::PqV;

verus! {

/// A leaf right below the root of a nested schema is known for what it is.
pub proof fn law_leaf_schema(
    md: FileMetaDataView,
    s: Seq<SchemaElementView>,
    i: int,
    r: Seq<char>,
)
    requires
        0 <= i < s.len(),
        column_at(md, s, i, r),
        !md.flat_schema,
        readable(s[i], leaves_of(s)),
    ensures
        source_of(md, s[i].name) == Ok::<SourceView, PqErrorView>(
            SourceView::Shape(
                PlanView {
                    chunk_path: seq![s[i].name],
                    kind: KindView::Flat {
                        spec: spec_at(s, i),
                        ptype: s[i].ptype->Some_0,
                        max_def_level: level(optional(s[i].repetition)) as u32,
                    },
                },
            ),
        ),
{
    lemma_leaf_at(s, i, 0, 0, seq![r]);
    assert(seq![r].push(s[i].name).skip(1) =~= seq![s[i].name]);
}

/// Leaves that were written beside nested columns are read back from the file, one row group after the
/// other.
pub proof fn law_leaf_file(
    body: Seq<u8>,
    fields: Seq<(i16, Datum)>,
    md: FileMetaDataView,
    i: int,
    r: Seq<char>,
    parts: Seq<LeafPart>,
    cap: int,
)
    requires
        file_ok(body, fields, md),
        0 <= i < elements_in(fields).len(),
        column_at(md, elements_in(fields), i, r),
        !md.flat_schema,
        readable(elements_in(fields)[i], leaves_of(elements_in(fields))),
        parts.len() == md.row_groups.len(),
        forall|g: int|
            #![trigger parts[g]]
            0 <= g < parts.len() ==> {
                let e = elements_in(fields)[i];
                &&& chunk_for(md.row_groups[g], seq![e.name], e.ptype->Some_0, parts[g].leaf)
                &&& chunk_values(
                    framed(body, fields),
                    parts[g].leaf,
                    spec_at(elements_in(fields), i),
                    level(optional(e.repetition)) as u32,
                    cap,
                ) == Ok::<Seq<PqV>, PqErrorView>(parts[g].rows)
            },
    ensures
        extracted(framed(body, fields), seq![elements_in(fields)[i].name], cap) == Ok::<
            Seq<Seq<PqV>>,
            PqErrorView,
        >(single_rows(leaf_part_rows(parts))),
{
    let s = elements_in(fields);
    let file = framed(body, fields);
    law_leaf_schema(md, s, i, r);
    let source = source_of(md, s[i].name)->Ok_0;
    let rows = leaf_part_rows(parts);
    assert forall|g: int| 0 <= g < rows.len() implies column_of(
        file,
        md.row_groups[g],
        source,
        cap,
    ) == Ok::<Seq<PqV>, PqErrorView>(#[trigger] rows[g]) by {
        let part = parts[g];
        law_located(
            md.row_groups[g],
            seq![s[i].name],
            s[i].ptype->Some_0,
            part.leaf,
            column_words(),
        );
    }
    law_single_column(body, fields, md, s[i].name, source, rows, cap);
}

/// How the first leaf of the name is read.
pub open spec fn spec_named(leaves: Seq<SchemaLeafView>, name: Seq<char>) -> PlainSpec {
    plain_spec_of(find_leaf(leaves, name)->Some_0)->Ok_0
}

/// Whether the shape of a struct's field is that of the node. A leaf is found by its own path; a map, a
/// struct, and a list of groups have the shape that they have as columns; a list of leaves counts its
/// levels from the root.
pub open spec fn field_shape(f: FieldView, n: SchemaNodeView, leaves: Seq<SchemaLeafView>) -> bool {
    &&& f.name == node_name(n)
    &&& match n {
        SchemaNodeView::Leaf { name, ptype, repetition, max_def_level, path, .. } => f == (
        FieldView {
            name,
            chunk_path: if path.len() > 0 {
                path.skip(1)
            } else {
                path
            },
            spec: spec_named(leaves, name),
            ptype,
            max_def_level,
            optional: repetition == Repetition::Optional,
            nested: None,
        }),
        SchemaNodeView::Group { name, repetition, children, logical_type } => {
            &&& f.nested is Some
            &&& ({
                let kind = *f.nested->Some_0;
                match logical_type {
                    Some(LogicalType::MapKv) => map_plan(name, repetition, children, leaves) is Ok
                        && kind == map_plan(name, repetition, children, leaves)->Ok_0.kind,
                    None => struct_plan(name, repetition, children, leaves) is Ok && kind
                        == struct_plan(name, repetition, children, leaves)->Ok_0.kind,
                    Some(LogicalType::List) => {
                        let item = children[0]->children[0];
                        match item {
                            SchemaNodeView::Group { .. } => list_plan(
                                name,
                                repetition,
                                children,
                                leaves,
                            ) is Ok && kind == list_plan(
                                name,
                                repetition,
                                children,
                                leaves,
                            )->Ok_0.kind,
                            SchemaNodeView::Leaf {
                                name: leaf,
                                ptype,
                                repetition: rep,
                                max_def_level,
                                max_rep_level,
                                ..
                            } => kind == (KindView::NestedListPrimitive {
                                spec: spec_named(leaves, leaf),
                                ptype,
                                max_def_level,
                                max_rep_level,
                                outer_optional: repetition == Repetition::Optional,
                                element_optional: rep == Repetition::Optional,
                            }),
                        }
                    },
                }
            })
        },
    }
}

proof fn lemma_field(
    name: Seq<char>,
    o: bool,
    n: SchemaNodeView,
    leaves: Seq<SchemaLeafView>,
)
    requires
        struct_field(name, o, n, leaves) is Ok,
    ensures
        field_shape(struct_field(name, o, n, leaves)->Ok_0, n, leaves),
{
    match n {
        SchemaNodeView::Leaf { .. } => {},
        SchemaNodeView::Group { name: cname, repetition, children, logical_type } => {
            match logical_type {
                Some(LogicalType::List) => {
                    assert(nested_kind(n, leaves) == struct_list_kind(
                        cname,
                        optional(repetition),
                        children,
                        leaves,
                    ));
                },
                _ => {},
            }
        },
    }
}

proof fn lemma_fields(
    name: Seq<char>,
    o: bool,
    children: Seq<SchemaNodeView>,
    k: nat,
    leaves: Seq<SchemaLeafView>,
)
    requires
        k <= children.len(),
        struct_fields(name, o, children, k, leaves) is Ok,
    ensures
        ({
            let fields = struct_fields(name, o, children, k, leaves)->Ok_0;
            &&& fields.len() == k
            &&& forall|f: int|
                #![trigger fields[f]]
                0 <= f < k ==> field_shape(fields[f], children[f], leaves)
        }),
    decreases k,
{
    if k > 0 {
        let m = (k - 1) as nat;
        lemma_fields(name, o, children, m, leaves);
        lemma_field(name, o, children[m as int], leaves);
        let front = struct_fields(name, o, children, m, leaves)->Ok_0;
        let fields = struct_fields(name, o, children, k, leaves)->Ok_0;
        assert(fields =~= front.push(fields[m as int]));
        assert forall|f: int| #![trigger fields[f]] 0 <= f < k implies field_shape(
            fields[f],
            children[f],
            leaves,
        ) by {
            if f < m {
                assert(fields[f] == front[f]);
            }
        }
    }
}

/// A struct that is known for one has a field for each of its children, in order, of the child's shape,
/// however deep structs, lists and maps are nested in it.
pub proof fn law_struct_fields(
    name: Seq<char>,
    rep: Repetition,
    children: Seq<SchemaNodeView>,
    leaves: Seq<SchemaLeafView>,
)
    requires
        struct_plan(name, rep, children, leaves) is Ok,
    ensures
        ({
            let kind = struct_plan(name, rep, children, leaves)->Ok_0.kind;
            &&& kind is NestedStruct
            &&& kind->NestedStruct_outer_optional == (rep == Repetition::Optional)
            &&& kind->NestedStruct_fields.len() == children.len()
            &&& forall|f: int|
                #![trigger kind->NestedStruct_fields[f]]
                0 <= f < children.len() ==> field_shape(
                    kind->NestedStruct_fields[f],
                    children[f],
                    leaves,
                )
        }),
{
    lemma_fields(name, optional(rep), children, children.len(), leaves);
}

/// Whether the chunk at `j` is the only one of the type whose path ends in `element`.
pub open spec fn only_at(g: RowGroupView, ptype: Type, j: int) -> bool {
    &&& 0 <= j < g.columns.len()
    &&& forall|k: int|
        #![trigger g.columns[k]]
        0 <= k < g.columns.len() ==> (k == j <==> g.columns[k].ptype == ptype
            && g.columns[k].path.len() > 0 && g.columns[k].path.last() == seq![
            'e',
            'l',
            'e',
            'm',
            'e',
            'n',
            't',
        ])
}

proof fn lemma_only(g: RowGroupView, ptype: Type, j: int, k: int)
    requires
        only_at(g, ptype, j),
        0 <= k <= g.columns.len(),
    ensures
        element_chunks(g.columns, ptype, k) == if k > j {
            seq![g.columns[j]]
        } else {
            seq![]
        },
    decreases k,
{
    reveal_strlit("element");
    assert("element"@ =~= seq!['e', 'l', 'e', 'm', 'e', 'n', 't']);
    if k > 0 {
        lemma_only(g, ptype, j, k - 1);
        let cc = g.columns[k - 1];
        assert(is_element(cc, ptype) <==> k - 1 == j);
        if k - 1 == j {
            assert(Seq::<ColumnChunkView>::empty().push(cc) =~= seq![cc]);
        }
    }
}

/// A list inside a struct is read from the only chunk of its type that is a list's element, as a list
/// that is a column is read from its own chunk. So are lists of lists.
pub proof fn law_struct_list_field(file: Seq<u8>, g: RowGroupView, kind: KindView, j: int, cap: int)
    ensures
        kind matches KindView::NestedListPrimitive {
            spec,
            ptype,
            max_def_level,
            max_rep_level,
            outer_optional,
            element_optional,
        } ==> only_at(g, ptype, j) ==> kind_column(file, g, kind, cap) == list_column(
            file,
            g.columns[j],
            spec,
            max_def_level,
            max_rep_level,
            seq![outer_optional],
            element_optional,
            cap,
        ),
        kind matches KindView::NestedListOfListPrimitive {
            spec,
            ptype,
            max_def_level,
            max_rep_level,
            outer_optional,
            inner_optional,
            item_optional,
        } ==> only_at(g, ptype, j) ==> kind_column(file, g, kind, cap) == list_column(
            file,
            g.columns[j],
            spec,
            max_def_level,
            max_rep_level,
            seq![outer_optional, inner_optional],
            item_optional,
            cap,
        ),
        kind matches KindView::NestedListOfListOfListPrimitive {
            spec,
            ptype,
            max_def_level,
            max_rep_level,
            outer_optional,
            middle_optional,
            inner_optional,
            item_optional,
        } ==> only_at(g, ptype, j) ==> kind_column(file, g, kind, cap) == list_column(
            file,
            g.columns[j],
            spec,
            max_def_level,
            max_rep_level,
            seq![outer_optional, middle_optional, inner_optional],
            item_optional,
            cap,
        ),
{
    reveal(only_list_column);
    match kind {
        KindView::NestedListPrimitive { ptype, .. } => {
            if only_at(g, ptype, j) {
                lemma_only(g, ptype, j, g.columns.len() as int);
            }
        },
        KindView::NestedListOfListPrimitive { ptype, .. } => {
            if only_at(g, ptype, j) {
                lemma_only(g, ptype, j, g.columns.len() as int);
            }
        },
        KindView::NestedListOfListOfListPrimitive { ptype, .. } => {
            if only_at(g, ptype, j) {
                lemma_only(g, ptype, j, g.columns.len() as int);
            }
        },
        _ => {},
    }
}

} // verus!
