//! Whole files with a column of lists, maps and structs inside one another: what was written is read
//! back, keys as keys and values as values.
use vstd::prelude::*;

use crate::assembly::Shape;
use crate::chunk::{chunk_levels, chunk_values};
use crate::classify::{level, optional};
use crate::error::PqErrorView;
use crate::extract::{
    column_of, extracted, list_of_list_of_list_words, list_of_list_words, SourceView,
};
use crate::laws::fields::{datum_form, Datum};
use crate::laws::files::framed;
use crate::laws::lists::{
    law_list_column, law_list_of_map_column, law_map_of_list_column, law_map_of_map_column,
    levels_of, records_ok, Leaves,
};
use crate::laws::metadata::{file_after, file_fields_ok};
use crate::laws::nested_files::{law_single_column, single_rows, spec_at};
use crate::laws::nesting::{defs_from, items_from, keys_from, reps_from};
use crate::laws::plans::{
    column_at, fields_of_leaves, law_list_of_list_of_list_schema, law_list_of_list_schema,
    law_list_of_map_schema, law_list_of_struct_schema, law_map_of_list_schema,
    law_map_of_map_schema, law_map_of_struct_schema, law_struct_schema, plan_of_list_of_list,
    plan_of_list_of_list_of_list, plan_of_list_of_map, plan_of_list_of_struct, plan_of_map_of_list,
    plan_of_map_of_map, plan_of_map_of_struct, plan_of_struct, stores_list_of_list,
    stores_list_of_list_of_list, stores_list_of_map, stores_list_of_struct, stores_map_of_list,
    stores_map_of_map, stores_map_of_struct, stores_struct,
};
use crate::laws::struct_columns::{
    field_defs, field_of_rows, fields_stored, holds_column, law_list_of_struct_column,
    law_map_of_struct_column, law_struct_column, present, struct_records_ok, struct_row_ok,
};
use crate::laws::structs::columns_of_structs;
use crate::meta::{blank_file, metadata_with, ColumnChunkView, FileMetaDataView, RowGroupView};
use crate::nested::{
    chunk_from, entry_level, field_names, kind_column, list_of_struct_words, located,
    map_of_struct_words, no_maps, ChunkWords, FieldWords, MapOfMap,
};
use crate::page::Levels;
use crate::plan::FieldView;
use crate::schema::{SchemaElementView, Type};
use crate::value::PqV;

verus! {

/// Whether the row group's first chunk with the path is `cc`, and is of the type.
pub open spec fn chunk_for(
    g: RowGroupView,
    path: Seq<Seq<char>>,
    ptype: Type,
    cc: ColumnChunkView,
) -> bool {
    &&& cc.ptype == ptype
    &&& cc.path == path
    &&& exists|j: int|
        #![trigger g.columns[j]]
        0 <= j < g.columns.len() && g.columns[j] == cc && forall|k: int|
            #![trigger g.columns[k]]
            0 <= k < j ==> g.columns[k].path != path
}

proof fn lemma_chunk_from(g: RowGroupView, path: Seq<Seq<char>>, i: int, j: int)
    requires
        0 <= i <= j < g.columns.len(),
        g.columns[j].path == path,
        forall|k: int| #![trigger g.columns[k]] i <= k < j ==> g.columns[k].path != path,
    ensures
        chunk_from(g.columns, path, i) == Some(g.columns[j]),
    decreases j - i,
{
    if i < j {
        assert(g.columns[i].path != path);
        lemma_chunk_from(g, path, i + 1, j);
    }
}

proof fn lemma_chunk_for(g: RowGroupView, path: Seq<Seq<char>>, ptype: Type, cc: ColumnChunkView)
    requires
        chunk_for(g, path, ptype, cc),
    ensures
        chunk_from(g.columns, path, 0) == Some(cc),
{
    let j = choose|j: int|
        #![trigger g.columns[j]]
        0 <= j < g.columns.len() && g.columns[j] == cc && forall|k: int|
            #![trigger g.columns[k]]
            0 <= k < j ==> g.columns[k].path != path;
    lemma_chunk_from(g, path, 0, j);
}

/// A leaf is read from the first chunk of the row group that has its whole path, and only where that
/// chunk is of the leaf's type.
pub proof fn law_located(
    g: RowGroupView,
    path: Seq<Seq<char>>,
    ptype: Type,
    cc: ColumnChunkView,
    w: ChunkWords,
)
    ensures
        chunk_for(g, path, ptype, cc) ==> located(g, path, ptype, w) == Ok::<
            ColumnChunkView,
            PqErrorView,
        >(cc),
        located(g, path, ptype, w) == Ok::<ColumnChunkView, PqErrorView>(cc) ==> cc.path == path
            && cc.ptype == ptype && g.columns.contains(cc),
{
    if chunk_for(g, path, ptype, cc) {
        lemma_chunk_for(g, path, ptype, cc);
    }
    lemma_chunk_in(g.columns, path, 0);
}

proof fn lemma_chunk_in(columns: Seq<ColumnChunkView>, path: Seq<Seq<char>>, i: int)
    ensures
        chunk_from(columns, path, i) matches Some(cc) ==> columns.contains(cc) && cc.path == path,
    decreases columns.len() - i,
{
    if 0 <= i < columns.len() && columns[i].path != path {
        lemma_chunk_in(columns, path, i + 1);
    }
}

/// Whether the fields are those of a file's metadata, the metadata is what they say, and the file is
/// not too long.
pub open spec fn file_ok(body: Seq<u8>, fields: Seq<(i16, Datum)>, md: FileMetaDataView) -> bool {
    &&& file_fields_ok(fields)
    &&& datum_form(Datum::Struct(fields)).len() < 0x1_0000_0000
    &&& framed(body, fields).len() <= usize::MAX
    &&& metadata_with(file_after(blank_file(), fields, fields.len())) == md
}

/// The elements of the schema that the fields store.
pub open spec fn elements_in(fields: Seq<(i16, Datum)>) -> Seq<SchemaElementView> {
    file_after(blank_file(), fields, fields.len()).elements
}

/// What a row group holds of a column with one leaf: its chunk, and the rows.
pub struct LeafPart {
    pub leaf: ColumnChunkView,
    pub rows: Seq<PqV>,
}

/// The rows of each row group.
pub open spec fn leaf_part_rows(parts: Seq<LeafPart>) -> Seq<Seq<PqV>> {
    Seq::new(parts.len(), |g: int| parts[g].rows)
}

/// The shape of the list of lists at `i`.
pub open spec fn list_of_list_shape(s: Seq<SchemaElementView>, i: int) -> Shape {
    let o = optional(s[i].repetition);
    let n = optional(s[i + 2].repetition);
    let e = optional(s[i + 4].repetition);
    Shape {
        opts: seq![o, n],
        maps: seq![false, false],
        max_def: level(o) + level(n) + level(e) + 2,
        item_optional: e,
    }
}

/// Whether a row group stores the lists of lists.
pub open spec fn holds_list_of_list(
    file: Seq<u8>,
    g: RowGroupView,
    s: Seq<SchemaElementView>,
    i: int,
    part: LeafPart,
    cap: int,
) -> bool {
    let shape = list_of_list_shape(s, i);
    &&& records_ok(shape, part.rows)
    &&& chunk_for(
        g,
        seq![s[i].name, s[i + 1].name, s[i + 2].name, s[i + 3].name, s[i + 4].name],
        s[i + 4].ptype->Some_0,
        part.leaf,
    )
    &&& chunk_levels(file, part.leaf, spec_at(s, i + 4), shape.max_def as u32, 2, cap) == Ok::<
        Levels,
        PqErrorView,
    >(levels_of(shape, part.rows))
}

proof fn lemma_list_of_list_part(
    file: Seq<u8>,
    g: RowGroupView,
    s: Seq<SchemaElementView>,
    i: int,
    part: LeafPart,
    cap: int,
)
    requires
        holds_list_of_list(file, g, s, i, part, cap),
    ensures
        column_of(file, g, SourceView::Shape(plan_of_list_of_list(s, i)), cap) == Ok::<
            Seq<PqV>,
            PqErrorView,
        >(part.rows),
{
    let plan = plan_of_list_of_list(s, i);
    let shape = list_of_list_shape(s, i);
    law_located(g, plan.chunk_path, s[i + 4].ptype->Some_0, part.leaf, list_of_list_words());
    assert(shape.maps =~= no_maps(2));
    law_list_column(file, part.leaf, spec_at(s, i + 4), shape, 2, part.rows, cap);
}

/// Lists of lists of leaves that were written are read back from the file, one row group after the
/// other.
pub proof fn law_list_of_list_file(
    body: Seq<u8>,
    fields: Seq<(i16, Datum)>,
    md: FileMetaDataView,
    i: int,
    r: Seq<char>,
    parts: Seq<LeafPart>,
    cap: int,
)
    requires
        file_ok(body, fields, md),
        column_at(md, elements_in(fields), i, r),
        stores_list_of_list(elements_in(fields), i),
        parts.len() == md.row_groups.len(),
        forall|g: int|
            #![trigger parts[g]]
            0 <= g < parts.len() ==> holds_list_of_list(
                framed(body, fields),
                md.row_groups[g],
                elements_in(fields),
                i,
                parts[g],
                cap,
            ),
    ensures
        extracted(framed(body, fields), seq![elements_in(fields)[i].name], cap) == Ok::<
            Seq<Seq<PqV>>,
            PqErrorView,
        >(single_rows(leaf_part_rows(parts))),
{
    let s = elements_in(fields);
    let file = framed(body, fields);
    let source = SourceView::Shape(plan_of_list_of_list(s, i));
    law_list_of_list_schema(md, s, i, r);
    let rows = leaf_part_rows(parts);
    assert forall|g: int| 0 <= g < rows.len() implies column_of(
        file,
        md.row_groups[g],
        source,
        cap,
    ) == Ok::<Seq<PqV>, PqErrorView>(#[trigger] rows[g]) by {
        let part = parts[g];
        assert(holds_list_of_list(file, md.row_groups[g], s, i, part, cap));
        lemma_list_of_list_part(file, md.row_groups[g], s, i, part, cap);
    }
    law_single_column(body, fields, md, s[i].name, source, rows, cap);
}

/// The shape of the list of lists of lists at `i`.
pub open spec fn list_of_list_of_list_shape(s: Seq<SchemaElementView>, i: int) -> Shape {
    let o = optional(s[i].repetition);
    let m = optional(s[i + 2].repetition);
    let n = optional(s[i + 4].repetition);
    let e = optional(s[i + 6].repetition);
    Shape {
        opts: seq![o, m, n],
        maps: seq![false, false, false],
        max_def: level(o) + level(m) + level(n) + level(e) + 3,
        item_optional: e,
    }
}

/// Whether a row group stores the lists of lists of lists.
pub open spec fn holds_list_of_list_of_list(
    file: Seq<u8>,
    g: RowGroupView,
    s: Seq<SchemaElementView>,
    i: int,
    part: LeafPart,
    cap: int,
) -> bool {
    let shape = list_of_list_of_list_shape(s, i);
    &&& records_ok(shape, part.rows)
    &&& chunk_for(
        g,
        seq![
            s[i].name,
            s[i + 1].name,
            s[i + 2].name,
            s[i + 3].name,
            s[i + 4].name,
            s[i + 5].name,
            s[i + 6].name,
        ],
        s[i + 6].ptype->Some_0,
        part.leaf,
    )
    &&& chunk_levels(file, part.leaf, spec_at(s, i + 6), shape.max_def as u32, 3, cap) == Ok::<
        Levels,
        PqErrorView,
    >(levels_of(shape, part.rows))
}

proof fn lemma_list_of_list_of_list_part(
    file: Seq<u8>,
    g: RowGroupView,
    s: Seq<SchemaElementView>,
    i: int,
    part: LeafPart,
    cap: int,
)
    requires
        holds_list_of_list_of_list(file, g, s, i, part, cap),
    ensures
        column_of(file, g, SourceView::Shape(plan_of_list_of_list_of_list(s, i)), cap) == Ok::<
            Seq<PqV>,
            PqErrorView,
        >(part.rows),
{
    let plan = plan_of_list_of_list_of_list(s, i);
    let shape = list_of_list_of_list_shape(s, i);
    law_located(g, plan.chunk_path, s[i + 6].ptype->Some_0, part.leaf, list_of_list_of_list_words());
    assert(shape.maps =~= no_maps(3));
    law_list_column(file, part.leaf, spec_at(s, i + 6), shape, 3, part.rows, cap);
}

/// Lists of lists of lists of leaves that were written are read back from the file, one row group
/// after the other.
pub proof fn law_list_of_list_of_list_file(
    body: Seq<u8>,
    fields: Seq<(i16, Datum)>,
    md: FileMetaDataView,
    i: int,
    r: Seq<char>,
    parts: Seq<LeafPart>,
    cap: int,
)
    requires
        file_ok(body, fields, md),
        column_at(md, elements_in(fields), i, r),
        stores_list_of_list_of_list(elements_in(fields), i),
        parts.len() == md.row_groups.len(),
        forall|g: int|
            #![trigger parts[g]]
            0 <= g < parts.len() ==> holds_list_of_list_of_list(
                framed(body, fields),
                md.row_groups[g],
                elements_in(fields),
                i,
                parts[g],
                cap,
            ),
    ensures
        extracted(framed(body, fields), seq![elements_in(fields)[i].name], cap) == Ok::<
            Seq<Seq<PqV>>,
            PqErrorView,
        >(single_rows(leaf_part_rows(parts))),
{
    let s = elements_in(fields);
    let file = framed(body, fields);
    let source = SourceView::Shape(plan_of_list_of_list_of_list(s, i));
    law_list_of_list_of_list_schema(md, s, i, r);
    let rows = leaf_part_rows(parts);
    assert forall|g: int| 0 <= g < rows.len() implies column_of(
        file,
        md.row_groups[g],
        source,
        cap,
    ) == Ok::<Seq<PqV>, PqErrorView>(#[trigger] rows[g]) by {
        let part = parts[g];
        assert(holds_list_of_list_of_list(file, md.row_groups[g], s, i, part, cap));
        lemma_list_of_list_of_list_part(file, md.row_groups[g], s, i, part, cap);
    }
    law_single_column(body, fields, md, s[i].name, source, rows, cap);
}

/// What a row group holds of a column with a key leaf and a value leaf: their chunks, the levels of
/// the keys, and the rows.
pub struct PairPart {
    pub key: ColumnChunkView,
    pub key_reps: Seq<u32>,
    pub key_defs: Seq<u32>,
    pub value: ColumnChunkView,
    pub rows: Seq<PqV>,
}

/// The rows of each row group.
pub open spec fn pair_part_rows(parts: Seq<PairPart>) -> Seq<Seq<PqV>> {
    Seq::new(parts.len(), |g: int| parts[g].rows)
}

/// The shape of the list of maps at `i`.
pub open spec fn list_of_map_shape(s: Seq<SchemaElementView>, i: int) -> Shape {
    let o = optional(s[i].repetition);
    let v = optional(s[i + 5].repetition);
    Shape {
        opts: seq![o, false],
        maps: seq![false, true],
        max_def: level(o) + level(v) + 2,
        item_optional: v,
    }
}

/// Whether a row group stores the lists of maps: the first leaf of an entry holds the keys, the second
/// the values.
pub open spec fn holds_list_of_map(
    file: Seq<u8>,
    g: RowGroupView,
    s: Seq<SchemaElementView>,
    i: int,
    part: PairPart,
    cap: int,
) -> bool {
    let shape = list_of_map_shape(s, i);
    let path = seq![s[i].name, s[i + 1].name, s[i + 2].name, s[i + 3].name];
    &&& records_ok(shape, part.rows)
    &&& chunk_for(g, path.push(s[i + 4].name), s[i + 4].ptype->Some_0, part.key)
    &&& chunk_for(g, path.push(s[i + 5].name), s[i + 5].ptype->Some_0, part.value)
    &&& part.key_reps == reps_from(shape, part.rows, 0)
    &&& chunk_levels(
        file,
        part.key,
        spec_at(s, i + 4),
        (level(shape.opts[0]) + 2) as u32,
        2,
        cap,
    ) == Ok::<Levels, PqErrorView>(
        (part.key_reps, part.key_defs, keys_from(shape, part.rows, 0, 1)),
    )
    &&& chunk_levels(file, part.value, spec_at(s, i + 5), shape.max_def as u32, 2, cap) == Ok::<
        Levels,
        PqErrorView,
    >(levels_of(shape, part.rows))
}

/// Lists of maps of leaves that were written are read back from the file, one row group after the
/// other: keys come out as keys, and values as values.
#[verifier::rlimit(40)]
pub proof fn law_list_of_map_file(
    body: Seq<u8>,
    fields: Seq<(i16, Datum)>,
    md: FileMetaDataView,
    i: int,
    r: Seq<char>,
    parts: Seq<PairPart>,
    cap: int,
)
    requires
        file_ok(body, fields, md),
        column_at(md, elements_in(fields), i, r),
        stores_list_of_map(elements_in(fields), i),
        parts.len() == md.row_groups.len(),
        forall|g: int|
            #![trigger parts[g]]
            0 <= g < parts.len() ==> holds_list_of_map(
                framed(body, fields),
                md.row_groups[g],
                elements_in(fields),
                i,
                parts[g],
                cap,
            ),
    ensures
        extracted(framed(body, fields), seq![elements_in(fields)[i].name], cap) == Ok::<
            Seq<Seq<PqV>>,
            PqErrorView,
        >(single_rows(pair_part_rows(parts))),
{
    let s = elements_in(fields);
    let file = framed(body, fields);
    let plan = plan_of_list_of_map(s, i);
    let source = SourceView::Shape(plan);
    let shape = list_of_map_shape(s, i);
    let path = seq![s[i].name, s[i + 1].name, s[i + 2].name, s[i + 3].name];
    let key = seq![s[i].name, s[i + 1].name, s[i + 2].name, s[i + 3].name, s[i + 4].name];
    let m = Leaves {
        key_path: key,
        value_path: plan.chunk_path,
        key_spec: spec_at(s, i + 4),
        value_spec: spec_at(s, i + 5),
        key_ptype: s[i + 4].ptype->Some_0,
        value_ptype: s[i + 5].ptype->Some_0,
    };
    assert(path.push(s[i + 4].name) =~= key);
    assert(path.push(s[i + 5].name) =~= plan.chunk_path);
    law_list_of_map_schema(md, s, i, r);
    let rows = pair_part_rows(parts);
    assert forall|g: int| 0 <= g < rows.len() implies column_of(
        file,
        md.row_groups[g],
        source,
        cap,
    ) == Ok::<Seq<PqV>, PqErrorView>(#[trigger] rows[g]) by {
        let part = parts[g];
        let group = md.row_groups[g];
        assert(holds_list_of_map(file, group, s, i, part, cap));
        lemma_chunk_for(group, m.key_path, m.key_ptype, part.key);
        lemma_chunk_for(group, m.value_path, m.value_ptype, part.value);
        assert(entry_level(shape.opts[0], 2) == level(shape.opts[0]) + 2);
        law_list_of_map_column(
            file,
            group,
            m,
            part.key,
            part.value,
            shape,
            part.key_defs,
            part.rows,
            cap,
        );
        assert(kind_column(file, group, plan.kind, cap) == Ok::<Seq<PqV>, PqErrorView>(part.rows));
    }
    law_single_column(body, fields, md, s[i].name, source, rows, cap);
}

/// The shape of the map to lists at `i`.
pub open spec fn map_of_list_shape(s: Seq<SchemaElementView>, i: int) -> Shape {
    let o = optional(s[i].repetition);
    let e = optional(s[i + 5].repetition);
    Shape {
        opts: seq![o, false],
        maps: seq![true, false],
        max_def: level(o) + level(e) + 2,
        item_optional: e,
    }
}

/// Whether a row group stores the maps to lists.
pub open spec fn holds_map_of_list(
    file: Seq<u8>,
    g: RowGroupView,
    s: Seq<SchemaElementView>,
    i: int,
    part: PairPart,
    cap: int,
) -> bool {
    let shape = map_of_list_shape(s, i);
    &&& records_ok(shape, part.rows)
    &&& chunk_for(
        g,
        seq![s[i].name, s[i + 1].name, s[i + 2].name],
        s[i + 2].ptype->Some_0,
        part.key,
    )
    &&& chunk_for(
        g,
        seq![s[i].name, s[i + 1].name, s[i + 3].name, s[i + 4].name, s[i + 5].name],
        s[i + 5].ptype->Some_0,
        part.value,
    )
    &&& chunk_levels(
        file,
        part.key,
        spec_at(s, i + 2),
        (level(shape.opts[0]) + 1) as u32,
        1,
        cap,
    ) == Ok::<Levels, PqErrorView>(
        (part.key_reps, part.key_defs, keys_from(shape, part.rows, 0, 0)),
    )
    &&& chunk_levels(file, part.value, spec_at(s, i + 5), shape.max_def as u32, 2, cap) == Ok::<
        Levels,
        PqErrorView,
    >(levels_of(shape, part.rows))
}

/// Maps from a leaf to lists of leaves that were written are read back from the file, one row group
/// after the other.
pub proof fn law_map_of_list_file(
    body: Seq<u8>,
    fields: Seq<(i16, Datum)>,
    md: FileMetaDataView,
    i: int,
    r: Seq<char>,
    parts: Seq<PairPart>,
    cap: int,
)
    requires
        file_ok(body, fields, md),
        column_at(md, elements_in(fields), i, r),
        stores_map_of_list(elements_in(fields), i),
        parts.len() == md.row_groups.len(),
        forall|g: int|
            #![trigger parts[g]]
            0 <= g < parts.len() ==> holds_map_of_list(
                framed(body, fields),
                md.row_groups[g],
                elements_in(fields),
                i,
                parts[g],
                cap,
            ),
    ensures
        extracted(framed(body, fields), seq![elements_in(fields)[i].name], cap) == Ok::<
            Seq<Seq<PqV>>,
            PqErrorView,
        >(single_rows(pair_part_rows(parts))),
{
    let s = elements_in(fields);
    let file = framed(body, fields);
    let plan = plan_of_map_of_list(s, i);
    let source = SourceView::Shape(plan);
    let shape = map_of_list_shape(s, i);
    let m = Leaves {
        key_path: seq![s[i].name, s[i + 1].name, s[i + 2].name],
        value_path: plan.chunk_path,
        key_spec: spec_at(s, i + 2),
        value_spec: spec_at(s, i + 5),
        key_ptype: s[i + 2].ptype->Some_0,
        value_ptype: s[i + 5].ptype->Some_0,
    };
    law_map_of_list_schema(md, s, i, r);
    let rows = pair_part_rows(parts);
    assert forall|g: int| 0 <= g < rows.len() implies column_of(
        file,
        md.row_groups[g],
        source,
        cap,
    ) == Ok::<Seq<PqV>, PqErrorView>(#[trigger] rows[g]) by {
        let part = parts[g];
        let group = md.row_groups[g];
        assert(holds_map_of_list(file, group, s, i, part, cap));
        lemma_chunk_for(group, m.key_path, m.key_ptype, part.key);
        lemma_chunk_for(group, m.value_path, m.value_ptype, part.value);
        assert(entry_level(shape.opts[0], 1) == level(shape.opts[0]) + 1);
        law_map_of_list_column(
            file,
            group,
            m,
            part.key,
            part.value,
            shape,
            (part.key_reps, part.key_defs),
            part.rows,
            cap,
        );
        assert(kind_column(file, group, plan.kind, cap) == Ok::<Seq<PqV>, PqErrorView>(part.rows));
    }
    law_single_column(body, fields, md, s[i].name, source, rows, cap);
}

/// What a row group holds of a map to maps: the chunks, the levels of the keys, and the rows.
pub struct MapsPart {
    pub outer: ColumnChunkView,
    pub outer_reps: Seq<u32>,
    pub outer_defs: Seq<u32>,
    pub key: ColumnChunkView,
    pub key_defs: Seq<u32>,
    pub value: ColumnChunkView,
    pub rows: Seq<PqV>,
}

/// The rows of each row group.
pub open spec fn maps_part_rows(parts: Seq<MapsPart>) -> Seq<Seq<PqV>> {
    Seq::new(parts.len(), |g: int| parts[g].rows)
}

/// The shape of the map to maps at `i`.
pub open spec fn map_of_map_shape(s: Seq<SchemaElementView>, i: int) -> Shape {
    let o = optional(s[i].repetition);
    let v = optional(s[i + 6].repetition);
    Shape {
        opts: seq![o, false],
        maps: seq![true, true],
        max_def: level(o) + level(v) + 2,
        item_optional: v,
    }
}

/// Whether a row group stores the maps to maps: of the inner leaves, the first holds the keys, the
/// second the values.
pub open spec fn holds_map_of_map(
    file: Seq<u8>,
    g: RowGroupView,
    s: Seq<SchemaElementView>,
    i: int,
    part: MapsPart,
    cap: int,
) -> bool {
    let shape = map_of_map_shape(s, i);
    let o = level(shape.opts[0]);
    &&& records_ok(shape, part.rows)
    &&& chunk_for(
        g,
        seq![s[i].name, s[i + 1].name, s[i + 2].name],
        s[i + 2].ptype->Some_0,
        part.outer,
    )
    &&& chunk_for(
        g,
        seq![s[i].name, s[i + 1].name, s[i + 3].name, s[i + 4].name, s[i + 5].name],
        s[i + 5].ptype->Some_0,
        part.key,
    )
    &&& chunk_for(
        g,
        seq![s[i].name, s[i + 1].name, s[i + 3].name, s[i + 4].name, s[i + 6].name],
        s[i + 6].ptype->Some_0,
        part.value,
    )
    &&& chunk_levels(file, part.outer, spec_at(s, i + 2), (o + 1) as u32, 1, cap) == Ok::<
        Levels,
        PqErrorView,
    >((part.outer_reps, part.outer_defs, keys_from(shape, part.rows, 0, 0)))
    &&& chunk_levels(file, part.key, spec_at(s, i + 5), (o + 2) as u32, 2, cap) == Ok::<
        Levels,
        PqErrorView,
    >((reps_from(shape, part.rows, 0), part.key_defs, keys_from(shape, part.rows, 0, 1)))
    &&& chunk_levels(file, part.value, spec_at(s, i + 6), shape.max_def as u32, 2, cap) == Ok::<
        Levels,
        PqErrorView,
    >(levels_of(shape, part.rows))
}

/// Maps from a leaf to maps of leaves that were written are read back from the file, one row group
/// after the other: keys come out as keys, and values as values.
#[verifier::rlimit(40)]
pub proof fn law_map_of_map_file(
    body: Seq<u8>,
    fields: Seq<(i16, Datum)>,
    md: FileMetaDataView,
    i: int,
    r: Seq<char>,
    parts: Seq<MapsPart>,
    cap: int,
)
    requires
        file_ok(body, fields, md),
        column_at(md, elements_in(fields), i, r),
        stores_map_of_map(elements_in(fields), i),
        parts.len() == md.row_groups.len(),
        forall|g: int|
            #![trigger parts[g]]
            0 <= g < parts.len() ==> holds_map_of_map(
                framed(body, fields),
                md.row_groups[g],
                elements_in(fields),
                i,
                parts[g],
                cap,
            ),
    ensures
        extracted(framed(body, fields), seq![elements_in(fields)[i].name], cap) == Ok::<
            Seq<Seq<PqV>>,
            PqErrorView,
        >(single_rows(maps_part_rows(parts))),
{
    let s = elements_in(fields);
    let file = framed(body, fields);
    let plan = plan_of_map_of_map(s, i);
    let source = SourceView::Shape(plan);
    let shape = map_of_map_shape(s, i);
    let m = MapOfMap {
        outer_key_path: seq![s[i].name, s[i + 1].name, s[i + 2].name],
        inner_key_path: seq![
            s[i].name,
            s[i + 1].name,
            s[i + 3].name,
            s[i + 4].name,
            s[i + 5].name,
        ],
        inner_value_path: plan.chunk_path,
        outer_key_spec: spec_at(s, i + 2),
        inner_key_spec: spec_at(s, i + 5),
        inner_value_spec: spec_at(s, i + 6),
        outer_key_ptype: s[i + 2].ptype->Some_0,
        inner_key_ptype: s[i + 5].ptype->Some_0,
        inner_value_ptype: s[i + 6].ptype->Some_0,
    };
    law_map_of_map_schema(md, s, i, r);
    let rows = maps_part_rows(parts);
    assert forall|g: int| 0 <= g < rows.len() implies column_of(
        file,
        md.row_groups[g],
        source,
        cap,
    ) == Ok::<Seq<PqV>, PqErrorView>(#[trigger] rows[g]) by {
        let part = parts[g];
        let group = md.row_groups[g];
        assert(holds_map_of_map(file, group, s, i, part, cap));
        lemma_chunk_for(group, m.outer_key_path, m.outer_key_ptype, part.outer);
        lemma_chunk_for(group, m.inner_key_path, m.inner_key_ptype, part.key);
        lemma_chunk_for(group, m.inner_value_path, m.inner_value_ptype, part.value);
        assert(entry_level(shape.opts[0], 1) == level(shape.opts[0]) + 1);
        assert(entry_level(shape.opts[0], 2) == level(shape.opts[0]) + 2);
        law_map_of_map_column(
            file,
            group,
            m,
            (part.outer, part.key, part.value),
            shape,
            (part.outer_reps, part.outer_defs),
            part.key_defs,
            part.rows,
            cap,
        );
        assert(kind_column(file, group, plan.kind, cap) == Ok::<Seq<PqV>, PqErrorView>(part.rows));
    }
    law_single_column(body, fields, md, s[i].name, source, rows, cap);
}

/// What a row group holds of structs: the chunks of the fields, the chunk and the levels of the keys
/// where the structs are the values of a map, and the rows.
pub struct StructsPart {
    pub key: ColumnChunkView,
    pub key_defs: Seq<u32>,
    pub chunks: Seq<ColumnChunkView>,
    pub rows: Seq<PqV>,
}

/// The rows of each row group.
pub open spec fn structs_part_rows(parts: Seq<StructsPart>) -> Seq<Seq<PqV>> {
    Seq::new(parts.len(), |g: int| parts[g].rows)
}

/// Whether the leaf of each field, which is found by its path, stores the field's column beside the
/// levels of the structs, which are there at the level `inner`.
pub open spec fn holds_fields(
    file: Seq<u8>,
    g: RowGroupView,
    fields: Seq<FieldView>,
    chunks: Seq<ColumnChunkView>,
    inner: u32,
    shape: Shape,
    rows: Seq<PqV>,
    cap: int,
) -> bool {
    let columns = columns_of_structs(items_from(shape, rows, 0), fields.len());
    let defs = defs_from(shape, rows, 0);
    forall|f: int|
        #![trigger fields[f]]
        0 <= f < fields.len() ==> {
            let field = fields[f];
            let max = field.max_def_level;
            &&& chunk_for(g, field.chunk_path, field.ptype, chunks[f])
            &&& holds_column(inner, max, columns[f])
            &&& chunk_levels(file, chunks[f], field.spec, max, 1, cap) == Ok::<Levels, PqErrorView>(
                (
                    reps_from(shape, rows, 0),
                    field_defs(defs, inner, max, columns[f]),
                    present(columns[f]),
                ),
            )
        }
}

proof fn lemma_holds_fields(
    file: Seq<u8>,
    g: RowGroupView,
    s: Seq<SchemaElementView>,
    i: int,
    n: nat,
    path: Seq<Seq<char>>,
    chunks: Seq<ColumnChunkView>,
    inner: u32,
    shape: Shape,
    rows: Seq<PqV>,
    w: FieldWords,
    cap: int,
)
    requires
        inner < 100,
        holds_fields(
            file,
            g,
            fields_of_leaves(s, i, n, inner as int, path),
            chunks,
            inner,
            shape,
            rows,
            cap,
        ),
    ensures
        fields_stored(
            file,
            g,
            fields_of_leaves(s, i, n, inner as int, path),
            w,
            chunks,
            inner,
            reps_from(shape, rows, 0),
            defs_from(shape, rows, 0),
            columns_of_structs(items_from(shape, rows, 0), n),
            cap,
        ),
{
    let fields = fields_of_leaves(s, i, n, inner as int, path);
    assert(fields.len() == n);
    assert forall|f: int| #![trigger fields[f]] 0 <= f < fields.len() implies located(
        g,
        fields[f].chunk_path,
        fields[f].ptype,
        w.chunk,
    ) == Ok::<ColumnChunkView, PqErrorView>(chunks[f]) by {
        lemma_chunk_for(g, fields[f].chunk_path, fields[f].ptype, chunks[f]);
    }
}

/// The shape of the structs in a list or a map at `i`.
pub open spec fn structs_shape(s: Seq<SchemaElementView>, i: int, map: bool) -> Shape {
    let o = optional(s[i].repetition);
    Shape { opts: seq![o], maps: seq![map], max_def: level(o) + 1, item_optional: false }
}

/// The names of the `n` elements from `i` on.
pub open spec fn names_from(s: Seq<SchemaElementView>, i: int, n: nat) -> Seq<Seq<char>> {
    Seq::new(n, |f: int| s[i + f].name)
}

/// Whether a row group stores the lists of structs.
pub open spec fn holds_list_of_struct(
    file: Seq<u8>,
    g: RowGroupView,
    s: Seq<SchemaElementView>,
    i: int,
    n: nat,
    part: StructsPart,
    cap: int,
) -> bool {
    let shape = structs_shape(s, i, false);
    let inner = level(shape.opts[0]) + 1;
    let path = seq![s[i].name, s[i + 1].name, s[i + 2].name];
    &&& struct_records_ok(shape, part.rows, names_from(s, i + 3, n))
    &&& holds_fields(
        file,
        g,
        fields_of_leaves(s, i + 3, n, inner, path),
        part.chunks,
        inner as u32,
        shape,
        part.rows,
        cap,
    )
}

/// Lists of structs of leaves that were written are read back from the file, one row group after the
/// other: each field under its own name.
pub proof fn law_list_of_struct_file(
    body: Seq<u8>,
    fields: Seq<(i16, Datum)>,
    md: FileMetaDataView,
    i: int,
    n: nat,
    r: Seq<char>,
    parts: Seq<StructsPart>,
    cap: int,
)
    requires
        file_ok(body, fields, md),
        column_at(md, elements_in(fields), i, r),
        stores_list_of_struct(elements_in(fields), i, n),
        parts.len() == md.row_groups.len(),
        forall|g: int|
            #![trigger parts[g]]
            0 <= g < parts.len() ==> holds_list_of_struct(
                framed(body, fields),
                md.row_groups[g],
                elements_in(fields),
                i,
                n,
                parts[g],
                cap,
            ),
    ensures
        extracted(framed(body, fields), seq![elements_in(fields)[i].name], cap) == Ok::<
            Seq<Seq<PqV>>,
            PqErrorView,
        >(single_rows(structs_part_rows(parts))),
{
    let s = elements_in(fields);
    let file = framed(body, fields);
    let plan = plan_of_list_of_struct(s, i, n);
    let source = SourceView::Shape(plan);
    let shape = structs_shape(s, i, false);
    let inner = (level(shape.opts[0]) + 1) as u32;
    let path = seq![s[i].name, s[i + 1].name, s[i + 2].name];
    let views = fields_of_leaves(s, i + 3, n, inner as int, path);
    assert(field_names(views) =~= names_from(s, i + 3, n));
    law_list_of_struct_schema(md, s, i, n, r);
    let rows = structs_part_rows(parts);
    assert forall|g: int| 0 <= g < rows.len() implies column_of(
        file,
        md.row_groups[g],
        source,
        cap,
    ) == Ok::<Seq<PqV>, PqErrorView>(#[trigger] rows[g]) by {
        let part = parts[g];
        let group = md.row_groups[g];
        assert(holds_list_of_struct(file, group, s, i, n, part, cap));
        lemma_holds_fields(
            file,
            group,
            s,
            i + 3,
            n,
            path,
            part.chunks,
            inner,
            shape,
            part.rows,
            list_of_struct_words(),
            cap,
        );
        law_list_of_struct_column(file, group, views, part.chunks, shape, part.rows, cap);
        assert(kind_column(file, group, plan.kind, cap) == Ok::<Seq<PqV>, PqErrorView>(part.rows));
    }
    law_single_column(body, fields, md, s[i].name, source, rows, cap);
}

/// Whether a row group stores the maps to structs.
pub open spec fn holds_map_of_struct(
    file: Seq<u8>,
    g: RowGroupView,
    s: Seq<SchemaElementView>,
    i: int,
    n: nat,
    part: StructsPart,
    cap: int,
) -> bool {
    let shape = structs_shape(s, i, true);
    let inner = level(shape.opts[0]) + 1;
    let path = seq![s[i].name, s[i + 1].name, s[i + 3].name];
    &&& struct_records_ok(shape, part.rows, names_from(s, i + 4, n))
    &&& chunk_for(
        g,
        seq![s[i].name, s[i + 1].name, s[i + 2].name],
        s[i + 2].ptype->Some_0,
        part.key,
    )
    &&& chunk_levels(file, part.key, spec_at(s, i + 2), inner as u32, 1, cap) == Ok::<
        Levels,
        PqErrorView,
    >((reps_from(shape, part.rows, 0), part.key_defs, keys_from(shape, part.rows, 0, 0)))
    &&& holds_fields(
        file,
        g,
        fields_of_leaves(s, i + 4, n, inner, path),
        part.chunks,
        inner as u32,
        shape,
        part.rows,
        cap,
    )
}

/// Maps from a leaf to structs of leaves that were written are read back from the file, one row group
/// after the other: each field under its own name.
pub proof fn law_map_of_struct_file(
    body: Seq<u8>,
    fields: Seq<(i16, Datum)>,
    md: FileMetaDataView,
    i: int,
    n: nat,
    r: Seq<char>,
    parts: Seq<StructsPart>,
    cap: int,
)
    requires
        file_ok(body, fields, md),
        column_at(md, elements_in(fields), i, r),
        stores_map_of_struct(elements_in(fields), i, n),
        parts.len() == md.row_groups.len(),
        forall|g: int|
            #![trigger parts[g]]
            0 <= g < parts.len() ==> holds_map_of_struct(
                framed(body, fields),
                md.row_groups[g],
                elements_in(fields),
                i,
                n,
                parts[g],
                cap,
            ),
    ensures
        extracted(framed(body, fields), seq![elements_in(fields)[i].name], cap) == Ok::<
            Seq<Seq<PqV>>,
            PqErrorView,
        >(single_rows(structs_part_rows(parts))),
{
    let s = elements_in(fields);
    let file = framed(body, fields);
    let plan = plan_of_map_of_struct(s, i, n);
    let source = SourceView::Shape(plan);
    let shape = structs_shape(s, i, true);
    let inner = (level(shape.opts[0]) + 1) as u32;
    let path = seq![s[i].name, s[i + 1].name, s[i + 3].name];
    let key_path = seq![s[i].name, s[i + 1].name, s[i + 2].name];
    let views = fields_of_leaves(s, i + 4, n, inner as int, path);
    assert(field_names(views) =~= names_from(s, i + 4, n));
    law_map_of_struct_schema(md, s, i, n, r);
    let rows = structs_part_rows(parts);
    assert forall|g: int| 0 <= g < rows.len() implies column_of(
        file,
        md.row_groups[g],
        source,
        cap,
    ) == Ok::<Seq<PqV>, PqErrorView>(#[trigger] rows[g]) by {
        let part = parts[g];
        let group = md.row_groups[g];
        assert(holds_map_of_struct(file, group, s, i, n, part, cap));
        lemma_chunk_for(group, key_path, s[i + 2].ptype->Some_0, part.key);
        lemma_holds_fields(
            file,
            group,
            s,
            i + 4,
            n,
            path,
            part.chunks,
            inner,
            shape,
            part.rows,
            map_of_struct_words(),
            cap,
        );
        law_map_of_struct_column(
            file,
            group,
            key_path,
            spec_at(s, i + 2),
            s[i + 2].ptype->Some_0,
            part.key,
            part.key_defs,
            views,
            part.chunks,
            shape,
            part.rows,
            cap,
        );
        assert(kind_column(file, group, plan.kind, cap) == Ok::<Seq<PqV>, PqErrorView>(part.rows));
    }
    law_single_column(body, fields, md, s[i].name, source, rows, cap);
}

/// Whether a row group stores the structs: each field in a chunk of its own.
pub open spec fn holds_struct(
    file: Seq<u8>,
    g: RowGroupView,
    s: Seq<SchemaElementView>,
    i: int,
    n: nat,
    part: StructsPart,
    cap: int,
) -> bool {
    let o = optional(s[i].repetition);
    &&& forall|j: int|
        0 <= j < part.rows.len() ==> struct_row_ok(
            #[trigger] part.rows[j],
            names_from(s, i + 1, n),
            o,
        )
    &&& forall|f: int|
        #![trigger part.chunks[f]]
        0 <= f < n ==> chunk_for(
            g,
            seq![s[i].name, s[i + 1 + f].name],
            s[i + 1 + f].ptype->Some_0,
            part.chunks[f],
        ) && chunk_values(
            file,
            part.chunks[f],
            spec_at(s, i + 1 + f),
            (level(o) + level(optional(s[i + 1 + f].repetition))) as u32,
            cap,
        ) == Ok::<Seq<PqV>, PqErrorView>(field_of_rows(part.rows, f))
}

proof fn lemma_struct_part(
    file: Seq<u8>,
    group: RowGroupView,
    s: Seq<SchemaElementView>,
    i: int,
    n: nat,
    part: StructsPart,
    cap: int,
)
    requires
        n > 0,
        holds_struct(file, group, s, i, n, part, cap),
    ensures
        column_of(file, group, SourceView::Shape(plan_of_struct(s, i, n)), cap) == Ok::<
            Seq<PqV>,
            PqErrorView,
        >(part.rows),
{
    let plan = plan_of_struct(s, i, n);
    let o = optional(s[i].repetition);
    let views = fields_of_leaves(s, i + 1, n, level(o), seq![s[i].name]);
    assert(field_names(views) =~= names_from(s, i + 1, n));
    assert forall|f: int| 0 <= f < views.len() implies crate::nested::field_column(
        file,
        group,
        #[trigger] views[f],
        cap,
    ) == Ok::<Seq<PqV>, PqErrorView>(field_of_rows(part.rows, f)) by {
        let cc = part.chunks[f];
        let path = seq![s[i].name, s[i + 1 + f].name];
        assert(seq![s[i].name].push(s[i + 1 + f].name) =~= path);
        lemma_chunk_for(group, path, s[i + 1 + f].ptype->Some_0, cc);
    }
    law_struct_column(file, group, views, o, part.rows, cap);
    assert(kind_column(file, group, plan.kind, cap) == Ok::<Seq<PqV>, PqErrorView>(part.rows));
}

/// Structs of leaves that were written are read back from the file, one row group after the other:
/// each field under its own name.
pub proof fn law_struct_file(
    body: Seq<u8>,
    fields: Seq<(i16, Datum)>,
    md: FileMetaDataView,
    i: int,
    n: nat,
    r: Seq<char>,
    parts: Seq<StructsPart>,
    cap: int,
)
    requires
        file_ok(body, fields, md),
        column_at(md, elements_in(fields), i, r),
        stores_struct(elements_in(fields), i, n),
        parts.len() == md.row_groups.len(),
        forall|g: int|
            #![trigger parts[g]]
            0 <= g < parts.len() ==> holds_struct(
                framed(body, fields),
                md.row_groups[g],
                elements_in(fields),
                i,
                n,
                parts[g],
                cap,
            ),
    ensures
        extracted(framed(body, fields), seq![elements_in(fields)[i].name], cap) == Ok::<
            Seq<Seq<PqV>>,
            PqErrorView,
        >(single_rows(structs_part_rows(parts))),
{
    let s = elements_in(fields);
    let file = framed(body, fields);
    let source = SourceView::Shape(plan_of_struct(s, i, n));
    law_struct_schema(md, s, i, n, r);
    let rows = structs_part_rows(parts);
    assert forall|g: int| 0 <= g < rows.len() implies column_of(
        file,
        md.row_groups[g],
        source,
        cap,
    ) == Ok::<Seq<PqV>, PqErrorView>(#[trigger] rows[g]) by {
        assert(holds_struct(file, md.row_groups[g], s, i, n, parts[g], cap));
        lemma_struct_part(file, md.row_groups[g], s, i, n, parts[g], cap);
    }
    law_single_column(body, fields, md, s[i].name, source, rows, cap);
}

} // verus!
