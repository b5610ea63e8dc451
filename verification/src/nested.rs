//! Columns of any shape in one row group.
use vstd::prelude::*;
use vstd::string::*;

use crate::assembly::{
    assemble_list_of_list_of_list_primitive, assemble_list_of_list_primitive,
    assemble_list_of_map_kv, assemble_list_of_struct, assemble_list_primitive, assemble_map_kv,
    assemble_map_of_list, assemble_map_of_map_kv, assemble_map_of_struct, assemble_struct,
    assembled, column_values, leaf_parts, struct_parts, struct_rows,
};
use crate::chunk::{chunk_levels, chunk_values, read_chunk_levels_and_values, read_chunk_values};
use crate::classify::level;
use crate::error::{bad, decimal, decimal_text, text3, PqError, PqErrorView};
use crate::laws::counts::law_chunk_len;
use crate::meta::{chunks, ColumnChunk, ColumnChunkView, RowGroup, RowGroupView};
use crate::page::{at_max, Levels};
use crate::plain::{decodes, Plain, PlainSpec};
use crate::plan::{
    field_view, fields_view, kind_view, lemma_fields_view, ColumnKind, FieldView, KindView,
    StructField,
};
use crate::schema::Type;
use crate::text::{debug_list, list_text, same_text, same_texts, texts};
use crate::value::{values, PqV, PqValue};

verus! {

/// The first chunk from number `i` on that has the path.
pub open spec fn chunk_from(
    columns: Seq<ColumnChunkView>,
    path: Seq<Seq<char>>,
    i: int,
) -> Option<ColumnChunkView>
    decreases columns.len() - i,
{
    if i < 0 || i >= columns.len() {
        None
    } else if columns[i].path == path {
        Some(columns[i])
    } else {
        chunk_from(columns, path, i + 1)
    }
}

/// The chunk of a row group that has the path, or the complaint.
pub open spec fn found(g: RowGroupView, path: Seq<Seq<char>>, missing: Seq<char>) -> Result<
    ColumnChunkView,
    PqErrorView,
> {
    match chunk_from(g.columns, path, 0) {
        Some(cc) => Ok(cc),
        None => Err(PqErrorView::Bad(missing + debug_list(path))),
    }
}

/// Whether a chunk is of the type: the complaint where it is not.
pub open spec fn typed(
    cc: ColumnChunkView,
    ptype: Type,
    path: Seq<Seq<char>>,
    before: Seq<char>,
    after: Seq<char>,
) -> Result<(), PqErrorView> {
    if cc.ptype != ptype {
        Err(PqErrorView::Bad(before + debug_list(path) + after))
    } else {
        Ok(())
    }
}

/// The words in which a shape speaks of a chunk that is missing or of another type.
#[derive(Clone, Copy)]
pub struct ChunkWords {
    pub missing: &'static str,
    pub before: &'static str,
    pub after: &'static str,
}

/// The chunk of a row group that has the path and the type, or the complaint.
pub open spec fn located(g: RowGroupView, path: Seq<Seq<char>>, ptype: Type, w: ChunkWords) -> Result<
    ColumnChunkView,
    PqErrorView,
> {
    match found(g, path, w.missing@) {
        Err(e) => Err(e),
        Ok(cc) => match typed(cc, ptype, path, w.before@, w.after@) {
            Err(e) => Err(e),
            Ok(_) => Ok(cc),
        },
    }
}

/// The chunks of a row group that have the two paths and types, or the complaint.
pub open spec fn located_pair(
    g: RowGroupView,
    key_path: Seq<Seq<char>>,
    key_ptype: Type,
    value_path: Seq<Seq<char>>,
    value_ptype: Type,
    k: ChunkWords,
    v: ChunkWords,
) -> Result<(ColumnChunkView, ColumnChunkView), PqErrorView> {
    match found(g, key_path, k.missing@) {
        Err(e) => Err(e),
        Ok(key) => match found(g, value_path, v.missing@) {
            Err(e) => Err(e),
            Ok(value) => match typed(key, key_ptype, key_path, k.before@, k.after@) {
                Err(e) => Err(e),
                Ok(_) => match typed(value, value_ptype, value_path, v.before@, v.after@) {
                    Err(e) => Err(e),
                    Ok(_) => Ok((key, value)),
                },
            },
        },
    }
}

/// `n` depths, none of them a map.
pub open spec fn no_maps(n: nat) -> Seq<bool> {
    Seq::new(n, |i: int| false)
}

/// `n` depths without keys.
pub open spec fn no_keys(n: nat) -> Seq<Seq<PqV>> {
    Seq::new(n, |i: int| Seq::<PqV>::empty())
}

/// How many definition levels the lists and their items ask for.
pub open spec fn list_levels(opts: Seq<bool>, item_optional: bool) -> int
    decreases opts.len(),
{
    if opts.len() == 0 {
        level(item_optional)
    } else {
        list_levels(opts.drop_last(), item_optional) + level(opts.last()) + 1
    }
}

/// How many of the levels up to `max_def` belong to what is around the lists.
pub open spec fn levels_above(max_def: u32, opts: Seq<bool>, item_optional: bool) -> int {
    let n = max_def - list_levels(opts, item_optional);
    if n > 0 {
        n
    } else {
        0
    }
}

/// The levels where the first `top` of them all mean that the outermost list is absent: they become
/// the level zero, and the others follow.
pub open spec fn lowered(def: Seq<u32>, top: int) -> Seq<u32> {
    def.map_values(
        |d: u32|
            if top <= 0 {
                d
            } else if d < top {
                0u32
            } else {
                (d - top + 1) as u32
            },
    )
}

/// The lists of a leaf: of one depth for each of `opts`. A list is absent where something around it
/// is.
#[verifier::opaque]
pub open spec fn list_column(
    file: Seq<u8>,
    cc: ColumnChunkView,
    spec: PlainSpec,
    max_def: u32,
    max_rep: u32,
    opts: Seq<bool>,
    item_optional: bool,
    cap: int,
) -> Plain {
    match chunk_levels(file, cc, spec, max_def, max_rep, cap) {
        Err(e) => Err(e),
        Ok((rep, def, vals)) => {
            let top = levels_above(max_def, opts, item_optional) + level(opts[0]);
            assembled(
                leaf_parts(
                    opts.update(0, top > 0),
                    no_maps(opts.len()),
                    if top > 0 {
                        (max_def - top + 1) as u32
                    } else {
                        max_def
                    },
                    item_optional,
                    rep,
                    lowered(def, top),
                    no_keys(opts.len()),
                    vals,
                ),
            )
        },
    }
}

/// The level of a map's key: that of the value, less one where the value may be null.
pub open spec fn key_level(max_def: u32, value_optional: bool) -> u32 {
    if value_optional && max_def > 0 {
        (max_def - 1) as u32
    } else {
        max_def
    }
}

/// What the levels of two leaves come to, which have the same repetition levels.
pub open spec fn both_levels(
    a: Result<Levels, PqErrorView>,
    b: Result<Levels, PqErrorView>,
    diverge: Seq<char>,
) -> Result<(Levels, Levels), PqErrorView> {
    match a {
        Err(e) => Err(e),
        Ok(k) => match b {
            Err(e) => Err(e),
            Ok(v) => if k.0 != v.0 {
                Err(PqErrorView::Bad(diverge))
            } else {
                Ok((k, v))
            },
        },
    }
}

/// How a map speaks of its key's chunk.
pub open spec fn map_key_words() -> ChunkWords {
    ChunkWords {
        missing: "MAP row group missing key column for path ",
        before: "MAP key column for path ",
        after: " schema/column-chunk physical-type mismatch",
    }
}

/// How a map speaks of its value's chunk.
pub open spec fn map_value_words() -> ChunkWords {
    ChunkWords {
        missing: "MAP row group missing value column for path ",
        before: "MAP value column for path ",
        after: " schema/column-chunk physical-type mismatch",
    }
}

/// The maps from a leaf to a leaf.
#[verifier::opaque]
pub open spec fn map_column(
    file: Seq<u8>,
    g: RowGroupView,
    key_path: Seq<Seq<char>>,
    value_path: Seq<Seq<char>>,
    key_spec: PlainSpec,
    value_spec: PlainSpec,
    key_ptype: Type,
    value_ptype: Type,
    max_def: u32,
    outer_optional: bool,
    value_optional: bool,
    cap: int,
) -> Plain {
    match located_pair(
        g,
        key_path,
        key_ptype,
        value_path,
        value_ptype,
        map_key_words(),
        map_value_words(),
    ) {
        Err(e) => Err(e),
        Ok((key, value)) => match both_levels(
            chunk_levels(file, key, key_spec, key_level(max_def, value_optional), 1, cap),
            chunk_levels(file, value, value_spec, max_def, 1, cap),
            "MAP key/value rep streams diverge"@,
        ) {
            Err(e) => Err(e),
            Ok((k, v)) => assembled(
                leaf_parts(
                    seq![outer_optional],
                    seq![true],
                    max_def,
                    value_optional,
                    v.0,
                    v.1,
                    seq![k.2],
                    v.2,
                ),
            ),
        },
    }
}

/// How a map of lists speaks of its key's chunk.
pub open spec fn map_of_list_key_words() -> ChunkWords {
    ChunkWords {
        missing: "map_of_list row group missing key column for path ",
        before: "map_of_list key column path ",
        after: " ptype mismatch",
    }
}

/// How a map of lists speaks of its value's chunk.
pub open spec fn map_of_list_value_words() -> ChunkWords {
    ChunkWords {
        missing: "map_of_list row group missing value column for path ",
        before: "map_of_list value column path ",
        after: " ptype mismatch",
    }
}

/// The maps from a leaf to a list of leaves.
#[verifier::opaque]
pub open spec fn map_of_list_column(
    file: Seq<u8>,
    g: RowGroupView,
    key_path: Seq<Seq<char>>,
    value_path: Seq<Seq<char>>,
    key_spec: PlainSpec,
    value_spec: PlainSpec,
    key_ptype: Type,
    value_ptype: Type,
    max_def: u32,
    outer_optional: bool,
    item_optional: bool,
    cap: int,
) -> Plain {
    match located_pair(
        g,
        key_path,
        key_ptype,
        value_path,
        value_ptype,
        map_of_list_key_words(),
        map_of_list_value_words(),
    ) {
        Err(e) => Err(e),
        Ok((key, value)) => match chunk_levels(
            file,
            key,
            key_spec,
            entry_level(outer_optional, 1),
            1,
            cap,
        ) {
            Err(e) => Err(e),
            Ok(k) => match chunk_levels(file, value, value_spec, max_def, 2, cap) {
                Err(e) => Err(e),
                Ok(v) => assembled(
                    leaf_parts(
                        seq![outer_optional, false],
                        seq![true, false],
                        max_def,
                        item_optional,
                        v.0,
                        v.1,
                        seq![k.2, Seq::empty()],
                        v.2,
                    ),
                ),
            },
        },
    }
}

/// The level of a required leaf below `n` repeated groups.
pub open spec fn entry_level(outer_optional: bool, n: u32) -> u32 {
    if outer_optional {
        (n + 1) as u32
    } else {
        n
    }
}

/// How a list of maps speaks of its key's chunk.
pub open spec fn list_of_map_key_words() -> ChunkWords {
    ChunkWords {
        missing: "list_of_map row group missing key column for path ",
        before: "list_of_map key column path ",
        after: " ptype mismatch",
    }
}

/// How a list of maps speaks of its value's chunk.
pub open spec fn list_of_map_value_words() -> ChunkWords {
    ChunkWords {
        missing: "list_of_map row group missing value column for path ",
        before: "list_of_map value column path ",
        after: " ptype mismatch",
    }
}

/// The lists of maps from a leaf to a leaf.
#[verifier::opaque]
pub open spec fn list_of_map_column(
    file: Seq<u8>,
    g: RowGroupView,
    key_path: Seq<Seq<char>>,
    value_path: Seq<Seq<char>>,
    key_spec: PlainSpec,
    value_spec: PlainSpec,
    key_ptype: Type,
    value_ptype: Type,
    max_def: u32,
    outer_optional: bool,
    value_optional: bool,
    cap: int,
) -> Plain {
    match located_pair(
        g,
        key_path,
        key_ptype,
        value_path,
        value_ptype,
        list_of_map_key_words(),
        list_of_map_value_words(),
    ) {
        Err(e) => Err(e),
        Ok((key, value)) => match both_levels(
            chunk_levels(file, key, key_spec, entry_level(outer_optional, 2), 2, cap),
            chunk_levels(file, value, value_spec, max_def, 2, cap),
            "list_of_map: K rep stream diverges from V rep stream"@,
        ) {
            Err(e) => Err(e),
            Ok((k, v)) => assembled(
                leaf_parts(
                    seq![outer_optional, false],
                    seq![false, true],
                    max_def,
                    value_optional,
                    v.0,
                    v.1,
                    seq![Seq::empty(), k.2],
                    v.2,
                ),
            ),
        },
    }
}

/// The three leaves of a map of maps.
pub struct MapOfMap {
    pub outer_key_path: Seq<Seq<char>>,
    pub inner_key_path: Seq<Seq<char>>,
    pub inner_value_path: Seq<Seq<char>>,
    pub outer_key_spec: PlainSpec,
    pub inner_key_spec: PlainSpec,
    pub inner_value_spec: PlainSpec,
    pub outer_key_ptype: Type,
    pub inner_key_ptype: Type,
    pub inner_value_ptype: Type,
}

/// The chunks of the three leaves of a map of maps, or the complaint.
pub open spec fn located_three(g: RowGroupView, m: MapOfMap) -> Result<
    (ColumnChunkView, ColumnChunkView, ColumnChunkView),
    PqErrorView,
> {
    match found(
        g,
        m.outer_key_path,
        "map_of_map row group missing outer-key column for path "@,
    ) {
        Err(e) => Err(e),
        Ok(ok) => match found(
            g,
            m.inner_key_path,
            "map_of_map row group missing inner-key column for path "@,
        ) {
            Err(e) => Err(e),
            Ok(ik) => match found(
                g,
                m.inner_value_path,
                "map_of_map row group missing inner-value column for path "@,
            ) {
                Err(e) => Err(e),
                Ok(iv) => match typed(
                    ok,
                    m.outer_key_ptype,
                    m.outer_key_path,
                    "map_of_map outer-key column path "@,
                    " ptype mismatch"@,
                ) {
                    Err(e) => Err(e),
                    Ok(_) => match typed(
                        ik,
                        m.inner_key_ptype,
                        m.inner_key_path,
                        "map_of_map inner-key column path "@,
                        " ptype mismatch"@,
                    ) {
                        Err(e) => Err(e),
                        Ok(_) => match typed(
                            iv,
                            m.inner_value_ptype,
                            m.inner_value_path,
                            "map_of_map inner-value column path "@,
                            " ptype mismatch"@,
                        ) {
                            Err(e) => Err(e),
                            Ok(_) => Ok((ok, ik, iv)),
                        },
                    },
                },
            },
        },
    }
}

/// The maps from a leaf to a map from a leaf to a leaf.
#[verifier::opaque]
pub open spec fn map_of_map_column(
    file: Seq<u8>,
    g: RowGroupView,
    m: MapOfMap,
    max_def: u32,
    outer_optional: bool,
    value_optional: bool,
    cap: int,
) -> Plain {
    match located_three(g, m) {
        Err(e) => Err(e),
        Ok((ok, ik, iv)) => match chunk_levels(
            file,
            ok,
            m.outer_key_spec,
            entry_level(outer_optional, 1),
            1,
            cap,
        ) {
            Err(e) => Err(e),
            Ok(o) => match both_levels(
                chunk_levels(file, ik, m.inner_key_spec, entry_level(outer_optional, 2), 2, cap),
                chunk_levels(file, iv, m.inner_value_spec, max_def, 2, cap),
                "map_of_map: inner-K rep stream diverges from inner-V rep stream"@,
            ) {
                Err(e) => Err(e),
                Ok((k, v)) => assembled(
                    leaf_parts(
                        seq![outer_optional, false],
                        seq![true, true],
                        max_def,
                        value_optional,
                        v.0,
                        v.1,
                        seq![o.2, k.2],
                        v.2,
                    ),
                ),
            },
        },
    }
}

/// The words in which a shape speaks of the chunks of a struct's fields, and of one whose
/// repetition levels are not those of the first.
#[derive(Clone, Copy)]
pub struct FieldWords {
    pub chunk: ChunkWords,
    pub diverge: &'static str,
    pub diverge_end: &'static str,
}

/// The values of a field in the structs that are there: those at the definition level `level` or
/// above it. The field has a value where the level is `max`, and is null in the others.
pub open spec fn slots(def: Seq<u32>, level: u32, max: u32, vals: Seq<PqV>) -> Seq<PqV>
    decreases def.len(),
{
    if def.len() == 0 {
        seq![]
    } else {
        let front = def.drop_last();
        let before = slots(front, level, max, vals);
        if def.last() < level {
            before
        } else if def.last() == max {
            before.push(vals[at_max(front, max) as int])
        } else {
            before.push(PqV::Null)
        }
    }
}

/// The definition level at which the struct around a field is there.
pub open spec fn struct_level(f: FieldView) -> u32 {
    key_level(f.max_def_level, f.optional)
}

/// The levels of the first of the first `k` fields, and the values of each of them in the structs
/// that are there. All have the same repetition levels.
pub open spec fn leaf_fields(
    file: Seq<u8>,
    g: RowGroupView,
    fields: Seq<FieldView>,
    k: nat,
    w: FieldWords,
    cap: int,
) -> Result<(Seq<u32>, Seq<u32>, Seq<Seq<PqV>>), PqErrorView>
    decreases k,
{
    if k == 0 {
        Ok((seq![], seq![], seq![]))
    } else {
        let f = fields[k - 1];
        match leaf_fields(file, g, fields, (k - 1) as nat, w, cap) {
            Err(e) => Err(e),
            Ok((rep, def, columns)) => match located(g, f.chunk_path, f.ptype, w.chunk) {
                Err(e) => Err(e),
                Ok(cc) => match chunk_levels(file, cc, f.spec, f.max_def_level, 1, cap) {
                    Err(e) => Err(e),
                    Ok(l) => {
                        let column = slots(l.1, struct_level(f), f.max_def_level, l.2);
                        if k == 1 {
                            Ok((l.0, l.1, columns.push(column)))
                        } else if rep != l.0 {
                            Err(PqErrorView::Bad(w.diverge@ + f.name + w.diverge_end@))
                        } else {
                            Ok((rep, def, columns.push(column)))
                        }
                    },
                },
            },
        }
    }
}

/// The names of fields.
pub open spec fn field_names(fields: Seq<FieldView>) -> Seq<Seq<char>> {
    fields.map_values(|f: FieldView| f.name)
}

/// How a list of structs speaks of the chunks of their fields.
pub open spec fn list_of_struct_words() -> FieldWords {
    FieldWords {
        chunk: ChunkWords {
            missing: "list_of_struct row group missing column for path ",
            before: "list_of_struct field column for path ",
            after: " ptype mismatch",
        },
        diverge: "list_of_struct: field '",
        diverge_end: "' rep stream diverges from authoritative field",
    }
}

/// The lists of structs of leaves.
#[verifier::opaque]
pub open spec fn list_of_struct_column(
    file: Seq<u8>,
    g: RowGroupView,
    fields: Seq<FieldView>,
    outer_optional: bool,
    max_def: u32,
    cap: int,
) -> Plain {
    if fields.len() == 0 {
        Err(PqErrorView::Bad("list_of_struct: no fields"@))
    } else {
        match leaf_fields(
            file,
            g,
            fields,
            fields.len(),
            list_of_struct_words(),
            cap,
        ) {
            Err(e) => Err(e),
            Ok((rep, def, columns)) => assembled(
                struct_parts(
                    false,
                    outer_optional,
                    max_def,
                    rep,
                    def,
                    Seq::empty(),
                    field_names(fields),
                    columns,
                ),
            ),
        }
    }
}

/// How a map of structs speaks of its key's chunk.
pub open spec fn map_of_struct_key_words() -> ChunkWords {
    ChunkWords {
        missing: "map_of_struct row group missing key column for path ",
        before: "map_of_struct key column path ",
        after: " ptype mismatch",
    }
}

/// How a map of structs speaks of the chunks of their fields.
pub open spec fn map_of_struct_words() -> FieldWords {
    FieldWords {
        chunk: ChunkWords {
            missing: "map_of_struct row group missing value-field column for path ",
            before: "map_of_struct value-field column path ",
            after: " ptype mismatch",
        },
        diverge: "map_of_struct: value field '",
        diverge_end: "' rep stream diverges from authoritative",
    }
}

/// The maps from a leaf to a struct of leaves.
#[verifier::opaque]
pub open spec fn map_of_struct_column(
    file: Seq<u8>,
    g: RowGroupView,
    key_path: Seq<Seq<char>>,
    key_spec: PlainSpec,
    key_ptype: Type,
    fields: Seq<FieldView>,
    outer_optional: bool,
    max_def: u32,
    cap: int,
) -> Plain {
    if fields.len() == 0 {
        Err(PqErrorView::Bad("map_of_struct: no value fields"@))
    } else {
        match located(g, key_path, key_ptype, map_of_struct_key_words()) {
            Err(e) => Err(e),
            Ok(key) => match chunk_levels(file, key, key_spec, max_def, 1, cap) {
                Err(e) => Err(e),
                Ok(k) => match leaf_fields(
                    file,
                    g,
                    fields,
                    fields.len(),
                    map_of_struct_words(),
                    cap,
                ) {
                    Err(e) => Err(e),
                    Ok((rep, def, columns)) => if k.0 != rep {
                        Err(
                            PqErrorView::Bad(
                                "map_of_struct: K rep stream diverges from V field rep stream"@,
                            ),
                        )
                    } else {
                        assembled(
                            struct_parts(
                                true,
                                outer_optional,
                                max_def,
                                rep,
                                def,
                                k.2,
                                field_names(fields),
                                columns,
                            ),
                        )
                    },
                },
            },
        }
    }
}

/// Whether a chunk is a list's leaf of the type, by the name that such leaves have.
pub open spec fn is_element(cc: ColumnChunkView, ptype: Type) -> bool {
    cc.ptype == ptype && cc.path.len() > 0 && cc.path.last() == "element"@
}

/// The chunks among the first `k` that are lists' leaves of the type.
pub open spec fn element_chunks(columns: Seq<ColumnChunkView>, ptype: Type, k: int) -> Seq<
    ColumnChunkView,
>
    decreases k,
{
    if k <= 0 {
        seq![]
    } else {
        let before = element_chunks(columns, ptype, k - 1);
        if is_element(columns[k - 1], ptype) {
            before.push(columns[k - 1])
        } else {
            before
        }
    }
}

/// The only chunk that is a list's leaf of the type, or the complaint.
pub open spec fn only_element(g: RowGroupView, ptype: Type, complaint: Seq<char>) -> Result<
    ColumnChunkView,
    PqErrorView,
> {
    let all = element_chunks(g.columns, ptype, g.columns.len() as int);
    if all.len() != 1 {
        Err(PqErrorView::Bad(complaint + decimal(all.len() as int)))
    } else {
        Ok(all[0])
    }
}

/// The lists of the only leaf of the type.
#[verifier::opaque]
pub open spec fn only_list_column(
    file: Seq<u8>,
    g: RowGroupView,
    spec: PlainSpec,
    ptype: Type,
    max_def: u32,
    max_rep: u32,
    opts: Seq<bool>,
    item_optional: bool,
    complaint: Seq<char>,
    cap: int,
) -> Plain {
    match only_element(g, ptype, complaint) {
        Err(e) => Err(e),
        Ok(cc) => list_column(file, cc, spec, max_def, max_rep, opts, item_optional, cap),
    }
}

/// How a struct speaks of the chunks of its fields.
pub open spec fn struct_words() -> ChunkWords {
    ChunkWords {
        missing: "struct row group missing column for path ",
        before: "struct field column for path ",
        after: " schema/column-chunk physical-type mismatch",
    }
}

/// The column of a struct's field.
pub open spec fn field_column(file: Seq<u8>, g: RowGroupView, f: FieldView, cap: int) -> Plain
    decreases f, 0int, 0int,
{
    match f.nested {
        Some(kind) => kind_column(file, g, *kind, cap),
        None => match located(g, f.chunk_path, f.ptype, struct_words()) {
            Err(e) => Err(e),
            Ok(cc) => chunk_values(file, cc, f.spec, f.max_def_level, cap),
        },
    }
}

/// The columns of the first `k` fields of a struct.
pub open spec fn field_columns(
    file: Seq<u8>,
    g: RowGroupView,
    fields: Seq<FieldView>,
    k: nat,
    cap: int,
) -> Result<Seq<Seq<PqV>>, PqErrorView>
    decreases fields, 0int, k,
{
    if k == 0 || k > fields.len() {
        Ok(seq![])
    } else {
        match field_columns(file, g, fields, (k - 1) as nat, cap) {
            Err(e) => Err(e),
            Ok(columns) => match field_column(file, g, fields[k - 1], cap) {
                Err(e) => Err(e),
                Ok(c) => Ok(columns.push(c)),
            },
        }
    }
}

/// The structs of fields of any shape.
pub open spec fn struct_column(
    file: Seq<u8>,
    g: RowGroupView,
    fields: Seq<FieldView>,
    outer_optional: bool,
    cap: int,
) -> Plain
    decreases fields, 1int, 0int,
{
    match field_columns(file, g, fields, fields.len(), cap) {
        Err(e) => Err(e),
        Ok(columns) => struct_rows(field_names(fields), columns, outer_optional),
    }
}

/// The column of a shape.
pub open spec fn kind_column(file: Seq<u8>, g: RowGroupView, kind: KindView, cap: int) -> Plain
    decreases kind, 0int, 0int,
{
    match kind {
        KindView::Flat { .. } => Err(
            PqErrorView::Bad("decode_field_by_kind: Flat should not be wrapped"@),
        ),
        KindView::NestedListPrimitive {
            spec,
            ptype,
            max_def_level,
            max_rep_level,
            outer_optional,
            element_optional,
        } => only_list_column(
            file,
            g,
            spec,
            ptype,
            max_def_level,
            max_rep_level,
            seq![outer_optional],
            element_optional,
            "decode_list_primitive_in_rg: expected 1 candidate chunk, found "@,
            cap,
        ),
        KindView::NestedMapKV {
            key_spec,
            value_spec,
            key_ptype,
            value_ptype,
            key_chunk_path,
            value_chunk_path,
            max_def_level,
            outer_optional,
            value_optional,
        } => map_column(
            file,
            g,
            key_chunk_path,
            value_chunk_path,
            key_spec,
            value_spec,
            key_ptype,
            value_ptype,
            max_def_level,
            outer_optional,
            value_optional,
            cap,
        ),
        KindView::NestedStruct { outer_optional, fields } => struct_column(
            file,
            g,
            fields,
            outer_optional,
            cap,
        ),
        KindView::NestedListOfListPrimitive {
            spec,
            ptype,
            max_def_level,
            max_rep_level,
            outer_optional,
            inner_optional,
            item_optional,
        } => only_list_column(
            file,
            g,
            spec,
            ptype,
            max_def_level,
            max_rep_level,
            seq![outer_optional, inner_optional],
            item_optional,
            "decode_list_of_list_primitive_in_rg: expected 1 candidate, found "@,
            cap,
        ),
        KindView::NestedListOfStruct { outer_optional, list_max_def_level, fields } =>
            list_of_struct_column(file, g, fields, outer_optional, list_max_def_level, cap),
        KindView::NestedMapOfStruct {
            outer_optional,
            key_spec,
            key_ptype,
            key_chunk_path,
            map_max_def_level,
            value_fields,
        } => map_of_struct_column(
            file,
            g,
            key_chunk_path,
            key_spec,
            key_ptype,
            value_fields,
            outer_optional,
            map_max_def_level,
            cap,
        ),
        KindView::NestedMapOfList {
            outer_optional,
            key_spec,
            key_ptype,
            key_chunk_path,
            value_spec,
            value_ptype,
            value_chunk_path,
            max_def_level,
            value_item_optional,
        } => map_of_list_column(
            file,
            g,
            key_chunk_path,
            value_chunk_path,
            key_spec,
            value_spec,
            key_ptype,
            value_ptype,
            max_def_level,
            outer_optional,
            value_item_optional,
            cap,
        ),
        KindView::NestedListOfListOfListPrimitive {
            spec,
            ptype,
            max_def_level,
            max_rep_level,
            outer_optional,
            middle_optional,
            inner_optional,
            item_optional,
        } => only_list_column(
            file,
            g,
            spec,
            ptype,
            max_def_level,
            max_rep_level,
            seq![outer_optional, middle_optional, inner_optional],
            item_optional,
            "decode_list_of_list_of_list_primitive_in_rg: expected 1 candidate, found "@,
            cap,
        ),
        KindView::NestedListOfMap {
            outer_optional,
            key_spec,
            key_ptype,
            key_chunk_path,
            value_spec,
            value_ptype,
            value_chunk_path,
            max_def_level,
            value_optional,
        } => list_of_map_column(
            file,
            g,
            key_chunk_path,
            value_chunk_path,
            key_spec,
            value_spec,
            key_ptype,
            value_ptype,
            max_def_level,
            outer_optional,
            value_optional,
            cap,
        ),
        KindView::NestedMapOfMap {
            outer_optional,
            outer_key_spec,
            outer_key_ptype,
            outer_key_chunk_path,
            inner_key_spec,
            inner_key_ptype,
            inner_key_chunk_path,
            inner_value_spec,
            inner_value_ptype,
            inner_value_chunk_path,
            max_def_level,
            inner_value_optional,
        } => map_of_map_column(
            file,
            g,
            MapOfMap {
                outer_key_path: outer_key_chunk_path,
                inner_key_path: inner_key_chunk_path,
                inner_value_path: inner_value_chunk_path,
                outer_key_spec,
                inner_key_spec,
                inner_value_spec,
                outer_key_ptype,
                inner_key_ptype,
                inner_value_ptype,
            },
            max_def_level,
            outer_optional,
            inner_value_optional,
            cap,
        ),
    }
}

/// The complaint about a path, which `shown` shows.
pub fn path_error(before: &str, shown: &str, after: &str) -> (e: PqError)
    ensures
        e@ == PqErrorView::Bad(before@ + shown@ + after@),
{
    PqError::Bad(text3(before, shown, after))
}

/// The chunk of a row group that has the path.
pub fn find_chunk<'a>(rg: &'a RowGroup, path: &Vec<String>, missing: &str) -> (r: Result<
    &'a ColumnChunk,
    PqError,
>)
    ensures
        match (r, found(rg@, texts(path@), missing@)) {
            (Ok(v), Ok(w)) => v@ == w,
            (Err(x), Err(y)) => x@ == y,
            _ => false,
        },
{
    let mut i: usize = 0;
    while i < rg.columns.len()
        invariant
            i <= rg.columns@.len(),
            chunk_from(rg@.columns, texts(path@), 0) == chunk_from(
                rg@.columns,
                texts(path@),
                i as int,
            ),
        decreases rg.columns@.len() - i,
    {
        assert(rg@.columns[i as int] == rg.columns@[i as int]@);
        if same_texts(&rg.columns[i].path, path) {
            return Ok(&rg.columns[i]);
        }
        i = i + 1;
    }
    let shown = list_text(path);
    let mut m = missing.to_owned();
    m.append(shown.as_str());
    Err(PqError::Bad(m))
}

/// Checks that a chunk is of the type.
pub fn check_type(
    cc: &ColumnChunk,
    ptype: Type,
    path: &Vec<String>,
    before: &str,
    after: &str,
) -> (r: Result<(), PqError>)
    ensures
        match (r, typed(cc@, ptype, texts(path@), before@, after@)) {
            (Ok(_), Ok(_)) => true,
            (Err(x), Err(y)) => x@ == y,
            _ => false,
        },
{
    if cc.ptype != ptype {
        let shown = list_text(path);
        return Err(path_error(before, shown.as_str(), after));
    }
    Ok(())
}

/// The chunk of a row group that has the path and the type.
pub fn locate<'a>(rg: &'a RowGroup, path: &Vec<String>, ptype: Type, w: ChunkWords) -> (r: Result<
    &'a ColumnChunk,
    PqError,
>)
    ensures
        match (r, located(rg@, texts(path@), ptype, w)) {
            (Ok(v), Ok(x)) => v@ == x,
            (Err(x), Err(y)) => x@ == y,
            _ => false,
        },
{
    let cc = find_chunk(rg, path, w.missing)?;
    check_type(cc, ptype, path, w.before, w.after)?;
    Ok(cc)
}

/// The chunks of a row group that have the two paths and types.
fn locate_pair<'a>(
    rg: &'a RowGroup,
    key_path: &Vec<String>,
    key_ptype: Type,
    value_path: &Vec<String>,
    value_ptype: Type,
    k: ChunkWords,
    v: ChunkWords,
) -> (r: Result<(&'a ColumnChunk, &'a ColumnChunk), PqError>)
    ensures
        match (
            r,
            located_pair(
                rg@,
                texts(key_path@),
                key_ptype,
                texts(value_path@),
                value_ptype,
                k,
                v,
            ),
        ) {
            (Ok(a), Ok(b)) => a.0@ == b.0 && a.1@ == b.1,
            (Err(x), Err(y)) => x@ == y,
            _ => false,
        },
{
    let key = find_chunk(rg, key_path, k.missing)?;
    let value = find_chunk(rg, value_path, v.missing)?;
    check_type(key, key_ptype, key_path, k.before, k.after)?;
    check_type(value, value_ptype, value_path, v.before, v.after)?;
    Ok((key, value))
}

/// Whether two leaves have the same repetition levels.
fn same_levels(a: &Vec<u32>, b: &Vec<u32>) -> (r: bool)
    ensures
        r == (a@ == b@),
{
    if a.len() != b.len() {
        return false;
    }
    let mut i: usize = 0;
    while i < a.len()
        invariant
            i <= a@.len() == b@.len(),
            forall|j: int| 0 <= j < i ==> a@[j] == b@[j],
        decreases a@.len() - i,
    {
        if a[i] != b[i] {
            assert(a@[i as int] != b@[i as int]);
            return false;
        }
        i = i + 1;
    }
    assert(a@ =~= b@);
    true
}

proof fn lemma_no_maps()
    ensures
        no_maps(1) == seq![false],
        no_maps(2) == seq![false, false],
        no_maps(3) == seq![false, false, false],
        no_keys(1) == seq![Seq::<PqV>::empty()],
        no_keys(2) == seq![Seq::<PqV>::empty(), Seq::<PqV>::empty()],
        no_keys(3) == seq![Seq::<PqV>::empty(), Seq::<PqV>::empty(), Seq::<PqV>::empty()],
{
    assert(no_maps(1) =~= seq![false]);
    assert(no_maps(2) =~= seq![false, false]);
    assert(no_maps(3) =~= seq![false, false, false]);
    assert(no_keys(1) =~= seq![Seq::<PqV>::empty()]);
    assert(no_keys(2) =~= seq![Seq::<PqV>::empty(), Seq::<PqV>::empty()]);
    assert(no_keys(3) =~= seq![Seq::<PqV>::empty(), Seq::<PqV>::empty(), Seq::<PqV>::empty()]);
}

/// The largest level of the lists, and the levels of which the first `top` mean that the outermost
/// list is absent.
fn lower_levels(def: Vec<u32>, max_def: u32, top: u32) -> (r: (u32, Vec<u32>))
    requires
        top <= max_def + 1,
    ensures
        r.0 == if top > 0 {
            (max_def - top + 1) as u32
        } else {
            max_def
        },
        r.1@ == lowered(def@, top as int),
{
    if top == 0 {
        assert(def@ =~= lowered(def@, 0));
        return (max_def, def);
    }
    let mut out: Vec<u32> = Vec::new();
    let mut i: usize = 0;
    while i < def.len()
        invariant
            i <= def@.len(),
            top > 0,
            out@.len() == i,
            forall|j: int| 0 <= j < i ==> #[trigger] out@[j] == lowered(def@, top as int)[j],
        decreases def@.len() - i,
    {
        let d: u32 = def[i];
        out.push(
            if d < top {
                0
            } else {
                d - top + 1
            },
        );
        i = i + 1;
    }
    assert(out@ =~= lowered(def@, top as int));
    (max_def - (top - 1), out)
}

/// How many levels mean that the outermost list is absent, where the lists and their items ask for
/// `want` levels.
fn absent_levels(max_def: u32, want: u32, outer_optional: bool) -> (r: u32)
    requires
        want >= 1,
    ensures
        r == (if max_def > want {
            max_def - want
        } else {
            0
        }) + level(outer_optional),
        r <= max_def + 1,
{
    let above: u32 = if max_def > want {
        max_def - want
    } else {
        0
    };
    if outer_optional {
        above + 1
    } else {
        above
    }
}

/// The level of what stands around a value at the level `max_def`, which may be null.
fn level_under(max_def: u32, optional: bool) -> (r: u32)
    ensures
        r == key_level(max_def, optional),
{
    if optional && max_def > 0 {
        max_def - 1
    } else {
        max_def
    }
}

fn level_of(optional: bool) -> (r: u32)
    ensures
        r == level(optional),
        r <= 1,
{
    if optional {
        1
    } else {
        0
    }
}

/// Reads the lists of a leaf.
pub fn read_chunk_values_nested(
    file: &[u8],
    cc: &ColumnChunk,
    spec: PlainSpec,
    max_def_level: u32,
    max_rep_level: u32,
    outer_optional: bool,
    element_optional: bool,
    max_page_size: usize,
) -> (r: Result<Vec<PqValue>, PqError>)
    ensures
        decodes(
            r,
            list_column(
                file@,
                cc@,
                spec,
                max_def_level,
                max_rep_level,
                seq![outer_optional],
                element_optional,
                max_page_size as int,
            ),
        ),
{
    reveal(list_column);
    let (rep, def, vals) = read_chunk_levels_and_values(
        file,
        cc,
        spec,
        max_def_level,
        max_rep_level,
        max_page_size,
    )?;
    let want: u32 = level_of(outer_optional) + level_of(element_optional) + 1;
    let top: u32 = absent_levels(max_def_level, want, outer_optional);
    let (max_def, def) = lower_levels(def, max_def_level, top);
    proof {
        lemma_no_maps();
        let opts = seq![outer_optional];
        reveal_with_fuel(list_levels, 2);
        assert(list_levels(opts, element_optional) == want) by {
            assert(opts.drop_last() =~= seq![]);
        }
        assert(opts.update(0, top > 0) =~= seq![top > 0]);
    }
    assemble_list_primitive(
        rep.as_slice(),
        def.as_slice(),
        vals.as_slice(),
        max_def,
        top > 0,
        element_optional,
    )
}

/// Reads the lists of lists of a leaf.
pub fn read_list_of_list(
    file: &[u8],
    cc: &ColumnChunk,
    spec: PlainSpec,
    max_def_level: u32,
    max_rep_level: u32,
    outer_optional: bool,
    inner_optional: bool,
    item_optional: bool,
    max_page_size: usize,
) -> (r: Result<Vec<PqValue>, PqError>)
    ensures
        decodes(
            r,
            list_column(
                file@,
                cc@,
                spec,
                max_def_level,
                max_rep_level,
                seq![outer_optional, inner_optional],
                item_optional,
                max_page_size as int,
            ),
        ),
{
    reveal(list_column);
    let (rep, def, vals) = read_chunk_levels_and_values(
        file,
        cc,
        spec,
        max_def_level,
        max_rep_level,
        max_page_size,
    )?;
    let want: u32 = level_of(outer_optional) + level_of(inner_optional) + level_of(item_optional) + 2;
    let top: u32 = absent_levels(max_def_level, want, outer_optional);
    let (max_def, def) = lower_levels(def, max_def_level, top);
    proof {
        lemma_no_maps();
        let opts = seq![outer_optional, inner_optional];
        reveal_with_fuel(list_levels, 3);
        assert(list_levels(opts, item_optional) == want) by {
            assert(opts.drop_last() =~= seq![outer_optional]);
            assert(opts.drop_last().drop_last() =~= seq![]);
        }
        assert(opts.update(0, top > 0) =~= seq![top > 0, inner_optional]);
    }
    assemble_list_of_list_primitive(
        rep.as_slice(),
        def.as_slice(),
        vals.as_slice(),
        max_def,
        top > 0,
        inner_optional,
        item_optional,
    )
}

/// Reads the lists of lists of lists of a leaf.
pub fn read_list_of_list_of_list(
    file: &[u8],
    cc: &ColumnChunk,
    spec: PlainSpec,
    max_def_level: u32,
    max_rep_level: u32,
    outer_optional: bool,
    middle_optional: bool,
    inner_optional: bool,
    item_optional: bool,
    max_page_size: usize,
) -> (r: Result<Vec<PqValue>, PqError>)
    ensures
        decodes(
            r,
            list_column(
                file@,
                cc@,
                spec,
                max_def_level,
                max_rep_level,
                seq![outer_optional, middle_optional, inner_optional],
                item_optional,
                max_page_size as int,
            ),
        ),
{
    reveal(list_column);
    let (rep, def, vals) = read_chunk_levels_and_values(
        file,
        cc,
        spec,
        max_def_level,
        max_rep_level,
        max_page_size,
    )?;
    let want: u32 = level_of(outer_optional) + level_of(middle_optional) + level_of(inner_optional) + level_of(item_optional) + 3;
    let top: u32 = absent_levels(max_def_level, want, outer_optional);
    let (max_def, def) = lower_levels(def, max_def_level, top);
    proof {
        lemma_no_maps();
        let opts = seq![outer_optional, middle_optional, inner_optional];
        reveal_with_fuel(list_levels, 4);
        assert(list_levels(opts, item_optional) == want) by {
            assert(opts.drop_last() =~= seq![outer_optional, middle_optional]);
            assert(opts.drop_last().drop_last() =~= seq![outer_optional]);
            assert(opts.drop_last().drop_last().drop_last() =~= seq![]);
        }
        assert(opts.update(0, top > 0) =~= seq![top > 0, middle_optional, inner_optional]);
    }
    assemble_list_of_list_of_list_primitive(
        rep.as_slice(),
        def.as_slice(),
        vals.as_slice(),
        max_def,
        top > 0,
        middle_optional,
        inner_optional,
        item_optional,
    )
}

/// Reads the maps from a leaf to a leaf.
pub fn read_chunk_values_nested_map(
    file: &[u8],
    rg: &RowGroup,
    key_chunk_path: &Vec<String>,
    value_chunk_path: &Vec<String>,
    key_spec: PlainSpec,
    value_spec: PlainSpec,
    key_ptype: Type,
    value_ptype: Type,
    max_def_level: u32,
    outer_optional: bool,
    value_optional: bool,
    max_page_size: usize,
) -> (r: Result<Vec<PqValue>, PqError>)
    ensures
        decodes(
            r,
            map_column(
                file@,
                rg@,
                texts(key_chunk_path@),
                texts(value_chunk_path@),
                key_spec,
                value_spec,
                key_ptype,
                value_ptype,
                max_def_level,
                outer_optional,
                value_optional,
                max_page_size as int,
            ),
        ),
{
    reveal(map_column);
    let (key, value) = locate_pair(
        rg,
        key_chunk_path,
        key_ptype,
        value_chunk_path,
        value_ptype,
        ChunkWords {
            missing: "MAP row group missing key column for path ",
            before: "MAP key column for path ",
            after: " schema/column-chunk physical-type mismatch",
        },
        ChunkWords {
            missing: "MAP row group missing value column for path ",
            before: "MAP value column for path ",
            after: " schema/column-chunk physical-type mismatch",
        },
    )?;
    let key_max_def: u32 = level_under(max_def_level, value_optional);
    let (k_rep, _k_def, k_vals) = read_chunk_levels_and_values(
        file,
        key,
        key_spec,
        key_max_def,
        1,
        max_page_size,
    )?;
    let (v_rep, v_def, v_vals) = read_chunk_levels_and_values(
        file,
        value,
        value_spec,
        max_def_level,
        1,
        max_page_size,
    )?;
    if !same_levels(&k_rep, &v_rep) {
        return Err(bad("MAP key/value rep streams diverge"));
    }
    assemble_map_kv(
        v_rep.as_slice(),
        v_def.as_slice(),
        k_vals.as_slice(),
        v_vals.as_slice(),
        max_def_level,
        outer_optional,
        value_optional,
    )
}

/// Reads the maps from a leaf to a list of leaves.
pub fn read_chunk_values_nested_map_of_list(
    file: &[u8],
    rg: &RowGroup,
    key_chunk_path: &Vec<String>,
    value_chunk_path: &Vec<String>,
    key_spec: PlainSpec,
    value_spec: PlainSpec,
    key_ptype: Type,
    value_ptype: Type,
    max_def_level: u32,
    outer_optional: bool,
    value_item_optional: bool,
    max_page_size: usize,
) -> (r: Result<Vec<PqValue>, PqError>)
    ensures
        decodes(
            r,
            map_of_list_column(
                file@,
                rg@,
                texts(key_chunk_path@),
                texts(value_chunk_path@),
                key_spec,
                value_spec,
                key_ptype,
                value_ptype,
                max_def_level,
                outer_optional,
                value_item_optional,
                max_page_size as int,
            ),
        ),
{
    reveal(map_of_list_column);
    let (key, value) = locate_pair(
        rg,
        key_chunk_path,
        key_ptype,
        value_chunk_path,
        value_ptype,
        ChunkWords {
            missing: "map_of_list row group missing key column for path ",
            before: "map_of_list key column path ",
            after: " ptype mismatch",
        },
        ChunkWords {
            missing: "map_of_list row group missing value column for path ",
            before: "map_of_list value column path ",
            after: " ptype mismatch",
        },
    )?;
    let key_max_def: u32 = if outer_optional {
        2
    } else {
        1
    };
    let (_k_rep, _k_def, k_vals) = read_chunk_levels_and_values(
        file,
        key,
        key_spec,
        key_max_def,
        1,
        max_page_size,
    )?;
    let (v_rep, v_def, v_vals) = read_chunk_levels_and_values(
        file,
        value,
        value_spec,
        max_def_level,
        2,
        max_page_size,
    )?;
    assemble_map_of_list(
        v_rep.as_slice(),
        v_def.as_slice(),
        k_vals.as_slice(),
        v_vals.as_slice(),
        max_def_level,
        outer_optional,
        value_item_optional,
    )
}

/// Reads the lists of maps from a leaf to a leaf.
pub fn read_chunk_values_nested_list_of_map(
    file: &[u8],
    rg: &RowGroup,
    key_chunk_path: &Vec<String>,
    value_chunk_path: &Vec<String>,
    key_spec: PlainSpec,
    value_spec: PlainSpec,
    key_ptype: Type,
    value_ptype: Type,
    max_def_level: u32,
    outer_optional: bool,
    value_optional: bool,
    max_page_size: usize,
) -> (r: Result<Vec<PqValue>, PqError>)
    ensures
        decodes(
            r,
            list_of_map_column(
                file@,
                rg@,
                texts(key_chunk_path@),
                texts(value_chunk_path@),
                key_spec,
                value_spec,
                key_ptype,
                value_ptype,
                max_def_level,
                outer_optional,
                value_optional,
                max_page_size as int,
            ),
        ),
{
    reveal(list_of_map_column);
    let (key, value) = locate_pair(
        rg,
        key_chunk_path,
        key_ptype,
        value_chunk_path,
        value_ptype,
        ChunkWords {
            missing: "list_of_map row group missing key column for path ",
            before: "list_of_map key column path ",
            after: " ptype mismatch",
        },
        ChunkWords {
            missing: "list_of_map row group missing value column for path ",
            before: "list_of_map value column path ",
            after: " ptype mismatch",
        },
    )?;
    let key_max_def: u32 = if outer_optional {
        3
    } else {
        2
    };
    let (k_rep, _k_def, k_vals) = read_chunk_levels_and_values(
        file,
        key,
        key_spec,
        key_max_def,
        2,
        max_page_size,
    )?;
    let (v_rep, v_def, v_vals) = read_chunk_levels_and_values(
        file,
        value,
        value_spec,
        max_def_level,
        2,
        max_page_size,
    )?;
    if !same_levels(&k_rep, &v_rep) {
        return Err(bad("list_of_map: K rep stream diverges from V rep stream"));
    }
    assemble_list_of_map_kv(
        v_rep.as_slice(),
        v_def.as_slice(),
        k_vals.as_slice(),
        v_vals.as_slice(),
        max_def_level,
        outer_optional,
        value_optional,
    )
}

/// Reads the maps from a leaf to a map from a leaf to a leaf.
pub fn read_chunk_values_nested_map_of_map(
    file: &[u8],
    rg: &RowGroup,
    outer_key_chunk_path: &Vec<String>,
    inner_key_chunk_path: &Vec<String>,
    inner_value_chunk_path: &Vec<String>,
    outer_key_spec: PlainSpec,
    inner_key_spec: PlainSpec,
    inner_value_spec: PlainSpec,
    outer_key_ptype: Type,
    inner_key_ptype: Type,
    inner_value_ptype: Type,
    max_def_level: u32,
    outer_optional: bool,
    inner_value_optional: bool,
    max_page_size: usize,
) -> (r: Result<Vec<PqValue>, PqError>)
    ensures
        decodes(
            r,
            map_of_map_column(
                file@,
                rg@,
                MapOfMap {
                    outer_key_path: texts(outer_key_chunk_path@),
                    inner_key_path: texts(inner_key_chunk_path@),
                    inner_value_path: texts(inner_value_chunk_path@),
                    outer_key_spec,
                    inner_key_spec,
                    inner_value_spec,
                    outer_key_ptype,
                    inner_key_ptype,
                    inner_value_ptype,
                },
                max_def_level,
                outer_optional,
                inner_value_optional,
                max_page_size as int,
            ),
        ),
{
    reveal(map_of_map_column);
    let ok = find_chunk(
        rg,
        outer_key_chunk_path,
        "map_of_map row group missing outer-key column for path ",
    )?;
    let ik = find_chunk(
        rg,
        inner_key_chunk_path,
        "map_of_map row group missing inner-key column for path ",
    )?;
    let iv = find_chunk(
        rg,
        inner_value_chunk_path,
        "map_of_map row group missing inner-value column for path ",
    )?;
    check_type(
        ok,
        outer_key_ptype,
        outer_key_chunk_path,
        "map_of_map outer-key column path ",
        " ptype mismatch",
    )?;
    check_type(
        ik,
        inner_key_ptype,
        inner_key_chunk_path,
        "map_of_map inner-key column path ",
        " ptype mismatch",
    )?;
    check_type(
        iv,
        inner_value_ptype,
        inner_value_chunk_path,
        "map_of_map inner-value column path ",
        " ptype mismatch",
    )?;
    let outer_key_max_def: u32 = if outer_optional {
        2
    } else {
        1
    };
    let (_o_rep, _o_def, o_vals) = read_chunk_levels_and_values(
        file,
        ok,
        outer_key_spec,
        outer_key_max_def,
        1,
        max_page_size,
    )?;
    let (k_rep, _k_def, k_vals) = read_chunk_levels_and_values(
        file,
        ik,
        inner_key_spec,
        outer_key_max_def + 1,
        2,
        max_page_size,
    )?;
    let (v_rep, v_def, v_vals) = read_chunk_levels_and_values(
        file,
        iv,
        inner_value_spec,
        max_def_level,
        2,
        max_page_size,
    )?;
    if !same_levels(&k_rep, &v_rep) {
        return Err(bad("map_of_map: inner-K rep stream diverges from inner-V rep stream"));
    }
    assemble_map_of_map_kv(
        v_rep.as_slice(),
        v_def.as_slice(),
        o_vals.as_slice(),
        k_vals.as_slice(),
        v_vals.as_slice(),
        max_def_level,
        outer_optional,
        inner_value_optional,
    )
}

/// A copy of the fields' names.
fn copy_names(fields: &Vec<StructField>) -> (r: Vec<String>)
    ensures
        texts(r@) == field_names(fields_view(fields@)),
{
    let mut out: Vec<String> = Vec::new();
    let mut i: usize = 0;
    while i < fields.len()
        invariant
            i <= fields@.len(),
            out@.len() == i,
            forall|j: int| 0 <= j < i ==> (#[trigger] out@[j])@ == fields@[j].name@,
        decreases fields@.len() - i,
    {
        out.push(fields[i].name.clone());
        i = i + 1;
    }
    proof {
        assert(texts(out@) =~= field_names(fields_view(fields@))) by {
            assert forall|j: int| 0 <= j < fields@.len() implies #[trigger] texts(out@)[j]
                == field_names(fields_view(fields@))[j] by {
                lemma_fields_view(fields@);
            }
        }
    }
    out
}

/// The levels of a struct's first field, and the values of all its fields.
type FieldLevels = (Vec<u32>, Vec<u32>, Vec<Vec<PqValue>>);

proof fn lemma_at_max_grow(def: Seq<u32>, max: u32, i: int)
    requires
        0 <= i <= def.len(),
    ensures
        at_max(def.take(i), max) <= at_max(def, max),
    decreases def.len() - i,
{
    if i == def.len() {
        assert(def.take(i) =~= def);
    } else {
        assert(def.take(i + 1).drop_last() =~= def.take(i));
        lemma_at_max_grow(def, max, i + 1);
    }
}

/// The values of a field in the structs that are there.
fn fill_slots(def: &Vec<u32>, level: u32, max: u32, vals: &Vec<PqValue>) -> (r: Vec<PqValue>)
    requires
        vals@.len() == at_max(def@, max),
    ensures
        values(r@) == slots(def@, level, max, values(vals@)),
{
    let mut out: Vec<PqValue> = Vec::new();
    let mut k: usize = 0;
    let mut i: usize = 0;
    proof {
        assert(def@.take(0) =~= seq![]);
        assert(values(out@) =~= seq![]);
    }
    while i < def.len()
        invariant
            i <= def@.len(),
            vals@.len() == at_max(def@, max),
            k <= i,
            k == at_max(def@.take(i as int), max),
            values(out@) == slots(def@.take(i as int), level, max, values(vals@)),
        decreases def@.len() - i,
    {
        let ghost before = out@;
        let ghost next = def@.take(i + 1);
        proof {
            assert(next.drop_last() =~= def@.take(i as int));
            lemma_at_max_grow(def@, max, i + 1);
        }
        let d: u32 = def[i];
        if d >= level {
            if d == max {
                out.push(vals[k].clone());
            } else {
                out.push(PqValue::Null);
            }
            proof {
                assert(values(out@) =~= values(before).push(out@.last()@));
                if d != max {
                    assert(out@.last()@ == PqV::Null);
                }
            }
        }
        if d == max {
            k = k + 1;
        }
        i = i + 1;
    }
    proof {
        assert(def@.take(i as int) =~= def@);
    }
    out
}

/// Reads the levels of a struct's first field, and the values of all its fields in the structs that
/// are there.
fn read_leaf_fields(
    file: &[u8],
    rg: &RowGroup,
    fields: &Vec<StructField>,
    w: FieldWords,
    max_page_size: usize,
) -> (r: Result<FieldLevels, PqError>)
    ensures
        match (
            r,
            leaf_fields(
                file@,
                rg@,
                fields_view(fields@),
                fields@.len(),
                w,
                max_page_size as int,
            ),
        ) {
            (Ok(v), Ok(x)) => v.0@ == x.0 && v.1@ == x.1 && column_values(v.2@) == x.2,
            (Err(x), Err(y)) => x@ == y,
            _ => false,
        },
{
    let mut rep: Vec<u32> = Vec::new();
    let mut def: Vec<u32> = Vec::new();
    let mut columns: Vec<Vec<PqValue>> = Vec::new();
    let ghost fv = fields_view(fields@);
    let mut i: usize = 0;
    proof {
        assert(rep@ =~= seq![]);
        assert(def@ =~= seq![]);
        assert(column_values(columns@) =~= seq![]);
    }
    while i < fields.len()
        invariant
            i <= fields@.len(),
            fv == fields_view(fields@),
            leaf_fields(file@, rg@, fv, i as nat, w, max_page_size as int) == Ok::<
                (Seq<u32>, Seq<u32>, Seq<Seq<PqV>>),
                PqErrorView,
            >((rep@, def@, column_values(columns@))),
        decreases fields@.len() - i,
    {
        let f = &fields[i];
        proof {
            lemma_fields_view(fields@);
            lemma_leaf_fields_error(
                file@,
                rg@,
                fv,
                (i + 1) as nat,
                fields@.len(),
                w,
                max_page_size as int,
            );
        }
        let cc = locate(rg, &f.chunk_path, f.ptype, w.chunk)?;
        let (r, d, v) = read_chunk_levels_and_values(
            file,
            cc,
            f.spec,
            f.max_def_level,
            1,
            max_page_size,
        )?;
        proof {
            law_chunk_len(file@, cc@, f.spec, f.max_def_level, 1, max_page_size as int);
        }
        let level: u32 = level_under(f.max_def_level, f.optional);
        let column = fill_slots(&d, level, f.max_def_level, &v);
        if i == 0 {
            rep = r;
            def = d;
        } else if !same_levels(&rep, &r) {
            return Err(PqError::Bad(text3(w.diverge, f.name.as_str(), w.diverge_end)));
        }
        let ghost before = columns@;
        columns.push(column);
        proof {
            assert(column_values(columns@) =~= column_values(before).push(values(column@)));
        }
        i = i + 1;
    }
    Ok((rep, def, columns))
}

proof fn lemma_leaf_fields_error(
    file: Seq<u8>,
    g: RowGroupView,
    fields: Seq<FieldView>,
    few: nat,
    k: nat,
    w: FieldWords,
    cap: int,
)
    requires
        few <= k,
    ensures
        leaf_fields(file, g, fields, few, w, cap) matches Err(e) ==> leaf_fields(
            file,
            g,
            fields,
            k,
            w,
            cap,
        ) == Err::<(Seq<u32>, Seq<u32>, Seq<Seq<PqV>>), PqErrorView>(e),
    decreases k,
{
    if few < k {
        lemma_leaf_fields_error(file, g, fields, few, (k - 1) as nat, w, cap);
    }
}

/// Reads the lists of structs of leaves.
pub fn read_chunk_values_nested_list_of_struct(
    file: &[u8],
    rg: &RowGroup,
    fields: &Vec<StructField>,
    outer_optional: bool,
    list_max_def_level: u32,
    max_page_size: usize,
) -> (r: Result<Vec<PqValue>, PqError>)
    ensures
        decodes(
            r,
            list_of_struct_column(
                file@,
                rg@,
                fields_view(fields@),
                outer_optional,
                list_max_def_level,
                max_page_size as int,
            ),
        ),
{
    reveal(list_of_struct_column);
    if fields.len() == 0 {
        return Err(bad("list_of_struct: no fields"));
    }
    let w = FieldWords {
        chunk: ChunkWords {
            missing: "list_of_struct row group missing column for path ",
            before: "list_of_struct field column for path ",
            after: " ptype mismatch",
        },
        diverge: "list_of_struct: field '",
        diverge_end: "' rep stream diverges from authoritative field",
    };
    let (rep, def, columns) = read_leaf_fields(file, rg, fields, w, max_page_size)?;
    let names = copy_names(fields);
    assemble_list_of_struct(
        rep.as_slice(),
        def.as_slice(),
        names.as_slice(),
        columns.as_slice(),
        list_max_def_level,
        outer_optional,
    )
}

/// Reads the maps from a leaf to a struct of leaves.
pub fn read_chunk_values_nested_map_of_struct(
    file: &[u8],
    rg: &RowGroup,
    key_chunk_path: &Vec<String>,
    key_spec: PlainSpec,
    key_ptype: Type,
    value_fields: &Vec<StructField>,
    outer_optional: bool,
    map_max_def_level: u32,
    max_page_size: usize,
) -> (r: Result<Vec<PqValue>, PqError>)
    ensures
        decodes(
            r,
            map_of_struct_column(
                file@,
                rg@,
                texts(key_chunk_path@),
                key_spec,
                key_ptype,
                fields_view(value_fields@),
                outer_optional,
                map_max_def_level,
                max_page_size as int,
            ),
        ),
{
    reveal(map_of_struct_column);
    if value_fields.len() == 0 {
        return Err(bad("map_of_struct: no value fields"));
    }
    let key = locate(
        rg,
        key_chunk_path,
        key_ptype,
        ChunkWords {
            missing: "map_of_struct row group missing key column for path ",
            before: "map_of_struct key column path ",
            after: " ptype mismatch",
        },
    )?;
    let (k_rep, _k_def, k_vals) = read_chunk_levels_and_values(
        file,
        key,
        key_spec,
        map_max_def_level,
        1,
        max_page_size,
    )?;
    let w = FieldWords {
        chunk: ChunkWords {
            missing: "map_of_struct row group missing value-field column for path ",
            before: "map_of_struct value-field column path ",
            after: " ptype mismatch",
        },
        diverge: "map_of_struct: value field '",
        diverge_end: "' rep stream diverges from authoritative",
    };
    let (rep, def, columns) = read_leaf_fields(file, rg, value_fields, w, max_page_size)?;
    if !same_levels(&k_rep, &rep) {
        return Err(bad("map_of_struct: K rep stream diverges from V field rep stream"));
    }
    let names = copy_names(value_fields);
    assemble_map_of_struct(
        rep.as_slice(),
        def.as_slice(),
        k_vals.as_slice(),
        names.as_slice(),
        columns.as_slice(),
        map_max_def_level,
        outer_optional,
    )
}

/// Whether a chunk is a list's leaf of the type.
fn chunk_is_element(cc: &ColumnChunk, ptype: Type) -> (r: bool)
    ensures
        r == is_element(cc@, ptype),
{
    if cc.ptype != ptype || cc.path.len() == 0 {
        return false;
    }
    let last = &cc.path[cc.path.len() - 1];
    same_text(last.as_str(), "element")
}

/// The only chunk that is a list's leaf of the type.
fn find_only_element<'a>(rg: &'a RowGroup, ptype: Type, complaint: &str) -> (r: Result<
    &'a ColumnChunk,
    PqError,
>)
    ensures
        match (r, only_element(rg@, ptype, complaint@)) {
            (Ok(v), Ok(w)) => v@ == w,
            (Err(x), Err(y)) => x@ == y,
            _ => false,
        },
{
    let mut count: usize = 0;
    let mut at: usize = 0;
    let mut i: usize = 0;
    while i < rg.columns.len()
        invariant
            i <= rg.columns@.len(),
            count <= i,
            count == element_chunks(rg@.columns, ptype, i as int).len(),
            count > 0 ==> at < i && element_chunks(rg@.columns, ptype, i as int)[count - 1]
                == rg.columns@[at as int]@,
        decreases rg.columns@.len() - i,
    {
        assert(rg@.columns[i as int] == rg.columns@[i as int]@);
        if chunk_is_element(&rg.columns[i], ptype) {
            count = count + 1;
            at = i;
        }
        i = i + 1;
    }
    if count != 1 {
        let n = decimal_text(count as i128);
        let mut m = complaint.to_owned();
        m.append(n.as_str());
        return Err(PqError::Bad(m));
    }
    Ok(&rg.columns[at])
}

/// Reads the lists of the only leaf of the type.
fn decode_list_primitive_in_rg(
    file: &[u8],
    rg: &RowGroup,
    spec: PlainSpec,
    ptype: Type,
    max_def_level: u32,
    max_rep_level: u32,
    outer_optional: bool,
    element_optional: bool,
    max_page_size: usize,
) -> (r: Result<Vec<PqValue>, PqError>)
    ensures
        decodes(
            r,
            only_list_column(
                file@,
                rg@,
                spec,
                ptype,
                max_def_level,
                max_rep_level,
                seq![outer_optional],
                element_optional,
                "decode_list_primitive_in_rg: expected 1 candidate chunk, found "@,
                max_page_size as int,
            ),
        ),
{
    reveal(only_list_column);
    let cc = find_only_element(
        rg,
        ptype,
        "decode_list_primitive_in_rg: expected 1 candidate chunk, found ",
    )?;
    read_chunk_values_nested(
        file,
        cc,
        spec,
        max_def_level,
        max_rep_level,
        outer_optional,
        element_optional,
        max_page_size,
    )
}

/// Reads the lists of lists of the only leaf of the type.
fn decode_list_of_list_primitive_in_rg(
    file: &[u8],
    rg: &RowGroup,
    spec: PlainSpec,
    ptype: Type,
    max_def_level: u32,
    max_rep_level: u32,
    outer_optional: bool,
    inner_optional: bool,
    item_optional: bool,
    max_page_size: usize,
) -> (r: Result<Vec<PqValue>, PqError>)
    ensures
        decodes(
            r,
            only_list_column(
                file@,
                rg@,
                spec,
                ptype,
                max_def_level,
                max_rep_level,
                seq![outer_optional, inner_optional],
                item_optional,
                "decode_list_of_list_primitive_in_rg: expected 1 candidate, found "@,
                max_page_size as int,
            ),
        ),
{
    reveal(only_list_column);
    let cc = find_only_element(
        rg,
        ptype,
        "decode_list_of_list_primitive_in_rg: expected 1 candidate, found ",
    )?;
    read_list_of_list(
        file,
        cc,
        spec,
        max_def_level,
        max_rep_level,
        outer_optional,
        inner_optional,
        item_optional,
        max_page_size,
    )
}

/// Reads the lists of lists of lists of the only leaf of the type.
fn decode_list_of_list_of_list_primitive_in_rg(
    file: &[u8],
    rg: &RowGroup,
    spec: PlainSpec,
    ptype: Type,
    max_def_level: u32,
    max_rep_level: u32,
    outer_optional: bool,
    middle_optional: bool,
    inner_optional: bool,
    item_optional: bool,
    max_page_size: usize,
) -> (r: Result<Vec<PqValue>, PqError>)
    ensures
        decodes(
            r,
            only_list_column(
                file@,
                rg@,
                spec,
                ptype,
                max_def_level,
                max_rep_level,
                seq![outer_optional, middle_optional, inner_optional],
                item_optional,
                "decode_list_of_list_of_list_primitive_in_rg: expected 1 candidate, found "@,
                max_page_size as int,
            ),
        ),
{
    reveal(only_list_column);
    let cc = find_only_element(
        rg,
        ptype,
        "decode_list_of_list_of_list_primitive_in_rg: expected 1 candidate, found ",
    )?;
    read_list_of_list_of_list(
        file,
        cc,
        spec,
        max_def_level,
        max_rep_level,
        outer_optional,
        middle_optional,
        inner_optional,
        item_optional,
        max_page_size,
    )
}

proof fn lemma_field_columns_error(
    file: Seq<u8>,
    g: RowGroupView,
    fields: Seq<FieldView>,
    few: nat,
    k: nat,
    cap: int,
)
    requires
        few <= k <= fields.len(),
    ensures
        field_columns(file, g, fields, few, cap) matches Err(e) ==> field_columns(
            file,
            g,
            fields,
            k,
            cap,
        ) == Err::<Seq<Seq<PqV>>, PqErrorView>(e),
    decreases k,
{
    if few < k {
        lemma_field_columns_error(file, g, fields, few, (k - 1) as nat, cap);
    }
}

/// Reads the column of a struct's field.
fn read_field(file: &[u8], rg: &RowGroup, f: &StructField, max_page_size: usize) -> (r: Result<
    Vec<PqValue>,
    PqError,
>)
    ensures
        decodes(r, field_column(file@, rg@, field_view(*f), max_page_size as int)),
    decreases f, 0int,
{
    match &f.nested {
        Some(kind) => decode_field_by_kind(file, rg, kind, max_page_size),
        None => {
            let cc = locate(
                rg,
                &f.chunk_path,
                f.ptype,
                ChunkWords {
                    missing: "struct row group missing column for path ",
                    before: "struct field column for path ",
                    after: " schema/column-chunk physical-type mismatch",
                },
            )?;
            read_chunk_values(file, cc, f.spec, f.max_def_level, max_page_size)
        },
    }
}

/// Reads the structs of fields of any shape.
pub fn read_chunk_values_nested_struct(
    file: &[u8],
    rg: &RowGroup,
    fields: &Vec<StructField>,
    outer_optional: bool,
    max_page_size: usize,
) -> (r: Result<Vec<PqValue>, PqError>)
    ensures
        decodes(
            r,
            struct_column(
                file@,
                rg@,
                fields_view(fields@),
                outer_optional,
                max_page_size as int,
            ),
        ),
    decreases fields, 0int,
{
    let mut columns: Vec<Vec<PqValue>> = Vec::new();
    let ghost fv = fields_view(fields@);
    let mut i: usize = 0;
    proof {
        lemma_fields_view(fields@);
        assert(column_values(columns@) =~= seq![]);
    }
    while i < fields.len()
        invariant
            i <= fields@.len(),
            fv == fields_view(fields@),
            fv.len() == fields@.len(),
            field_columns(file@, rg@, fv, i as nat, max_page_size as int) == Ok::<
                Seq<Seq<PqV>>,
                PqErrorView,
            >(column_values(columns@)),
        decreases fields@.len() - i,
    {
        proof {
            lemma_fields_view(fields@);
            lemma_field_columns_error(
                file@,
                rg@,
                fv,
                (i + 1) as nat,
                fields@.len(),
                max_page_size as int,
            );
            assert(decreases_to!(*fields => fields@[i as int]));
        }
        let v = read_field(file, rg, &fields[i], max_page_size)?;
        let ghost before = columns@;
        columns.push(v);
        proof {
            assert(column_values(columns@) =~= column_values(before).push(values(v@)));
        }
        i = i + 1;
    }
    let names = copy_names(fields);
    assemble_struct(names.as_slice(), columns.as_slice(), outer_optional)
}

/// Reads the column of a shape.
pub fn decode_field_by_kind(
    file: &[u8],
    rg: &RowGroup,
    kind: &ColumnKind,
    max_page_size: usize,
) -> (r: Result<Vec<PqValue>, PqError>)
    ensures
        decodes(r, kind_column(file@, rg@, kind_view(*kind), max_page_size as int)),
    decreases kind, 0int,
{
    match kind {
        ColumnKind::Flat { .. } => Err(
            bad("decode_field_by_kind: Flat should not be wrapped"),
        ),
        ColumnKind::NestedListPrimitive {
            spec,
            ptype,
            max_def_level,
            max_rep_level,
            outer_optional,
            element_optional,
        } => decode_list_primitive_in_rg(
            file,
            rg,
            *spec,
            *ptype,
            *max_def_level,
            *max_rep_level,
            *outer_optional,
            *element_optional,
            max_page_size,
        ),
        ColumnKind::NestedMapKV {
            key_spec,
            value_spec,
            key_ptype,
            value_ptype,
            key_chunk_path,
            value_chunk_path,
            max_def_level,
            outer_optional,
            value_optional,
        } => read_chunk_values_nested_map(
            file,
            rg,
            key_chunk_path,
            value_chunk_path,
            *key_spec,
            *value_spec,
            *key_ptype,
            *value_ptype,
            *max_def_level,
            *outer_optional,
            *value_optional,
            max_page_size,
        ),
        ColumnKind::NestedStruct { outer_optional, fields } => read_chunk_values_nested_struct(
            file,
            rg,
            fields,
            *outer_optional,
            max_page_size,
        ),
        ColumnKind::NestedListOfListPrimitive {
            spec,
            ptype,
            max_def_level,
            max_rep_level,
            outer_optional,
            inner_optional,
            item_optional,
        } => decode_list_of_list_primitive_in_rg(
            file,
            rg,
            *spec,
            *ptype,
            *max_def_level,
            *max_rep_level,
            *outer_optional,
            *inner_optional,
            *item_optional,
            max_page_size,
        ),
        ColumnKind::NestedListOfStruct { outer_optional, list_max_def_level, fields } =>
            read_chunk_values_nested_list_of_struct(
                file,
                rg,
                fields,
                *outer_optional,
                *list_max_def_level,
                max_page_size,
            ),
        ColumnKind::NestedMapOfStruct {
            outer_optional,
            key_spec,
            key_ptype,
            key_chunk_path,
            map_max_def_level,
            value_fields,
        } => read_chunk_values_nested_map_of_struct(
            file,
            rg,
            key_chunk_path,
            *key_spec,
            *key_ptype,
            value_fields,
            *outer_optional,
            *map_max_def_level,
            max_page_size,
        ),
        ColumnKind::NestedMapOfList {
            outer_optional,
            key_spec,
            key_ptype,
            key_chunk_path,
            value_spec,
            value_ptype,
            value_chunk_path,
            max_def_level,
            value_item_optional,
        } => read_chunk_values_nested_map_of_list(
            file,
            rg,
            key_chunk_path,
            value_chunk_path,
            *key_spec,
            *value_spec,
            *key_ptype,
            *value_ptype,
            *max_def_level,
            *outer_optional,
            *value_item_optional,
            max_page_size,
        ),
        ColumnKind::NestedListOfListOfListPrimitive {
            spec,
            ptype,
            max_def_level,
            max_rep_level,
            outer_optional,
            middle_optional,
            inner_optional,
            item_optional,
        } => decode_list_of_list_of_list_primitive_in_rg(
            file,
            rg,
            *spec,
            *ptype,
            *max_def_level,
            *max_rep_level,
            *outer_optional,
            *middle_optional,
            *inner_optional,
            *item_optional,
            max_page_size,
        ),
        ColumnKind::NestedListOfMap {
            outer_optional,
            key_spec,
            key_ptype,
            key_chunk_path,
            value_spec,
            value_ptype,
            value_chunk_path,
            max_def_level,
            value_optional,
        } => read_chunk_values_nested_list_of_map(
            file,
            rg,
            key_chunk_path,
            value_chunk_path,
            *key_spec,
            *value_spec,
            *key_ptype,
            *value_ptype,
            *max_def_level,
            *outer_optional,
            *value_optional,
            max_page_size,
        ),
        ColumnKind::NestedMapOfMap {
            outer_optional,
            outer_key_spec,
            outer_key_ptype,
            outer_key_chunk_path,
            inner_key_spec,
            inner_key_ptype,
            inner_key_chunk_path,
            inner_value_spec,
            inner_value_ptype,
            inner_value_chunk_path,
            max_def_level,
            inner_value_optional,
        } => read_chunk_values_nested_map_of_map(
            file,
            rg,
            outer_key_chunk_path,
            inner_key_chunk_path,
            inner_value_chunk_path,
            *outer_key_spec,
            *inner_key_spec,
            *inner_value_spec,
            *outer_key_ptype,
            *inner_key_ptype,
            *inner_value_ptype,
            *max_def_level,
            *outer_optional,
            *inner_value_optional,
            max_page_size,
        ),
    }
}

} // verus!
