//! Which shape a wanted column has, from the schema.
use vstd::prelude::*;
use vstd::string::*;

use crate::error::{
    bad, decimal, decimal_text, text3, text5, text7, truth, truth_text, PqError, PqErrorView,
};
use crate::leaf::{build_named_spec, build_pair_specs, named_spec, pair_specs};
use crate::plain::PlainSpec;
use crate::plan::{
    fields_view, lemma_fields_view, ColumnKind, ColumnPlan, FieldView, KindView, PlanView,
    StructField,
};
use crate::schema::{
    leaf_views, lemma_group_view, node_views, LogicalType, Repetition, SchemaLeaf, SchemaLeafView,
    SchemaNode, SchemaNodeView, Type,
};
use crate::text::{copy_texts, same_text, texts};

verus! {

/// The names of a path.
pub type Path = Seq<Seq<char>>;

/// A path without its first name, that of the schema's root.
pub open spec fn below_root(p: Path) -> Path {
    if p.len() == 0 {
        p
    } else {
        p.skip(1)
    }
}

/// One level for a field that may be absent.
pub open spec fn level(optional: bool) -> int {
    if optional {
        1
    } else {
        0
    }
}

/// The name of an unknown physical type.
pub open spec fn other_name(t: Type) -> Seq<char> {
    match t {
        Type::Other(n) => "Other("@ + decimal(n as int) + ")"@,
        _ => ""@,
    }
}

/// Whether a field may be absent.
pub open spec fn optional(r: Repetition) -> bool {
    r is Optional
}

/// The children of the repeated group that is the only child of a list or map, of which there must
/// be `n`. Any other form is refused: `prefix`, the name and one of the three suffixes say why.
pub open spec fn repeated_middle(
    children: Seq<SchemaNodeView>,
    n: int,
    prefix: Seq<char>,
    name: Seq<char>,
    not_one: Seq<char>,
    not_repeated: Seq<char>,
    not_n: Seq<char>,
) -> Result<Seq<SchemaNodeView>, PqErrorView> {
    if children.len() != 1 {
        Err(PqErrorView::Unsupported(prefix + name + not_one))
    } else {
        match children[0] {
            SchemaNodeView::Group { repetition, children: inner, .. } => if repetition is Repeated {
                if inner.len() != n {
                    Err(PqErrorView::Unsupported(prefix + name + not_n))
                } else {
                    Ok(inner)
                }
            } else {
                Err(PqErrorView::Unsupported(prefix + name + not_repeated))
            },
            _ => Err(PqErrorView::Unsupported(prefix + name + not_repeated)),
        }
    }
}

/// The plan of a leaf right below the root.
pub open spec fn flat_plan(
    name: Seq<char>,
    ptype: Type,
    rep: Repetition,
    def: u32,
    path: Path,
    leaves: Seq<SchemaLeafView>,
) -> Result<PlanView, PqErrorView> {
    if rep is Repeated {
        Err(PqErrorView::Unsupported("REPEATED columns: OBJ-2c"@))
    } else if rep is Other {
        Err(PqErrorView::Unsupported("unknown repetition: OBJ-2c"@))
    } else if def != level(optional(rep)) {
        Err(
            PqErrorView::Bad(
                "flat leaf `"@ + name + "` schema-tree max_def_level="@ + decimal(def as int)
                    + " disagrees with repetition-derived "@ + decimal(level(optional(rep))),
            ),
        )
    } else if ptype is Other {
        Err(PqErrorView::Unsupported("physical type "@ + other_name(ptype) + ": OBJ-2c"@))
    } else {
        match named_spec(
            leaves,
            name,
            "tree leaf `"@ + name + "` missing from flat leaves list"@,
        ) {
            Err(x) => Err(x),
            Ok(spec) => Ok(
                PlanView {
                    chunk_path: below_root(path),
                    kind: KindView::Flat { spec, ptype, max_def_level: def },
                },
            ),
        }
    }
}

/// The plan of a list of leaves.
pub open spec fn list_primitive_plan(
    name: Seq<char>,
    outer_optional: bool,
    leaf: SchemaNodeView,
    leaves: Seq<SchemaLeafView>,
) -> Result<PlanView, PqErrorView>
    recommends
        leaf is Leaf,
{
    let ptype = leaf->Leaf_ptype;
    let def = leaf->max_def_level;
    let rep = leaf->max_rep_level;
    let lname = leaf->Leaf_name;
    let element_optional = optional(leaf->Leaf_repetition);
    let want = level(outer_optional) + 1 + level(element_optional);
    if def != want {
        Err(
            PqErrorView::Bad(
                "nested LIST `"@ + name + "` leaf max_def_level="@ + decimal(def as int)
                    + " disagrees with expected "@ + decimal(want),
            ),
        )
    } else if rep != 1 {
        Err(
            PqErrorView::Bad(
                "nested LIST `"@ + name + "` leaf max_rep_level="@ + decimal(rep as int)
                    + " != 1"@,
            ),
        )
    } else if ptype is Other {
        Err(
            PqErrorView::Unsupported(
                "LIST<"@ + other_name(ptype) + ">: physical type not supported in OBJ-2c"@,
            ),
        )
    } else {
        match named_spec(
            leaves,
            lname,
            "LIST leaf `"@ + lname + "` missing from flat leaves list"@,
        ) {
            Err(x) => Err(x),
            Ok(spec) => Ok(
                PlanView {
                    chunk_path: below_root(leaf->path),
                    kind: KindView::NestedListPrimitive {
                        spec,
                        ptype,
                        max_def_level: def,
                        max_rep_level: rep,
                        outer_optional,
                        element_optional,
                    },
                },
            ),
        }
    }
}

/// The plan of a list of lists of leaves.
pub open spec fn list_list_primitive_plan(
    outer: Seq<char>,
    outer_optional: bool,
    inner_optional: bool,
    leaf: SchemaNodeView,
    leaves: Seq<SchemaLeafView>,
) -> Result<PlanView, PqErrorView>
    recommends
        leaf is Leaf,
{
    let ptype = leaf->Leaf_ptype;
    let def = leaf->max_def_level;
    let rep = leaf->max_rep_level;
    let lname = leaf->Leaf_name;
    let item_optional = optional(leaf->Leaf_repetition);
    let want = level(outer_optional) + 1 + level(inner_optional) + 1 + level(item_optional);
    if ptype is Other {
        Err(
            PqErrorView::Unsupported(
                "List<List<"@ + other_name(ptype) + ">> `"@ + outer
                    + "`: physical type not in OBJ-2c allow-list"@,
            ),
        )
    } else if def != want {
        Err(
            PqErrorView::Bad(
                "List<List> `"@ + outer + "` leaf max_def_level="@ + decimal(def as int)
                    + " disagrees with expected "@ + decimal(want) + " (outer_opt="@ + (truth(
                    outer_optional,
                ) + ", inner_opt="@ + truth(inner_optional) + ", item_opt="@ + truth(item_optional))
                    + ")"@,
            ),
        )
    } else if rep != 2 {
        Err(
            PqErrorView::Bad(
                "List<List> `"@ + outer + "` leaf max_rep_level="@ + decimal(rep as int)
                    + " != 2"@,
            ),
        )
    } else {
        match named_spec(
            leaves,
            lname,
            "List<List> `"@ + outer + "` leaf `"@ + lname + "` missing from flat leaves list"@,
        ) {
            Err(x) => Err(x),
            Ok(spec) => Ok(
                PlanView {
                    chunk_path: below_root(leaf->path),
                    kind: KindView::NestedListOfListPrimitive {
                        spec,
                        ptype,
                        max_def_level: def,
                        max_rep_level: rep,
                        outer_optional,
                        inner_optional,
                        item_optional,
                    },
                },
            ),
        }
    }
}

/// The plan of a list of lists of the group `element`.
pub open spec fn list_list_group_plan(
    outer: Seq<char>,
    outer_optional: bool,
    middle_optional: bool,
    element: SchemaNodeView,
    leaves: Seq<SchemaLeafView>,
) -> Result<PlanView, PqErrorView>
    recommends
        element is Group,
{
    match element->logical_type {
        Some(LogicalType::MapKv) => Err(
            PqErrorView::Unsupported("List<List<Map<...>>> `"@ + outer + "`: SP147 follow-up"@),
        ),
        None => Err(
            PqErrorView::Unsupported("List<List<struct<...>>> `"@ + outer + "`: SP147 follow-up"@),
        ),
        Some(LogicalType::List) => match repeated_middle(
            element->children,
            1,
            "List<List<List>> `"@,
            outer,
            "` inner-list outer children != 1: non-canonical"@,
            "` innermost-list middle not REPEATED"@,
            "` innermost-list middle children != 1"@,
        ) {
            Err(x) => Err(x),
            Ok(inner) => match inner[0] {
                SchemaNodeView::Group { .. } => Err(
                    PqErrorView::Unsupported(
                        "List<List<List<group>>> `"@ + outer
                            + "` — 4+ deep LIST nesting: SP147 follow-up"@,
                    ),
                ),
                SchemaNodeView::Leaf {
                    name: lname,
                    ptype,
                    repetition,
                    max_def_level: def,
                    max_rep_level: rep,
                    path,
                } => {
                    let inner_optional = optional(element->Group_repetition);
                    let item_optional = optional(repetition);
                    let want = level(outer_optional) + 1 + level(middle_optional) + 1 + level(
                        inner_optional,
                    ) + 1 + level(item_optional);
                    if ptype is Other {
                        Err(
                            PqErrorView::Unsupported(
                                "List<List<List<"@ + other_name(ptype) + ">>> `"@ + outer
                                    + "`: physical type not in OBJ-2c allow-list"@,
                            ),
                        )
                    } else if def != want {
                        Err(
                            PqErrorView::Bad(
                                "List<List<List>> `"@ + outer + "` leaf max_def_level="@ + decimal(
                                    def as int,
                                ) + " disagrees with expected "@ + decimal(want) + " (outer_opt="@
                                    + (truth(outer_optional) + ", middle_opt="@ + truth(
                                    middle_optional,
                                ) + ", inner_opt="@ + truth(inner_optional) + ", item_opt="@
                                    + truth(item_optional)) + ")"@,
                            ),
                        )
                    } else if rep != 3 {
                        Err(
                            PqErrorView::Bad(
                                "List<List<List>> `"@ + outer + "` leaf max_rep_level="@ + decimal(
                                    rep as int,
                                ) + " != 3"@,
                            ),
                        )
                    } else {
                        match named_spec(
                            leaves,
                            lname,
                            "List<List<List>> `"@ + outer + "` leaf `"@ + lname
                                + "` missing from flat leaves list"@,
                        ) {
                            Err(x) => Err(x),
                            Ok(spec) => Ok(
                                PlanView {
                                    chunk_path: below_root(path),
                                    kind: KindView::NestedListOfListOfListPrimitive {
                                        spec,
                                        ptype,
                                        max_def_level: def,
                                        max_rep_level: rep,
                                        outer_optional,
                                        middle_optional,
                                        inner_optional,
                                        item_optional,
                                    },
                                },
                            ),
                        }
                    }
                },
            },
        },
    }
}

/// The words with which a map inside a list or inside a map is refused.
pub struct MapWords {
    pub what: Seq<char>,
    pub what_key: Seq<char>,
    pub what_type: Seq<char>,
    pub key: Seq<char>,
    pub value: Seq<char>,
    pub key_level: Seq<char>,
    pub value_level: Seq<char>,
    pub levels: Seq<char>,
}

/// The words for a map inside a list.
pub open spec fn list_map_words() -> MapWords {
    MapWords {
        what: "List<Map> `"@,
        what_key: "List<Map<_>> `"@,
        what_type: "List<Map> `"@,
        key: "key"@,
        value: "value"@,
        key_level: "` K max_def_level="@,
        value_level: "` V max_def_level="@,
        levels: "` K/V max_rep_level="@,
    }
}

/// The words for a map inside a map.
pub open spec fn map_map_words() -> MapWords {
    MapWords {
        what: "MAP<_, Map> `"@,
        what_key: "MAP<_, Map<_>> `"@,
        what_type: "MAP<_, Map<>> `"@,
        key: "inner key"@,
        value: "inner value"@,
        key_level: "` inner K max_def_level="@,
        value_level: "` inner V max_def_level="@,
        levels: "` inner K/V max_rep_level="@,
    }
}

/// How the key and the value leaf of a map inside a list or inside a map are to be read.
pub open spec fn inner_map_specs(
    w: MapWords,
    name: Seq<char>,
    outer_optional: bool,
    key: SchemaNodeView,
    value: SchemaNodeView,
    leaves: Seq<SchemaLeafView>,
) -> Result<(PlainSpec, PlainSpec), PqErrorView>
    recommends
        key is Leaf,
        value is Leaf,
{
    let want_key = level(outer_optional) + 2;
    let want_value = level(outer_optional) + 2 + level(optional(value->Leaf_repetition));
    let kname = key->Leaf_name;
    let vname = value->Leaf_name;
    if !(key->Leaf_repetition is Required) {
        Err(
            PqErrorView::Unsupported(
                w.what_key + name + "` "@ + w.key + " `"@ + kname + "` not REQUIRED"@,
            ),
        )
    } else if key->Leaf_ptype is Other {
        Err(
            PqErrorView::Unsupported(
                w.what_type + name + "` "@ + w.key + " physical type "@ + other_name(
                    key->Leaf_ptype,
                ) + ": OBJ-2c"@,
            ),
        )
    } else if value->Leaf_ptype is Other {
        Err(
            PqErrorView::Unsupported(
                w.what_type + name + "` "@ + w.value + " physical type "@ + other_name(
                    value->Leaf_ptype,
                ) + ": OBJ-2c"@,
            ),
        )
    } else if key->max_def_level != want_key {
        Err(
            PqErrorView::Bad(
                w.what + name + w.key_level + decimal(key->max_def_level as int)
                    + " disagrees with expected "@ + decimal(want_key),
            ),
        )
    } else if value->max_def_level != want_value {
        Err(
            PqErrorView::Bad(
                w.what + name + w.value_level + decimal(value->max_def_level as int)
                    + " disagrees with expected "@ + decimal(want_value),
            ),
        )
    } else if key->max_rep_level != 2 || value->max_rep_level != 2 {
        Err(
            PqErrorView::Bad(
                w.what + name + w.levels + decimal(key->max_rep_level as int) + "/"@ + decimal(
                    value->max_rep_level as int,
                ) + " != 2"@,
            ),
        )
    } else {
        pair_specs(
            leaves,
            kname,
            w.what + name + "` "@ + w.key + " leaf `"@ + kname + "` missing from flat leaves"@,
            vname,
            w.what + name + "` "@ + w.value + " leaf `"@ + vname + "` missing from flat leaves"@,
        )
    }
}

/// The plan of a list of maps.
pub open spec fn list_map_plan(
    outer: Seq<char>,
    outer_optional: bool,
    children: Seq<SchemaNodeView>,
    leaves: Seq<SchemaLeafView>,
) -> Result<PlanView, PqErrorView> {
    match repeated_middle(
        children,
        2,
        "List<Map> `"@,
        outer,
        "` inner-map outer children != 1: non-canonical"@,
        "` inner-map middle not REPEATED"@,
        "` inner-map middle children != 2"@,
    ) {
        Err(x) => Err(x),
        Ok(inner) => if inner[0] is Group {
            Err(
                PqErrorView::Unsupported(
                    "List<Map<group, _>> `"@ + outer + "`: non-primitive key, SP147 follow-up"@,
                ),
            )
        } else if inner[1] is Group {
            Err(
                PqErrorView::Unsupported(
                    "List<Map<_, group>> `"@ + outer + "`: non-primitive value, SP147 follow-up"@,
                ),
            )
        } else {
            match inner_map_specs(
                list_map_words(),
                outer,
                outer_optional,
                inner[0],
                inner[1],
                leaves,
            ) {
                Err(x) => Err(x),
                Ok((key_spec, value_spec)) => Ok(
                    PlanView {
                        chunk_path: below_root(inner[1]->path),
                        kind: KindView::NestedListOfMap {
                            outer_optional,
                            key_spec,
                            key_ptype: inner[0]->Leaf_ptype,
                            key_chunk_path: below_root(inner[0]->path),
                            value_spec,
                            value_ptype: inner[1]->Leaf_ptype,
                            value_chunk_path: below_root(inner[1]->path),
                            max_def_level: inner[1]->max_def_level,
                            value_optional: optional(inner[1]->Leaf_repetition),
                        },
                    },
                ),
            }
        },
    }
}

/// A leaf as a field of a struct.
pub open spec fn leaf_field(leaf: SchemaNodeView, spec: PlainSpec) -> FieldView
    recommends
        leaf is Leaf,
{
    FieldView {
        name: leaf->Leaf_name,
        chunk_path: below_root(leaf->path),
        spec,
        ptype: leaf->Leaf_ptype,
        max_def_level: leaf->max_def_level,
        optional: optional(leaf->Leaf_repetition),
        nested: None,
    }
}

/// A field of a struct inside a list.
pub open spec fn list_struct_field(
    outer: Seq<char>,
    child: SchemaNodeView,
    leaves: Seq<SchemaLeafView>,
) -> Result<FieldView, PqErrorView> {
    match child {
        SchemaNodeView::Group { name, .. } => Err(
            PqErrorView::Unsupported(
                "List<struct<group>> `"@ + outer + "` field `"@ + name
                    + "`: SP146 follow-up (V1 supports List<struct<primitives>>)"@,
            ),
        ),
        SchemaNodeView::Leaf { name, ptype, repetition, .. } => if repetition is Repeated {
            Err(
                PqErrorView::Unsupported(
                    "List<struct> `"@ + outer + "` field `"@ + name
                        + "` is REPEATED: SP146 follow-up"@,
                ),
            )
        } else if repetition is Other {
            Err(
                PqErrorView::Unsupported(
                    "List<struct> `"@ + outer + "` field `"@ + name + "` unknown repetition"@,
                ),
            )
        } else if ptype is Other {
            Err(
                PqErrorView::Unsupported(
                    "List<struct> `"@ + outer + "` field `"@ + name + "` physical type "@
                        + other_name(ptype) + ": OBJ-2c"@,
                ),
            )
        } else {
            match named_spec(
                leaves,
                name,
                "List<struct> `"@ + outer + "` field leaf `"@ + name + "` missing"@,
            ) {
                Err(x) => Err(x),
                Ok(spec) => Ok(leaf_field(child, spec)),
            }
        },
    }
}

/// The first `k` fields of a struct inside a list.
pub open spec fn list_struct_fields(
    outer: Seq<char>,
    children: Seq<SchemaNodeView>,
    k: nat,
    leaves: Seq<SchemaLeafView>,
) -> Result<Seq<FieldView>, PqErrorView>
    decreases k,
{
    if k == 0 {
        Ok(Seq::empty())
    } else {
        match list_struct_fields(outer, children, (k - 1) as nat, leaves) {
            Err(x) => Err(x),
            Ok(s) => match list_struct_field(outer, children[k - 1], leaves) {
                Err(x) => Err(x),
                Ok(f) => Ok(s.push(f)),
            },
        }
    }
}

/// The plan of a list of structs.
pub open spec fn list_struct_plan(
    outer: Seq<char>,
    outer_optional: bool,
    element: Seq<char>,
    children: Seq<SchemaNodeView>,
    leaves: Seq<SchemaLeafView>,
) -> Result<PlanView, PqErrorView> {
    if children.len() == 0 {
        Err(
            PqErrorView::Bad(
                "List<struct> `"@ + outer + "` element `"@ + element + "` has no fields"@,
            ),
        )
    } else {
        match list_struct_fields(outer, children, children.len(), leaves) {
            Err(x) => Err(x),
            Ok(fields) => Ok(
                PlanView {
                    chunk_path: fields[0].chunk_path,
                    kind: KindView::NestedListOfStruct {
                        outer_optional,
                        list_max_def_level: (level(outer_optional) + 1) as u32,
                        fields,
                    },
                },
            ),
        }
    }
}

/// The plan of a list whose element is the group `element`.
pub open spec fn list_group_plan(
    outer: Seq<char>,
    outer_optional: bool,
    element: SchemaNodeView,
    leaves: Seq<SchemaLeafView>,
) -> Result<PlanView, PqErrorView>
    recommends
        element is Group,
{
    match element->logical_type {
        Some(LogicalType::List) => match repeated_middle(
            element->children,
            1,
            "List<List> `"@,
            outer,
            "` inner-list outer children != 1: non-canonical nested LIST"@,
            "` inner-list middle not REPEATED"@,
            "` inner-list middle children != 1"@,
        ) {
            Err(x) => Err(x),
            Ok(inner) => if inner[0] is Group {
                list_list_group_plan(
                    outer,
                    outer_optional,
                    optional(element->Group_repetition),
                    inner[0],
                    leaves,
                )
            } else {
                list_list_primitive_plan(
                    outer,
                    outer_optional,
                    optional(element->Group_repetition),
                    inner[0],
                    leaves,
                )
            },
        },
        Some(LogicalType::MapKv) => list_map_plan(
            outer,
            outer_optional,
            element->children,
            leaves,
        ),
        None => list_struct_plan(
            outer,
            outer_optional,
            element->Group_name,
            element->children,
            leaves,
        ),
    }
}

/// A field of a struct inside a map.
pub open spec fn map_struct_field(
    map: Seq<char>,
    child: SchemaNodeView,
    leaves: Seq<SchemaLeafView>,
) -> Result<FieldView, PqErrorView> {
    match child {
        SchemaNodeView::Group { name, .. } => Err(
            PqErrorView::Unsupported(
                "MAP<_, struct<group>> `"@ + map + "` value field `"@ + name
                    + "`: SP146 follow-up"@,
            ),
        ),
        SchemaNodeView::Leaf { name, ptype, repetition, .. } => if repetition is Repeated {
            Err(
                PqErrorView::Unsupported(
                    "MAP<_, struct> `"@ + map + "` value field `"@ + name
                        + "` REPEATED: SP146 follow-up"@,
                ),
            )
        } else if ptype is Other {
            Err(
                PqErrorView::Unsupported(
                    "MAP<_, struct> `"@ + map + "` value field `"@ + name + "` physical type "@
                        + other_name(ptype) + ": OBJ-2c"@,
                ),
            )
        } else {
            match named_spec(
                leaves,
                name,
                "MAP<_, struct> `"@ + map + "` value field leaf `"@ + name + "` missing"@,
            ) {
                Err(x) => Err(x),
                Ok(spec) => Ok(leaf_field(child, spec)),
            }
        },
    }
}

/// The first `k` fields of a struct inside a map.
pub open spec fn map_struct_fields(
    map: Seq<char>,
    children: Seq<SchemaNodeView>,
    k: nat,
    leaves: Seq<SchemaLeafView>,
) -> Result<Seq<FieldView>, PqErrorView>
    decreases k,
{
    if k == 0 {
        Ok(Seq::empty())
    } else {
        match map_struct_fields(map, children, (k - 1) as nat, leaves) {
            Err(x) => Err(x),
            Ok(s) => match map_struct_field(map, children[k - 1], leaves) {
                Err(x) => Err(x),
                Ok(f) => Ok(s.push(f)),
            },
        }
    }
}

/// A map's key, as it has been found to be readable.
pub struct KeyView {
    pub spec: PlainSpec,
    pub ptype: Type,
    pub path: Path,
}

/// The plan of a map to structs.
pub open spec fn map_struct_plan(
    map: Seq<char>,
    outer_optional: bool,
    key: KeyView,
    value: SchemaNodeView,
    leaves: Seq<SchemaLeafView>,
) -> Result<PlanView, PqErrorView>
    recommends
        value is Group,
{
    let children = value->children;
    if children.len() == 0 {
        Err(
            PqErrorView::Bad(
                "MAP<_, struct> `"@ + map + "` value `"@ + value->Group_name + "` has no fields"@,
            ),
        )
    } else {
        match map_struct_fields(map, children, children.len(), leaves) {
            Err(x) => Err(x),
            Ok(fields) => Ok(
                PlanView {
                    chunk_path: fields[0].chunk_path,
                    kind: KindView::NestedMapOfStruct {
                        outer_optional,
                        key_spec: key.spec,
                        key_ptype: key.ptype,
                        key_chunk_path: key.path,
                        map_max_def_level: (level(outer_optional) + 1) as u32,
                        value_fields: fields,
                    },
                },
            ),
        }
    }
}

/// The plan of a map to lists.
pub open spec fn map_list_plan(
    map: Seq<char>,
    outer_optional: bool,
    key: KeyView,
    value: SchemaNodeView,
    leaves: Seq<SchemaLeafView>,
) -> Result<PlanView, PqErrorView>
    recommends
        value is Group,
{
    match repeated_middle(
        value->children,
        1,
        "MAP<_, List> `"@,
        map,
        "` value-list outer children != 1"@,
        "` value-list middle not REPEATED"@,
        "` value-list middle children != 1"@,
    ) {
        Err(x) => Err(x),
        Ok(inner) => match inner[0] {
            SchemaNodeView::Group { .. } => Err(
                PqErrorView::Unsupported("MAP<_, List<group>> `"@ + map + "`: SP146 follow-up"@),
            ),
            SchemaNodeView::Leaf {
                name,
                ptype,
                repetition,
                max_def_level: def,
                max_rep_level: rep,
                path,
            } => {
                let want = level(outer_optional) + 1 + 1 + level(optional(repetition));
                if ptype is Other {
                    Err(
                        PqErrorView::Unsupported(
                            "MAP<_, List<"@ + other_name(ptype) + ">> `"@ + map
                                + "`: physical type not in OBJ-2c"@,
                        ),
                    )
                } else if def != want {
                    Err(
                        PqErrorView::Bad(
                            "MAP<_, List> `"@ + map + "` V leaf max_def_level="@ + decimal(
                                def as int,
                            ) + " disagrees with expected "@ + decimal(want),
                        ),
                    )
                } else if rep != 2 {
                    Err(
                        PqErrorView::Bad(
                            "MAP<_, List> `"@ + map + "` V leaf max_rep_level="@ + decimal(
                                rep as int,
                            ) + " != 2"@,
                        ),
                    )
                } else {
                    match named_spec(
                        leaves,
                        name,
                        "MAP<_, List> `"@ + map + "` V leaf `"@ + name + "` missing"@,
                    ) {
                        Err(x) => Err(x),
                        Ok(spec) => Ok(
                            PlanView {
                                chunk_path: below_root(path),
                                kind: KindView::NestedMapOfList {
                                    outer_optional,
                                    key_spec: key.spec,
                                    key_ptype: key.ptype,
                                    key_chunk_path: key.path,
                                    value_spec: spec,
                                    value_ptype: ptype,
                                    value_chunk_path: below_root(path),
                                    max_def_level: def,
                                    value_item_optional: optional(repetition),
                                },
                            },
                        ),
                    }
                }
            },
        },
    }
}

/// The plan of a map to maps.
pub open spec fn map_map_plan(
    map: Seq<char>,
    outer_optional: bool,
    key: KeyView,
    value: SchemaNodeView,
    leaves: Seq<SchemaLeafView>,
) -> Result<PlanView, PqErrorView>
    recommends
        value is Group,
{
    match repeated_middle(
        value->children,
        2,
        "MAP<_, Map> `"@,
        map,
        "` inner-map outer children != 1: non-canonical"@,
        "` inner-map middle not REPEATED"@,
        "` inner-map middle children != 2"@,
    ) {
        Err(x) => Err(x),
        Ok(inner) => if inner[0] is Group {
            Err(
                PqErrorView::Unsupported(
                    "MAP<_, Map<group, _>> `"@ + map
                        + "`: non-primitive inner key, SP147 follow-up"@,
                ),
            )
        } else if inner[1] is Group {
            Err(
                PqErrorView::Unsupported(
                    "MAP<_, Map<_, group>> `"@ + map
                        + "`: non-primitive inner value, SP147 follow-up"@,
                ),
            )
        } else {
            match inner_map_specs(
                map_map_words(),
                map,
                outer_optional,
                inner[0],
                inner[1],
                leaves,
            ) {
                Err(x) => Err(x),
                Ok((key_spec, value_spec)) => Ok(
                    PlanView {
                        chunk_path: below_root(inner[1]->path),
                        kind: KindView::NestedMapOfMap {
                            outer_optional,
                            outer_key_spec: key.spec,
                            outer_key_ptype: key.ptype,
                            outer_key_chunk_path: key.path,
                            inner_key_spec: key_spec,
                            inner_key_ptype: inner[0]->Leaf_ptype,
                            inner_key_chunk_path: below_root(inner[0]->path),
                            inner_value_spec: value_spec,
                            inner_value_ptype: inner[1]->Leaf_ptype,
                            inner_value_chunk_path: below_root(inner[1]->path),
                            max_def_level: inner[1]->max_def_level,
                            inner_value_optional: optional(inner[1]->Leaf_repetition),
                        },
                    },
                ),
            }
        },
    }
}

/// The plan of a map whose value is the group `value`.
pub open spec fn map_group_plan(
    map: Seq<char>,
    outer_optional: bool,
    key: SchemaNodeView,
    value: SchemaNodeView,
    leaves: Seq<SchemaLeafView>,
) -> Result<PlanView, PqErrorView>
    recommends
        key is Leaf,
        value is Group,
{
    let want = level(outer_optional) + 1;
    let kname = key->Leaf_name;
    if key->max_def_level != want {
        Err(
            PqErrorView::Bad(
                "MAP<_, group> `"@ + map + "` key max_def_level="@ + decimal(
                    key->max_def_level as int,
                ) + " disagrees with expected "@ + decimal(want),
            ),
        )
    } else if key->Leaf_ptype is Other {
        Err(
            PqErrorView::Unsupported(
                "MAP `"@ + map + "` key physical type "@ + other_name(key->Leaf_ptype)
                    + ": OBJ-2c"@,
            ),
        )
    } else {
        match named_spec(
            leaves,
            kname,
            "MAP<_, group> `"@ + map + "` key leaf `"@ + kname + "` missing"@,
        ) {
            Err(x) => Err(x),
            Ok(spec) => {
                let k = KeyView { spec, ptype: key->Leaf_ptype, path: below_root(key->path) };
                if !(value->Group_repetition is Required) {
                    Err(
                        PqErrorView::Unsupported(
                            "MAP `"@ + map
                                + "` value group is not REQUIRED — Parquet spec quirk: pyarrow always writes value groups as REQ inside the REP middle"@,
                        ),
                    )
                } else {
                    match value->logical_type {
                        None => map_struct_plan(map, outer_optional, k, value, leaves),
                        Some(LogicalType::List) => map_list_plan(
                            map,
                            outer_optional,
                            k,
                            value,
                            leaves,
                        ),
                        Some(LogicalType::MapKv) => map_map_plan(
                            map,
                            outer_optional,
                            k,
                            value,
                            leaves,
                        ),
                    }
                }
            },
        }
    }
}

/// The plan of a map from a leaf to a leaf.
pub open spec fn map_leaf_plan(
    name: Seq<char>,
    outer_optional: bool,
    key: SchemaNodeView,
    value: SchemaNodeView,
    leaves: Seq<SchemaLeafView>,
) -> Result<PlanView, PqErrorView>
    recommends
        key is Leaf,
        value is Leaf,
{
    let value_optional = optional(value->Leaf_repetition);
    let want_value = level(outer_optional) + 1 + level(value_optional);
    let want_key = level(outer_optional) + 1;
    let kname = key->Leaf_name;
    let vname = value->Leaf_name;
    if !(value->Leaf_repetition is Required) && !(value->Leaf_repetition is Optional) {
        Err(PqErrorView::Bad("MAP value `"@ + name + "` must be REQUIRED or OPTIONAL"@))
    } else if value->max_def_level != want_value {
        Err(
            PqErrorView::Bad(
                "MAP `"@ + name + "` value max_def_level="@ + decimal(value->max_def_level as int)
                    + " disagrees with expected "@ + decimal(want_value),
            ),
        )
    } else if key->max_def_level != want_key {
        Err(
            PqErrorView::Bad(
                "MAP `"@ + name + "` key max_def_level="@ + decimal(key->max_def_level as int)
                    + " disagrees with expected "@ + decimal(want_key),
            ),
        )
    } else if key->Leaf_ptype is Other {
        Err(
            PqErrorView::Unsupported(
                "MAP `"@ + name + "` key physical type "@ + other_name(key->Leaf_ptype)
                    + ": OBJ-2c"@,
            ),
        )
    } else if value->Leaf_ptype is Other {
        Err(
            PqErrorView::Unsupported(
                "MAP `"@ + name + "` value physical type "@ + other_name(value->Leaf_ptype)
                    + ": OBJ-2c"@,
            ),
        )
    } else {
        match pair_specs(
            leaves,
            kname,
            "MAP `"@ + name + "` key leaf `"@ + kname + "` missing from flat leaves list"@,
            vname,
            "MAP `"@ + name + "` value leaf `"@ + vname + "` missing from flat leaves list"@,
        ) {
            Err(x) => Err(x),
            Ok((key_spec, value_spec)) => Ok(
                PlanView {
                    chunk_path: below_root(value->path),
                    kind: KindView::NestedMapKV {
                        key_spec,
                        value_spec,
                        key_ptype: key->Leaf_ptype,
                        value_ptype: value->Leaf_ptype,
                        key_chunk_path: below_root(key->path),
                        value_chunk_path: below_root(value->path),
                        max_def_level: value->max_def_level,
                        outer_optional,
                        value_optional,
                    },
                },
            ),
        }
    }
}

/// The plan of a map.
pub open spec fn map_plan(
    name: Seq<char>,
    rep: Repetition,
    children: Seq<SchemaNodeView>,
    leaves: Seq<SchemaLeafView>,
) -> Result<PlanView, PqErrorView> {
    match repeated_middle(
        children,
        2,
        "non-canonical MAP `"@,
        name,
        "` (outer children != 1): SP145 follow-up"@,
        "` (middle not REPEATED group): SP145 follow-up"@,
        "` (key_value children != 2): SP145 follow-up"@,
    ) {
        Err(x) => Err(x),
        Ok(inner) => match inner[0] {
            SchemaNodeView::Group { .. } => Err(
                PqErrorView::Unsupported(
                    "MAP<group, _> `"@ + name + "` (key is a group): SP145 follow-up"@,
                ),
            ),
            SchemaNodeView::Leaf { repetition, .. } => if !(repetition is Required) {
                Err(
                    PqErrorView::Bad("MAP key `"@ + name + "` must be REQUIRED per Parquet spec"@),
                )
            } else if inner[1] is Group {
                map_group_plan(name, optional(rep), inner[0], inner[1], leaves)
            } else {
                map_leaf_plan(name, optional(rep), inner[0], inner[1], leaves)
            },
        },
    }
}

/// The path of the first leaf at or below a node, without the name of the root.
pub open spec fn first_leaf_path(n: SchemaNodeView) -> Option<Path>
    decreases n, 0int,
{
    match n {
        SchemaNodeView::Leaf { path, .. } => Some(below_root(path)),
        SchemaNodeView::Group { children, .. } => first_leaf_path_in(children, 0),
    }
}

/// The path of the first leaf at or below the nodes from index `i` on.
pub open spec fn first_leaf_path_in(s: Seq<SchemaNodeView>, i: int) -> Option<Path>
    decreases s, s.len() - i,
{
    if i < 0 || i >= s.len() {
        None
    } else {
        match first_leaf_path(s[i]) {
            Some(p) => Some(p),
            None => first_leaf_path_in(s, i + 1),
        }
    }
}

/// A leaf field of the struct `name`.
pub open spec fn struct_leaf_field(
    name: Seq<char>,
    outer_optional: bool,
    child: SchemaNodeView,
    leaves: Seq<SchemaLeafView>,
) -> Result<FieldView, PqErrorView>
    recommends
        child is Leaf,
{
    let cname = child->Leaf_name;
    let rep = child->Leaf_repetition;
    let want = level(outer_optional) + level(optional(rep));
    if rep is Repeated {
        Err(
            PqErrorView::Unsupported(
                "struct `"@ + name + "` field `"@ + cname
                    + "` is REPEATED (List): SP145 follow-up"@,
            ),
        )
    } else if rep is Other {
        Err(
            PqErrorView::Unsupported(
                "struct `"@ + name + "` field `"@ + cname + "` unknown repetition"@,
            ),
        )
    } else if child->Leaf_ptype is Other {
        Err(
            PqErrorView::Unsupported(
                "struct `"@ + name + "` field `"@ + cname + "` physical type "@ + other_name(
                    child->Leaf_ptype,
                ) + ": OBJ-2c"@,
            ),
        )
    } else if child->max_def_level != want {
        Err(
            PqErrorView::Bad(
                "struct `"@ + name + "` field `"@ + cname + "` max_def_level="@ + (decimal(
                    child->max_def_level as int,
                ) + " disagrees with expected "@ + decimal(want)),
            ),
        )
    } else {
        match named_spec(
            leaves,
            cname,
            "struct `"@ + name + "` field leaf `"@ + cname + "` missing from flat leaves list"@,
        ) {
            Err(x) => Err(x),
            Ok(spec) => Ok(leaf_field(child, spec)),
        }
    }
}

/// The shape of a list inside a struct.
pub open spec fn struct_list_kind(
    name: Seq<char>,
    g_optional: bool,
    children: Seq<SchemaNodeView>,
    leaves: Seq<SchemaLeafView>,
) -> Result<KindView, PqErrorView> {
    match repeated_middle(
        children,
        1,
        "struct<List> `"@,
        name,
        "` outer children != 1: SP146"@,
        "` middle not REPEATED"@,
        "` middle children != 1"@,
    ) {
        Err(x) => Err(x),
        Ok(inner) => match inner[0] {
            SchemaNodeView::Leaf {
                name: lname,
                ptype,
                repetition,
                max_def_level,
                max_rep_level,
                path,
            } => if ptype is Other {
                Err(
                    PqErrorView::Unsupported(
                        "struct<List<"@ + other_name(ptype) + ">> `"@ + name
                            + "`: physical type not in OBJ-2c"@,
                    ),
                )
            } else {
                match named_spec(
                    leaves,
                    lname,
                    "struct<List> `"@ + name + "` leaf `"@ + lname + "` missing"@,
                ) {
                    Err(x) => Err(x),
                    Ok(spec) => Ok(
                        KindView::NestedListPrimitive {
                            spec,
                            ptype,
                            max_def_level,
                            max_rep_level,
                            outer_optional: g_optional,
                            element_optional: optional(repetition),
                        },
                    ),
                }
            },
            SchemaNodeView::Group { .. } => match list_group_plan(
                name,
                g_optional,
                inner[0],
                leaves,
            ) {
                Err(x) => Err(x),
                Ok(plan) => Ok(plan.kind),
            },
        },
    }
}

/// The shape of a group inside a struct.
pub open spec fn nested_kind(n: SchemaNodeView, leaves: Seq<SchemaLeafView>) -> Result<
    KindView,
    PqErrorView,
>
    decreases n, 0int, 0int,
{
    match n {
        SchemaNodeView::Leaf { .. } => Err(
            PqErrorView::Bad("classify_nested_group_child: expected Group node"@),
        ),
        SchemaNodeView::Group { name, repetition, children, logical_type } => match logical_type {
            Some(LogicalType::List) => struct_list_kind(
                name,
                optional(repetition),
                children,
                leaves,
            ),
            Some(LogicalType::MapKv) => match map_plan(name, repetition, children, leaves) {
                Err(x) => Err(x),
                Ok(plan) => Ok(plan.kind),
            },
            None => match struct_plan(name, repetition, children, leaves) {
                Err(x) => Err(x),
                Ok(plan) => Ok(plan.kind),
            },
        },
    }
}

/// A field of the struct `name`.
pub open spec fn struct_field(
    name: Seq<char>,
    outer_optional: bool,
    child: SchemaNodeView,
    leaves: Seq<SchemaLeafView>,
) -> Result<FieldView, PqErrorView>
    decreases child, 1int, 0int,
{
    match child {
        SchemaNodeView::Leaf { .. } => struct_leaf_field(name, outer_optional, child, leaves),
        SchemaNodeView::Group { name: cname, .. } => match nested_kind(child, leaves) {
            Err(x) => Err(x),
            Ok(kind) => match first_leaf_path(child) {
                None => Err(PqErrorView::Bad("first_leaf_chunk_path: group with no leaves"@)),
                Some(path) => Ok(
                    FieldView {
                        name: cname,
                        chunk_path: path,
                        spec: PlainSpec { ptype: Type::Boolean, flba_len: None, decimal: None },
                        ptype: Type::Boolean,
                        max_def_level: 0,
                        optional: false,
                        nested: Some(Box::new(kind)),
                    },
                ),
            },
        },
    }
}

/// The first `k` fields of the struct `name`.
pub open spec fn struct_fields(
    name: Seq<char>,
    outer_optional: bool,
    children: Seq<SchemaNodeView>,
    k: nat,
    leaves: Seq<SchemaLeafView>,
) -> Result<Seq<FieldView>, PqErrorView>
    decreases children, 0int, k,
{
    if k == 0 || k > children.len() {
        Ok(Seq::empty())
    } else {
        match struct_fields(name, outer_optional, children, (k - 1) as nat, leaves) {
            Err(x) => Err(x),
            Ok(s) => match struct_field(name, outer_optional, children[k - 1], leaves) {
                Err(x) => Err(x),
                Ok(f) => Ok(s.push(f)),
            },
        }
    }
}

/// The plan of a struct.
pub open spec fn struct_plan(
    name: Seq<char>,
    rep: Repetition,
    children: Seq<SchemaNodeView>,
    leaves: Seq<SchemaLeafView>,
) -> Result<PlanView, PqErrorView>
    decreases children, 1int, 0int,
{
    if children.len() == 0 {
        Err(PqErrorView::Bad("struct `"@ + name + "` has no fields"@))
    } else {
        match struct_fields(name, optional(rep), children, children.len(), leaves) {
            Err(x) => Err(x),
            Ok(fields) => Ok(
                PlanView {
                    chunk_path: fields[0].chunk_path,
                    kind: KindView::NestedStruct { outer_optional: optional(rep), fields },
                },
            ),
        }
    }
}

/// The name of a node.
pub open spec fn node_name(n: SchemaNodeView) -> Seq<char> {
    match n {
        SchemaNodeView::Leaf { name, .. } => name,
        SchemaNodeView::Group { name, .. } => name,
    }
}

/// The first node with the given name.
pub open spec fn find_node(s: Seq<SchemaNodeView>, name: Seq<char>) -> Option<SchemaNodeView>
    decreases s.len(),
{
    if s.len() == 0 {
        None
    } else if node_name(s[0]) == name {
        Some(s[0])
    } else {
        find_node(s.drop_first(), name)
    }
}

/// The plan of a list.
pub open spec fn list_plan(
    name: Seq<char>,
    rep: Repetition,
    children: Seq<SchemaNodeView>,
    leaves: Seq<SchemaLeafView>,
) -> Result<PlanView, PqErrorView> {
    match repeated_middle(
        children,
        1,
        "non-canonical LIST `"@,
        name,
        "` (outer children != 1): SP145 follow-up"@,
        "` (middle not REPEATED group): SP145 follow-up"@,
        "` (middle children != 1): SP145 follow-up"@,
    ) {
        Err(x) => Err(x),
        Ok(inner) => if inner[0] is Group {
            list_group_plan(name, optional(rep), inner[0], leaves)
        } else {
            list_primitive_plan(name, optional(rep), inner[0], leaves)
        },
    }
}

/// The plan of the column with the given name, one of the nodes right below the root.
pub open spec fn column_plan(
    root: SchemaNodeView,
    name: Seq<char>,
    leaves: Seq<SchemaLeafView>,
) -> Result<PlanView, PqErrorView> {
    match root {
        SchemaNodeView::Leaf { .. } => Err(PqErrorView::Bad("schema root is not a group"@)),
        SchemaNodeView::Group { children, .. } => match find_node(children, name) {
            None => Err(
                PqErrorView::Bad("column `"@ + name + "` not found in Parquet schema"@),
            ),
            Some(SchemaNodeView::Leaf {
                name: n,
                ptype,
                repetition,
                max_def_level,
                path,
                ..
            }) => flat_plan(n, ptype, repetition, max_def_level, path, leaves),
            Some(SchemaNodeView::Group { name: n, repetition, children: c, logical_type }) =>
                match logical_type {
                Some(LogicalType::MapKv) => map_plan(n, repetition, c, leaves),
                None => struct_plan(n, repetition, c, leaves),
                Some(LogicalType::List) => list_plan(n, repetition, c, leaves),
            },
        },
    }
}

/// A leaf of the schema tree.
struct LeafRef<'a> {
    name: &'a String,
    ptype: Type,
    repetition: Repetition,
    max_def_level: u32,
    max_rep_level: u32,
    path: &'a Vec<String>,
}

impl<'a> LeafRef<'a> {
    spec fn node(self) -> SchemaNodeView {
        SchemaNodeView::Leaf {
            name: self.name@,
            ptype: self.ptype,
            repetition: self.repetition,
            max_def_level: self.max_def_level,
            max_rep_level: self.max_rep_level,
            path: texts(self.path@),
        }
    }
}

/// A group of the schema tree.
struct GroupRef<'a> {
    name: &'a String,
    repetition: Repetition,
    children: &'a Vec<SchemaNode>,
    logical_type: Option<LogicalType>,
}

impl<'a> GroupRef<'a> {
    spec fn node(self) -> SchemaNodeView {
        SchemaNodeView::Group {
            name: self.name@,
            repetition: self.repetition,
            children: node_views(self.children@),
            logical_type: self.logical_type,
        }
    }
}

/// A node of the schema tree.
enum NodeRef<'a> {
    Leaf(LeafRef<'a>),
    Group(GroupRef<'a>),
}

fn node_ref(n: &SchemaNode) -> (r: NodeRef<'_>)
    ensures
        match r {
            NodeRef::Leaf(l) => n@ == l.node(),
            NodeRef::Group(g) => n@ == g.node() && decreases_to!(*n => *g.children),
        },
{
    proof {
        lemma_group_view(*n);
    }
    match n {
        SchemaNode::Leaf { name, ptype, repetition, max_def_level, max_rep_level, path } =>
            NodeRef::Leaf(
            LeafRef {
                name,
                ptype: *ptype,
                repetition: *repetition,
                max_def_level: *max_def_level,
                max_rep_level: *max_rep_level,
                path,
            },
        ),
        SchemaNode::Group { name, repetition, children, logical_type } => NodeRef::Group(
            GroupRef { name, repetition: *repetition, children, logical_type: *logical_type },
        ),
    }
}

fn path_below_root(p: &Vec<String>) -> (r: Vec<String>)
    ensures
        texts(r@) == below_root(texts(p@)),
{
    let mut out: Vec<String> = Vec::new();
    let mut i: usize = 1;
    while i < p.len()
        invariant
            1 <= i,
            i <= p@.len() || (p@.len() == 0 && i == 1),
            out@.len() == i - 1,
            forall|j: int| 0 <= j < i - 1 ==> (#[trigger] out@[j])@ == p@[j + 1]@,
        decreases p@.len() - i,
    {
        out.push(p[i].clone());
        i += 1;
    }
    assert(texts(out@) =~= below_root(texts(p@)));
    out
}

fn levels(optional: bool) -> (r: u32)
    ensures
        r == level(optional),
{
    if optional {
        1
    } else {
        0
    }
}

fn is_optional(rep: Repetition) -> (r: bool)
    ensures
        r == optional(rep),
{
    match rep {
        Repetition::Optional => true,
        _ => false,
    }
}

fn number(n: u32) -> (s: String)
    ensures
        s@ == decimal(n as int),
{
    decimal_text(n as i128)
}

/// The name of a physical type that is not supported.
fn unknown_type(t: Type) -> (r: Option<String>)
    ensures
        match r {
            Some(s) => t is Other && s@ == other_name(t),
            None => !(t is Other),
        },
{
    match t {
        Type::Other(n) => Some(text3("Other(", decimal_text(n as i128).as_str(), ")")),
        _ => None,
    }
}

/// Whether classification gave the plan.
pub open spec fn plans(r: Result<ColumnPlan, PqError>, s: Result<PlanView, PqErrorView>) -> bool {
    match (r, s) {
        (Ok(v), Ok(w)) => v@ == w,
        (Err(x), Err(y)) => x@ == y,
        _ => false,
    }
}

fn find_repeated_middle<'a>(
    children: &'a Vec<SchemaNode>,
    n: usize,
    prefix: &str,
    name: &str,
    not_one: &str,
    not_repeated: &str,
    not_n: &str,
) -> (r: Result<&'a Vec<SchemaNode>, PqError>)
    ensures
        match (
            r,
            repeated_middle(
                node_views(children@),
                n as int,
                prefix@,
                name@,
                not_one@,
                not_repeated@,
                not_n@,
            ),
        ) {
            (Ok(v), Ok(w)) => node_views(v@) == w && v@.len() == n,
            (Err(x), Err(y)) => x@ == y,
            _ => false,
        },
{
    if children.len() != 1 {
        return Err(PqError::Unsupported(text3(prefix, name, not_one)));
    }
    assert(node_views(children@)[0] == children@[0]@);
    match node_ref(&children[0]) {
        NodeRef::Group(g) => match g.repetition {
            Repetition::Repeated => if g.children.len() != n {
                Err(PqError::Unsupported(text3(prefix, name, not_n)))
            } else {
                Ok(g.children)
            },
            _ => Err(PqError::Unsupported(text3(prefix, name, not_repeated))),
        },
        NodeRef::Leaf(_) => Err(PqError::Unsupported(text3(prefix, name, not_repeated))),
    }
}

fn classify_flat(l: &LeafRef<'_>, leaves: &[SchemaLeaf]) -> (r: Result<ColumnPlan, PqError>)
    ensures
        plans(
            r,
            flat_plan(
                l.name@,
                l.ptype,
                l.repetition,
                l.max_def_level,
                texts(l.path@),
                leaf_views(leaves@),
            ),
        ),
{
    let name = l.name.as_str();
    let mdl: u32 = match l.repetition {
        Repetition::Required => 0,
        Repetition::Optional => 1,
        Repetition::Repeated => return Err(
            PqError::Unsupported("REPEATED columns: OBJ-2c".to_owned()),
        ),
        Repetition::Other(_) => return Err(
            PqError::Unsupported("unknown repetition: OBJ-2c".to_owned()),
        ),
    };
    if l.max_def_level != mdl {
        let mut m = text5(
            "flat leaf `",
            name,
            "` schema-tree max_def_level=",
            number(l.max_def_level).as_str(),
            " disagrees with repetition-derived ",
        );
        m.append(number(mdl).as_str());
        return Err(PqError::Bad(m));
    }
    if let Some(t) = unknown_type(l.ptype) {
        return Err(PqError::Unsupported(text3("physical type ", t.as_str(), ": OBJ-2c")));
    }
    let spec = build_named_spec(
        leaves,
        name,
        text3("tree leaf `", name, "` missing from flat leaves list"),
    )?;
    Ok(
        ColumnPlan {
            chunk_path: path_below_root(l.path),
            kind: ColumnKind::Flat { spec, ptype: l.ptype, max_def_level: mdl },
        },
    )
}

fn classify_list_primitive(
    name: &str,
    outer_optional: bool,
    l: &LeafRef<'_>,
    leaves: &[SchemaLeaf],
) -> (r: Result<ColumnPlan, PqError>)
    ensures
        plans(r, list_primitive_plan(name@, outer_optional, l.node(), leaf_views(leaves@))),
{
    let element_optional: bool = is_optional(l.repetition);
    let want: u32 = levels(outer_optional) + 1 + levels(element_optional);
    if l.max_def_level != want {
        let mut m = text5(
            "nested LIST `",
            name,
            "` leaf max_def_level=",
            number(l.max_def_level).as_str(),
            " disagrees with expected ",
        );
        m.append(number(want).as_str());
        return Err(PqError::Bad(m));
    }
    if l.max_rep_level != 1 {
        return Err(
            PqError::Bad(
                text5(
                    "nested LIST `",
                    name,
                    "` leaf max_rep_level=",
                    number(l.max_rep_level).as_str(),
                    " != 1",
                ),
            ),
        );
    }
    if let Some(t) = unknown_type(l.ptype) {
        return Err(
            PqError::Unsupported(
                text3("LIST<", t.as_str(), ">: physical type not supported in OBJ-2c"),
            ),
        );
    }
    let spec = build_named_spec(
        leaves,
        l.name.as_str(),
        text3("LIST leaf `", l.name.as_str(), "` missing from flat leaves list"),
    )?;
    Ok(
        ColumnPlan {
            chunk_path: path_below_root(l.path),
            kind: ColumnKind::NestedListPrimitive {
                spec,
                ptype: l.ptype,
                max_def_level: l.max_def_level,
                max_rep_level: l.max_rep_level,
                outer_optional,
                element_optional,
            },
        },
    )
}

fn classify_list_of_list_primitive(
    outer: &str,
    outer_optional: bool,
    inner_optional: bool,
    l: &LeafRef<'_>,
    leaves: &[SchemaLeaf],
) -> (r: Result<ColumnPlan, PqError>)
    ensures
        plans(
            r,
            list_list_primitive_plan(
                outer@,
                outer_optional,
                inner_optional,
                l.node(),
                leaf_views(leaves@),
            ),
        ),
{
    let item_optional: bool = is_optional(l.repetition);
    let want: u32 = levels(outer_optional) + 1 + levels(inner_optional) + 1 + levels(
        item_optional,
    );
    if let Some(t) = unknown_type(l.ptype) {
        return Err(
            PqError::Unsupported(
                text5(
                    "List<List<",
                    t.as_str(),
                    ">> `",
                    outer,
                    "`: physical type not in OBJ-2c allow-list",
                ),
            ),
        );
    }
    if l.max_def_level != want {
        let mut m = text7(
            "List<List> `",
            outer,
            "` leaf max_def_level=",
            number(l.max_def_level).as_str(),
            " disagrees with expected ",
            number(want).as_str(),
            " (outer_opt=",
        );
        m.append(
            text5(
                truth_text(outer_optional),
                ", inner_opt=",
                truth_text(inner_optional),
                ", item_opt=",
                truth_text(item_optional),
            ).as_str(),
        );
        m.append(")");
        return Err(PqError::Bad(m));
    }
    if l.max_rep_level != 2 {
        return Err(
            PqError::Bad(
                text5(
                    "List<List> `",
                    outer,
                    "` leaf max_rep_level=",
                    number(l.max_rep_level).as_str(),
                    " != 2",
                ),
            ),
        );
    }
    let spec = build_named_spec(
        leaves,
        l.name.as_str(),
        text5(
            "List<List> `",
            outer,
            "` leaf `",
            l.name.as_str(),
            "` missing from flat leaves list",
        ),
    )?;
    Ok(
        ColumnPlan {
            chunk_path: path_below_root(l.path),
            kind: ColumnKind::NestedListOfListPrimitive {
                spec,
                ptype: l.ptype,
                max_def_level: l.max_def_level,
                max_rep_level: l.max_rep_level,
                outer_optional,
                inner_optional,
                item_optional,
            },
        },
    )
}

fn classify_list_of_list_of_group(
    outer: &str,
    outer_optional: bool,
    middle_optional: bool,
    element: &GroupRef<'_>,
    leaves: &[SchemaLeaf],
) -> (r: Result<ColumnPlan, PqError>)
    ensures
        plans(
            r,
            list_list_group_plan(
                outer@,
                outer_optional,
                middle_optional,
                element.node(),
                leaf_views(leaves@),
            ),
        ),
{
    match element.logical_type {
        Some(LogicalType::MapKv) => {
            return Err(
                PqError::Unsupported(
                    text3("List<List<Map<...>>> `", outer, "`: SP147 follow-up"),
                ),
            );
        },
        None => {
            return Err(
                PqError::Unsupported(
                    text3("List<List<struct<...>>> `", outer, "`: SP147 follow-up"),
                ),
            );
        },
        Some(LogicalType::List) => {},
    }
    let inner_optional: bool = is_optional(element.repetition);
    let inner = find_repeated_middle(
        element.children,
        1,
        "List<List<List>> `",
        outer,
        "` inner-list outer children != 1: non-canonical",
        "` innermost-list middle not REPEATED",
        "` innermost-list middle children != 1",
    )?;
    assert(node_views(inner@)[0] == inner@[0]@);
    let l = match node_ref(&inner[0]) {
        NodeRef::Leaf(l) => l,
        NodeRef::Group(_) => return Err(
            PqError::Unsupported(
                text3(
                    "List<List<List<group>>> `",
                    outer,
                    "` — 4+ deep LIST nesting: SP147 follow-up",
                ),
            ),
        ),
    };
    let item_optional: bool = is_optional(l.repetition);
    if let Some(t) = unknown_type(l.ptype) {
        return Err(
            PqError::Unsupported(
                text5(
                    "List<List<List<",
                    t.as_str(),
                    ">>> `",
                    outer,
                    "`: physical type not in OBJ-2c allow-list",
                ),
            ),
        );
    }
    let want: u32 = levels(outer_optional) + 1 + levels(middle_optional) + 1 + levels(
        inner_optional,
    ) + 1 + levels(item_optional);
    if l.max_def_level != want {
        let mut m = text7(
            "List<List<List>> `",
            outer,
            "` leaf max_def_level=",
            number(l.max_def_level).as_str(),
            " disagrees with expected ",
            number(want).as_str(),
            " (outer_opt=",
        );
        m.append(
            text7(
                truth_text(outer_optional),
                ", middle_opt=",
                truth_text(middle_optional),
                ", inner_opt=",
                truth_text(inner_optional),
                ", item_opt=",
                truth_text(item_optional),
            ).as_str(),
        );
        m.append(")");
        return Err(PqError::Bad(m));
    }
    if l.max_rep_level != 3 {
        return Err(
            PqError::Bad(
                text5(
                    "List<List<List>> `",
                    outer,
                    "` leaf max_rep_level=",
                    number(l.max_rep_level).as_str(),
                    " != 3",
                ),
            ),
        );
    }
    let spec = build_named_spec(
        leaves,
        l.name.as_str(),
        text5(
            "List<List<List>> `",
            outer,
            "` leaf `",
            l.name.as_str(),
            "` missing from flat leaves list",
        ),
    )?;
    Ok(
        ColumnPlan {
            chunk_path: path_below_root(l.path),
            kind: ColumnKind::NestedListOfListOfListPrimitive {
                spec,
                ptype: l.ptype,
                max_def_level: l.max_def_level,
                max_rep_level: l.max_rep_level,
                outer_optional,
                middle_optional,
                inner_optional,
                item_optional,
            },
        },
    )
}

/// The words with which a map inside a list or inside a map is refused.
struct MapText {
    what: &'static str,
    what_key: &'static str,
    what_type: &'static str,
    key: &'static str,
    value: &'static str,
    key_level: &'static str,
    value_level: &'static str,
    levels: &'static str,
}

impl MapText {
    spec fn words(self) -> MapWords {
        MapWords {
            what: self.what@,
            what_key: self.what_key@,
            what_type: self.what_type@,
            key: self.key@,
            value: self.value@,
            key_level: self.key_level@,
            value_level: self.value_level@,
            levels: self.levels@,
        }
    }
}

fn list_map_text() -> (r: MapText)
    ensures
        r.words() == list_map_words(),
{
    MapText {
        what: "List<Map> `",
        what_key: "List<Map<_>> `",
        what_type: "List<Map> `",
        key: "key",
        value: "value",
        key_level: "` K max_def_level=",
        value_level: "` V max_def_level=",
        levels: "` K/V max_rep_level=",
    }
}

fn map_map_text() -> (r: MapText)
    ensures
        r.words() == map_map_words(),
{
    MapText {
        what: "MAP<_, Map> `",
        what_key: "MAP<_, Map<_>> `",
        what_type: "MAP<_, Map<>> `",
        key: "inner key",
        value: "inner value",
        key_level: "` inner K max_def_level=",
        value_level: "` inner V max_def_level=",
        levels: "` inner K/V max_rep_level=",
    }
}

fn build_inner_map_specs(
    w: &MapText,
    name: &str,
    outer_optional: bool,
    key: &LeafRef<'_>,
    value: &LeafRef<'_>,
    leaves: &[SchemaLeaf],
) -> (r: Result<(PlainSpec, PlainSpec), PqError>)
    ensures
        match (
            r,
            inner_map_specs(
                w.words(),
                name@,
                outer_optional,
                key.node(),
                value.node(),
                leaf_views(leaves@),
            ),
        ) {
            (Ok(v), Ok(x)) => v == x,
            (Err(x), Err(y)) => x@ == y,
            _ => false,
        },
{
    let kname = key.name.as_str();
    let vname = value.name.as_str();
    match key.repetition {
        Repetition::Required => {},
        _ => {
            return Err(
                PqError::Unsupported(
                    text7(w.what_key, name, "` ", w.key, " `", kname, "` not REQUIRED"),
                ),
            );
        },
    }
    if let Some(t) = unknown_type(key.ptype) {
        return Err(
            PqError::Unsupported(
                text7(
                    w.what_type,
                    name,
                    "` ",
                    w.key,
                    " physical type ",
                    t.as_str(),
                    ": OBJ-2c",
                ),
            ),
        );
    }
    if let Some(t) = unknown_type(value.ptype) {
        return Err(
            PqError::Unsupported(
                text7(
                    w.what_type,
                    name,
                    "` ",
                    w.value,
                    " physical type ",
                    t.as_str(),
                    ": OBJ-2c",
                ),
            ),
        );
    }
    let want_key: u32 = levels(outer_optional) + 2;
    let want_value: u32 = levels(outer_optional) + 2 + levels(is_optional(value.repetition));
    if key.max_def_level != want_key {
        let mut m = text5(
            w.what,
            name,
            w.key_level,
            number(key.max_def_level).as_str(),
            " disagrees with expected ",
        );
        m.append(number(want_key).as_str());
        return Err(PqError::Bad(m));
    }
    if value.max_def_level != want_value {
        let mut m = text5(
            w.what,
            name,
            w.value_level,
            number(value.max_def_level).as_str(),
            " disagrees with expected ",
        );
        m.append(number(want_value).as_str());
        return Err(PqError::Bad(m));
    }
    if key.max_rep_level != 2 || value.max_rep_level != 2 {
        return Err(
            PqError::Bad(
                text7(
                    w.what,
                    name,
                    w.levels,
                    number(key.max_rep_level).as_str(),
                    "/",
                    number(value.max_rep_level).as_str(),
                    " != 2",
                ),
            ),
        );
    }
    build_pair_specs(
        leaves,
        kname,
        text7(w.what, name, "` ", w.key, " leaf `", kname, "` missing from flat leaves"),
        vname,
        text7(w.what, name, "` ", w.value, " leaf `", vname, "` missing from flat leaves"),
    )
}

fn classify_list_of_map(
    outer: &str,
    outer_optional: bool,
    children: &Vec<SchemaNode>,
    leaves: &[SchemaLeaf],
) -> (r: Result<ColumnPlan, PqError>)
    ensures
        plans(
            r,
            list_map_plan(outer@, outer_optional, node_views(children@), leaf_views(leaves@)),
        ),
{
    let inner = find_repeated_middle(
        children,
        2,
        "List<Map> `",
        outer,
        "` inner-map outer children != 1: non-canonical",
        "` inner-map middle not REPEATED",
        "` inner-map middle children != 2",
    )?;
    assert(node_views(inner@)[0] == inner@[0]@);
    assert(node_views(inner@)[1] == inner@[1]@);
    let key = match node_ref(&inner[0]) {
        NodeRef::Leaf(l) => l,
        NodeRef::Group(_) => return Err(
            PqError::Unsupported(
                text3("List<Map<group, _>> `", outer, "`: non-primitive key, SP147 follow-up"),
            ),
        ),
    };
    let value = match node_ref(&inner[1]) {
        NodeRef::Leaf(l) => l,
        NodeRef::Group(_) => return Err(
            PqError::Unsupported(
                text3("List<Map<_, group>> `", outer, "`: non-primitive value, SP147 follow-up"),
            ),
        ),
    };
    let (key_spec, value_spec) = build_inner_map_specs(
        &list_map_text(),
        outer,
        outer_optional,
        &key,
        &value,
        leaves,
    )?;
    Ok(
        ColumnPlan {
            chunk_path: path_below_root(value.path),
            kind: ColumnKind::NestedListOfMap {
                outer_optional,
                key_spec,
                key_ptype: key.ptype,
                key_chunk_path: path_below_root(key.path),
                value_spec,
                value_ptype: value.ptype,
                value_chunk_path: path_below_root(value.path),
                max_def_level: value.max_def_level,
                value_optional: is_optional(value.repetition),
            },
        },
    )
}

/// Whether classification gave the field.
pub open spec fn fields_as(r: Result<StructField, PqError>, s: Result<FieldView, PqErrorView>) -> bool {
    match (r, s) {
        (Ok(v), Ok(w)) => v@ == w,
        (Err(x), Err(y)) => x@ == y,
        _ => false,
    }
}

/// Whether classification gave the fields.
pub open spec fn fields_all(
    r: Result<Vec<StructField>, PqError>,
    s: Result<Seq<FieldView>, PqErrorView>,
) -> bool {
    match (r, s) {
        (Ok(v), Ok(w)) => fields_view(v@) == w,
        (Err(x), Err(y)) => x@ == y,
        _ => false,
    }
}

fn make_leaf_field(l: &LeafRef<'_>, spec: PlainSpec) -> (r: StructField)
    ensures
        r@ == leaf_field(l.node(), spec),
{
    StructField {
        name: l.name.clone(),
        chunk_path: path_below_root(l.path),
        spec,
        ptype: l.ptype,
        max_def_level: l.max_def_level,
        optional: matches!(l.repetition, Repetition::Optional),
        nested: None,
    }
}

fn node_text(n: &SchemaNode) -> (r: &String)
    ensures
        r@ == node_name(n@),
{
    match n {
        SchemaNode::Leaf { name, .. } => name,
        SchemaNode::Group { name, .. } => name,
    }
}

fn classify_list_struct_field(outer: &str, child: &SchemaNode, leaves: &[SchemaLeaf]) -> (r: Result<
    StructField,
    PqError,
>)
    ensures
        fields_as(r, list_struct_field(outer@, child@, leaf_views(leaves@))),
{
    let name = node_text(child).as_str();
    let l = match node_ref(child) {
        NodeRef::Leaf(l) => l,
        NodeRef::Group(_) => return Err(
            PqError::Unsupported(
                text5(
                    "List<struct<group>> `",
                    outer,
                    "` field `",
                    name,
                    "`: SP146 follow-up (V1 supports List<struct<primitives>>)",
                ),
            ),
        ),
    };
    match l.repetition {
        Repetition::Repeated => {
            return Err(
                PqError::Unsupported(
                    text5(
                        "List<struct> `",
                        outer,
                        "` field `",
                        name,
                        "` is REPEATED: SP146 follow-up",
                    ),
                ),
            );
        },
        Repetition::Other(_) => {
            return Err(
                PqError::Unsupported(
                    text5("List<struct> `", outer, "` field `", name, "` unknown repetition"),
                ),
            );
        },
        _ => {},
    }
    if let Some(t) = unknown_type(l.ptype) {
        return Err(
            PqError::Unsupported(
                text7(
                    "List<struct> `",
                    outer,
                    "` field `",
                    name,
                    "` physical type ",
                    t.as_str(),
                    ": OBJ-2c",
                ),
            ),
        );
    }
    let spec = build_named_spec(
        leaves,
        name,
        text5("List<struct> `", outer, "` field leaf `", name, "` missing"),
    )?;
    Ok(make_leaf_field(&l, spec))
}

proof fn lemma_list_struct_error(
    outer: Seq<char>,
    children: Seq<SchemaNodeView>,
    few: nat,
    k: nat,
    leaves: Seq<SchemaLeafView>,
)
    requires
        few <= k,
        list_struct_fields(outer, children, few, leaves) is Err,
    ensures
        list_struct_fields(outer, children, k, leaves) == list_struct_fields(
            outer,
            children,
            few,
            leaves,
        ),
    decreases k - few,
{
    if few < k {
        lemma_list_struct_error(outer, children, few, (k - 1) as nat, leaves);
    }
}

proof fn lemma_fields_push(s: Seq<StructField>, f: StructField)
    ensures
        fields_view(s.push(f)) == fields_view(s).push(f@),
        fields_view(Seq::<StructField>::empty()) == Seq::<FieldView>::empty(),
{
    lemma_fields_view(s);
    lemma_fields_view(s.push(f));
    assert forall|i: int| 0 <= i < s.len() + 1 implies fields_view(s.push(f))[i] == fields_view(
        s,
    ).push(f@)[i] by {
        if i < s.len() {
            assert(s.push(f)[i] == s[i]);
        }
    }
    assert(fields_view(s.push(f)) =~= fields_view(s).push(f@));
    assert(fields_view(Seq::<StructField>::empty()) =~= Seq::<FieldView>::empty());
}

fn classify_list_struct_fields(outer: &str, children: &Vec<SchemaNode>, leaves: &[SchemaLeaf]) -> (r:
    Result<Vec<StructField>, PqError>)
    ensures
        fields_all(
            r,
            list_struct_fields(
                outer@,
                node_views(children@),
                children@.len(),
                leaf_views(leaves@),
            ),
        ),
        r matches Ok(v) ==> v@.len() == children@.len(),
{
    let mut out: Vec<StructField> = Vec::new();
    let mut k: usize = 0;
    assert(fields_view(out@) =~= Seq::<FieldView>::empty());
    while k < children.len()
        invariant
            k <= children@.len(),
            out@.len() == k,
            list_struct_fields(outer@, node_views(children@), k as nat, leaf_views(leaves@)) == Ok::<
                Seq<FieldView>,
                PqErrorView,
            >(fields_view(out@)),
        decreases children@.len() - k,
    {
        assert(node_views(children@)[k as int] == children@[k as int]@);
        match classify_list_struct_field(outer, &children[k], leaves) {
            Err(x) => {
                proof {
                    lemma_list_struct_error(
                        outer@,
                        node_views(children@),
                        (k + 1) as nat,
                        children@.len(),
                        leaf_views(leaves@),
                    );
                }
                return Err(x);
            },
            Ok(f) => {
                proof {
                    lemma_fields_push(out@, f);
                }
                out.push(f);
            },
        }
        k += 1;
    }
    Ok(out)
}

fn classify_list_of_struct(
    outer: &str,
    outer_optional: bool,
    element: &str,
    children: &Vec<SchemaNode>,
    leaves: &[SchemaLeaf],
) -> (r: Result<ColumnPlan, PqError>)
    ensures
        plans(
            r,
            list_struct_plan(
                outer@,
                outer_optional,
                element@,
                node_views(children@),
                leaf_views(leaves@),
            ),
        ),
{
    if children.len() == 0 {
        return Err(
            PqError::Bad(
                text5("List<struct> `", outer, "` element `", element, "` has no fields"),
            ),
        );
    }
    let fields = classify_list_struct_fields(outer, children, leaves)?;
    proof {
        lemma_fields_view(fields@);
    }
    let chunk_path = copy_texts(&fields[0].chunk_path);
    Ok(
        ColumnPlan {
            chunk_path,
            kind: ColumnKind::NestedListOfStruct {
                outer_optional,
                list_max_def_level: levels(outer_optional) + 1,
                fields,
            },
        },
    )
}

fn classify_list_of_group(
    outer: &str,
    outer_optional: bool,
    element: &GroupRef<'_>,
    leaves: &[SchemaLeaf],
) -> (r: Result<ColumnPlan, PqError>)
    ensures
        plans(r, list_group_plan(outer@, outer_optional, element.node(), leaf_views(leaves@))),
{
    match element.logical_type {
        Some(LogicalType::List) => {
            let inner = find_repeated_middle(
                element.children,
                1,
                "List<List> `",
                outer,
                "` inner-list outer children != 1: non-canonical nested LIST",
                "` inner-list middle not REPEATED",
                "` inner-list middle children != 1",
            )?;
            assert(node_views(inner@)[0] == inner@[0]@);
            let inner_optional: bool = is_optional(element.repetition);
            match node_ref(&inner[0]) {
                NodeRef::Group(g) => classify_list_of_list_of_group(
                    outer,
                    outer_optional,
                    inner_optional,
                    &g,
                    leaves,
                ),
                NodeRef::Leaf(l) => classify_list_of_list_primitive(
                    outer,
                    outer_optional,
                    inner_optional,
                    &l,
                    leaves,
                ),
            }
        },
        Some(LogicalType::MapKv) => classify_list_of_map(
            outer,
            outer_optional,
            element.children,
            leaves,
        ),
        None => classify_list_of_struct(
            outer,
            outer_optional,
            element.name.as_str(),
            element.children,
            leaves,
        ),
    }
}

fn classify_map_struct_field(map: &str, child: &SchemaNode, leaves: &[SchemaLeaf]) -> (r: Result<
    StructField,
    PqError,
>)
    ensures
        fields_as(r, map_struct_field(map@, child@, leaf_views(leaves@))),
{
    let name = node_text(child).as_str();
    let l = match node_ref(child) {
        NodeRef::Leaf(l) => l,
        NodeRef::Group(_) => return Err(
            PqError::Unsupported(
                text5(
                    "MAP<_, struct<group>> `",
                    map,
                    "` value field `",
                    name,
                    "`: SP146 follow-up",
                ),
            ),
        ),
    };
    match l.repetition {
        Repetition::Repeated => {
            return Err(
                PqError::Unsupported(
                    text5(
                        "MAP<_, struct> `",
                        map,
                        "` value field `",
                        name,
                        "` REPEATED: SP146 follow-up",
                    ),
                ),
            );
        },
        _ => {},
    }
    if let Some(t) = unknown_type(l.ptype) {
        return Err(
            PqError::Unsupported(
                text7(
                    "MAP<_, struct> `",
                    map,
                    "` value field `",
                    name,
                    "` physical type ",
                    t.as_str(),
                    ": OBJ-2c",
                ),
            ),
        );
    }
    let spec = build_named_spec(
        leaves,
        name,
        text5("MAP<_, struct> `", map, "` value field leaf `", name, "` missing"),
    )?;
    Ok(make_leaf_field(&l, spec))
}

proof fn lemma_map_struct_error(
    map: Seq<char>,
    children: Seq<SchemaNodeView>,
    few: nat,
    k: nat,
    leaves: Seq<SchemaLeafView>,
)
    requires
        few <= k,
        map_struct_fields(map, children, few, leaves) is Err,
    ensures
        map_struct_fields(map, children, k, leaves) == map_struct_fields(
            map,
            children,
            few,
            leaves,
        ),
    decreases k - few,
{
    if few < k {
        lemma_map_struct_error(map, children, few, (k - 1) as nat, leaves);
    }
}

fn classify_map_struct_fields(map: &str, children: &Vec<SchemaNode>, leaves: &[SchemaLeaf]) -> (r:
    Result<Vec<StructField>, PqError>)
    ensures
        fields_all(
            r,
            map_struct_fields(map@, node_views(children@), children@.len(), leaf_views(leaves@)),
        ),
        r matches Ok(v) ==> v@.len() == children@.len(),
{
    let mut out: Vec<StructField> = Vec::new();
    let mut k: usize = 0;
    assert(fields_view(out@) =~= Seq::<FieldView>::empty());
    while k < children.len()
        invariant
            k <= children@.len(),
            out@.len() == k,
            map_struct_fields(map@, node_views(children@), k as nat, leaf_views(leaves@)) == Ok::<
                Seq<FieldView>,
                PqErrorView,
            >(fields_view(out@)),
        decreases children@.len() - k,
    {
        assert(node_views(children@)[k as int] == children@[k as int]@);
        match classify_map_struct_field(map, &children[k], leaves) {
            Err(x) => {
                proof {
                    lemma_map_struct_error(
                        map@,
                        node_views(children@),
                        (k + 1) as nat,
                        children@.len(),
                        leaf_views(leaves@),
                    );
                }
                return Err(x);
            },
            Ok(f) => {
                proof {
                    lemma_fields_push(out@, f);
                }
                out.push(f);
            },
        }
        k += 1;
    }
    Ok(out)
}

/// A map's key, as it has been found to be readable.
struct MapKey {
    spec: PlainSpec,
    ptype: Type,
    path: Vec<String>,
}

impl MapKey {
    spec fn key(self) -> KeyView {
        KeyView { spec: self.spec, ptype: self.ptype, path: texts(self.path@) }
    }
}

fn classify_map_of_struct(
    map: &str,
    outer_optional: bool,
    key: MapKey,
    value: &GroupRef<'_>,
    leaves: &[SchemaLeaf],
) -> (r: Result<ColumnPlan, PqError>)
    ensures
        plans(
            r,
            map_struct_plan(map@, outer_optional, key.key(), value.node(), leaf_views(leaves@)),
        ),
{
    if value.children.len() == 0 {
        return Err(
            PqError::Bad(
                text5("MAP<_, struct> `", map, "` value `", value.name.as_str(), "` has no fields"),
            ),
        );
    }
    let value_fields = classify_map_struct_fields(map, value.children, leaves)?;
    proof {
        lemma_fields_view(value_fields@);
    }
    let chunk_path = copy_texts(&value_fields[0].chunk_path);
    Ok(
        ColumnPlan {
            chunk_path,
            kind: ColumnKind::NestedMapOfStruct {
                outer_optional,
                key_spec: key.spec,
                key_ptype: key.ptype,
                key_chunk_path: key.path,
                map_max_def_level: levels(outer_optional) + 1,
                value_fields,
            },
        },
    )
}

fn classify_map_of_list(
    map: &str,
    outer_optional: bool,
    key: MapKey,
    value: &GroupRef<'_>,
    leaves: &[SchemaLeaf],
) -> (r: Result<ColumnPlan, PqError>)
    ensures
        plans(
            r,
            map_list_plan(map@, outer_optional, key.key(), value.node(), leaf_views(leaves@)),
        ),
{
    let inner = find_repeated_middle(
        value.children,
        1,
        "MAP<_, List> `",
        map,
        "` value-list outer children != 1",
        "` value-list middle not REPEATED",
        "` value-list middle children != 1",
    )?;
    assert(node_views(inner@)[0] == inner@[0]@);
    let l = match node_ref(&inner[0]) {
        NodeRef::Leaf(l) => l,
        NodeRef::Group(_) => return Err(
            PqError::Unsupported(text3("MAP<_, List<group>> `", map, "`: SP146 follow-up")),
        ),
    };
    let value_item_optional: bool = is_optional(l.repetition);
    if let Some(t) = unknown_type(l.ptype) {
        return Err(
            PqError::Unsupported(
                text5(
                    "MAP<_, List<",
                    t.as_str(),
                    ">> `",
                    map,
                    "`: physical type not in OBJ-2c",
                ),
            ),
        );
    }
    let want: u32 = levels(outer_optional) + 1 + 1 + levels(value_item_optional);
    if l.max_def_level != want {
        let mut m = text5(
            "MAP<_, List> `",
            map,
            "` V leaf max_def_level=",
            number(l.max_def_level).as_str(),
            " disagrees with expected ",
        );
        m.append(number(want).as_str());
        return Err(PqError::Bad(m));
    }
    if l.max_rep_level != 2 {
        return Err(
            PqError::Bad(
                text5(
                    "MAP<_, List> `",
                    map,
                    "` V leaf max_rep_level=",
                    number(l.max_rep_level).as_str(),
                    " != 2",
                ),
            ),
        );
    }
    let spec = build_named_spec(
        leaves,
        l.name.as_str(),
        text5("MAP<_, List> `", map, "` V leaf `", l.name.as_str(), "` missing"),
    )?;
    Ok(
        ColumnPlan {
            chunk_path: path_below_root(l.path),
            kind: ColumnKind::NestedMapOfList {
                outer_optional,
                key_spec: key.spec,
                key_ptype: key.ptype,
                key_chunk_path: key.path,
                value_spec: spec,
                value_ptype: l.ptype,
                value_chunk_path: path_below_root(l.path),
                max_def_level: l.max_def_level,
                value_item_optional,
            },
        },
    )
}

fn classify_map_of_map(
    map: &str,
    outer_optional: bool,
    key: MapKey,
    value: &GroupRef<'_>,
    leaves: &[SchemaLeaf],
) -> (r: Result<ColumnPlan, PqError>)
    ensures
        plans(
            r,
            map_map_plan(map@, outer_optional, key.key(), value.node(), leaf_views(leaves@)),
        ),
{
    let inner = find_repeated_middle(
        value.children,
        2,
        "MAP<_, Map> `",
        map,
        "` inner-map outer children != 1: non-canonical",
        "` inner-map middle not REPEATED",
        "` inner-map middle children != 2",
    )?;
    assert(node_views(inner@)[0] == inner@[0]@);
    assert(node_views(inner@)[1] == inner@[1]@);
    let inner_key = match node_ref(&inner[0]) {
        NodeRef::Leaf(l) => l,
        NodeRef::Group(_) => return Err(
            PqError::Unsupported(
                text3(
                    "MAP<_, Map<group, _>> `",
                    map,
                    "`: non-primitive inner key, SP147 follow-up",
                ),
            ),
        ),
    };
    let inner_value = match node_ref(&inner[1]) {
        NodeRef::Leaf(l) => l,
        NodeRef::Group(_) => return Err(
            PqError::Unsupported(
                text3(
                    "MAP<_, Map<_, group>> `",
                    map,
                    "`: non-primitive inner value, SP147 follow-up",
                ),
            ),
        ),
    };
    let (key_spec, value_spec) = build_inner_map_specs(
        &map_map_text(),
        map,
        outer_optional,
        &inner_key,
        &inner_value,
        leaves,
    )?;
    Ok(
        ColumnPlan {
            chunk_path: path_below_root(inner_value.path),
            kind: ColumnKind::NestedMapOfMap {
                outer_optional,
                outer_key_spec: key.spec,
                outer_key_ptype: key.ptype,
                outer_key_chunk_path: key.path,
                inner_key_spec: key_spec,
                inner_key_ptype: inner_key.ptype,
                inner_key_chunk_path: path_below_root(inner_key.path),
                inner_value_spec: value_spec,
                inner_value_ptype: inner_value.ptype,
                inner_value_chunk_path: path_below_root(inner_value.path),
                max_def_level: inner_value.max_def_level,
                inner_value_optional: is_optional(inner_value.repetition),
            },
        },
    )
}

fn classify_map_of_group(
    map: &str,
    outer_optional: bool,
    key: &LeafRef<'_>,
    value: &GroupRef<'_>,
    leaves: &[SchemaLeaf],
) -> (r: Result<ColumnPlan, PqError>)
    ensures
        plans(
            r,
            map_group_plan(map@, outer_optional, key.node(), value.node(), leaf_views(leaves@)),
        ),
{
    let kname = key.name.as_str();
    let want: u32 = levels(outer_optional) + 1;
    if key.max_def_level != want {
        let mut m = text5(
            "MAP<_, group> `",
            map,
            "` key max_def_level=",
            number(key.max_def_level).as_str(),
            " disagrees with expected ",
        );
        m.append(number(want).as_str());
        return Err(PqError::Bad(m));
    }
    if let Some(t) = unknown_type(key.ptype) {
        return Err(
            PqError::Unsupported(
                text5("MAP `", map, "` key physical type ", t.as_str(), ": OBJ-2c"),
            ),
        );
    }
    let spec = build_named_spec(
        leaves,
        kname,
        text5("MAP<_, group> `", map, "` key leaf `", kname, "` missing"),
    )?;
    let k = MapKey { spec, ptype: key.ptype, path: path_below_root(key.path) };
    match value.repetition {
        Repetition::Required => {},
        _ => {
            return Err(
                PqError::Unsupported(
                    text3(
                        "MAP `",
                        map,
                        "` value group is not REQUIRED — Parquet spec quirk: pyarrow always writes value groups as REQ inside the REP middle",
                    ),
                ),
            );
        },
    }
    match value.logical_type {
        None => classify_map_of_struct(map, outer_optional, k, value, leaves),
        Some(LogicalType::List) => classify_map_of_list(map, outer_optional, k, value, leaves),
        Some(LogicalType::MapKv) => classify_map_of_map(map, outer_optional, k, value, leaves),
    }
}

fn classify_map_leaf(
    name: &str,
    outer_optional: bool,
    key: &LeafRef<'_>,
    value: &LeafRef<'_>,
    leaves: &[SchemaLeaf],
) -> (r: Result<ColumnPlan, PqError>)
    ensures
        plans(
            r,
            map_leaf_plan(name@, outer_optional, key.node(), value.node(), leaf_views(leaves@)),
        ),
{
    let kname = key.name.as_str();
    let vname = value.name.as_str();
    let value_optional: bool = match value.repetition {
        Repetition::Required => false,
        Repetition::Optional => true,
        _ => return Err(
            PqError::Bad(text3("MAP value `", name, "` must be REQUIRED or OPTIONAL")),
        ),
    };
    let want_value: u32 = levels(outer_optional) + 1 + levels(value_optional);
    let want_key: u32 = levels(outer_optional) + 1;
    if value.max_def_level != want_value {
        let mut m = text5(
            "MAP `",
            name,
            "` value max_def_level=",
            number(value.max_def_level).as_str(),
            " disagrees with expected ",
        );
        m.append(number(want_value).as_str());
        return Err(PqError::Bad(m));
    }
    if key.max_def_level != want_key {
        let mut m = text5(
            "MAP `",
            name,
            "` key max_def_level=",
            number(key.max_def_level).as_str(),
            " disagrees with expected ",
        );
        m.append(number(want_key).as_str());
        return Err(PqError::Bad(m));
    }
    if let Some(t) = unknown_type(key.ptype) {
        return Err(
            PqError::Unsupported(
                text5("MAP `", name, "` key physical type ", t.as_str(), ": OBJ-2c"),
            ),
        );
    }
    if let Some(t) = unknown_type(value.ptype) {
        return Err(
            PqError::Unsupported(
                text5("MAP `", name, "` value physical type ", t.as_str(), ": OBJ-2c"),
            ),
        );
    }
    let (key_spec, value_spec) = build_pair_specs(
        leaves,
        kname,
        text5("MAP `", name, "` key leaf `", kname, "` missing from flat leaves list"),
        vname,
        text5("MAP `", name, "` value leaf `", vname, "` missing from flat leaves list"),
    )?;
    Ok(
        ColumnPlan {
            chunk_path: path_below_root(value.path),
            kind: ColumnKind::NestedMapKV {
                key_spec,
                value_spec,
                key_ptype: key.ptype,
                value_ptype: value.ptype,
                key_chunk_path: path_below_root(key.path),
                value_chunk_path: path_below_root(value.path),
                max_def_level: value.max_def_level,
                outer_optional,
                value_optional,
            },
        },
    )
}

/// Classifies a map column.
pub fn classify_map_plan(
    name: &str,
    repetition: Repetition,
    children: &Vec<SchemaNode>,
    leaves: &[SchemaLeaf],
) -> (r: Result<ColumnPlan, PqError>)
    ensures
        plans(r, map_plan(name@, repetition, node_views(children@), leaf_views(leaves@))),
{
    let outer_optional: bool = is_optional(repetition);
    let inner = find_repeated_middle(
        children,
        2,
        "non-canonical MAP `",
        name,
        "` (outer children != 1): SP145 follow-up",
        "` (middle not REPEATED group): SP145 follow-up",
        "` (key_value children != 2): SP145 follow-up",
    )?;
    assert(node_views(inner@)[0] == inner@[0]@);
    assert(node_views(inner@)[1] == inner@[1]@);
    let key = match node_ref(&inner[0]) {
        NodeRef::Leaf(l) => l,
        NodeRef::Group(_) => return Err(
            PqError::Unsupported(
                text3("MAP<group, _> `", name, "` (key is a group): SP145 follow-up"),
            ),
        ),
    };
    match key.repetition {
        Repetition::Required => {},
        _ => {
            return Err(
                PqError::Bad(text3("MAP key `", name, "` must be REQUIRED per Parquet spec")),
            );
        },
    }
    match node_ref(&inner[1]) {
        NodeRef::Group(g) => classify_map_of_group(name, outer_optional, &key, &g, leaves),
        NodeRef::Leaf(l) => classify_map_leaf(name, outer_optional, &key, &l, leaves),
    }
}

/// The path of the first leaf at or below a node, without the name of the root.
pub fn first_leaf_chunk_path(node: &SchemaNode) -> (r: Result<Vec<String>, PqError>)
    ensures
        match (r, first_leaf_path(node@)) {
            (Ok(v), Some(p)) => texts(v@) == p,
            (Err(x), None) => x@ == PqErrorView::Bad(
                "first_leaf_chunk_path: group with no leaves"@,
            ),
            _ => false,
        },
    decreases node,
{
    match node_ref(node) {
        NodeRef::Leaf(l) => Ok(path_below_root(l.path)),
        NodeRef::Group(g) => {
            let children = g.children;
            let mut i: usize = 0;
            while i < children.len()
                invariant
                    i <= children@.len(),
                    decreases_to!(*node => *children),
                    first_leaf_path(node@) == first_leaf_path_in(node_views(children@), i as int),
                decreases children@.len() - i,
            {
                proof {
                    assert(node_views(children@)[i as int] == children@[i as int]@);
                    assert(decreases_to!(*children => children@[i as int]));
                }
                match first_leaf_chunk_path(&children[i]) {
                    Ok(p) => return Ok(p),
                    Err(_) => {},
                }
                i += 1;
            }
            Err(bad("first_leaf_chunk_path: group with no leaves"))
        },
    }
}

fn classify_struct_leaf_field(
    name: &str,
    outer_optional: bool,
    l: &LeafRef<'_>,
    leaves: &[SchemaLeaf],
) -> (r: Result<StructField, PqError>)
    ensures
        fields_as(r, struct_leaf_field(name@, outer_optional, l.node(), leaf_views(leaves@))),
{
    let cname = l.name.as_str();
    let own: u32 = match l.repetition {
        Repetition::Required => 0,
        Repetition::Optional => 1,
        Repetition::Repeated => return Err(
            PqError::Unsupported(
                text5(
                    "struct `",
                    name,
                    "` field `",
                    cname,
                    "` is REPEATED (List): SP145 follow-up",
                ),
            ),
        ),
        Repetition::Other(_) => return Err(
            PqError::Unsupported(
                text5("struct `", name, "` field `", cname, "` unknown repetition"),
            ),
        ),
    };
    if let Some(t) = unknown_type(l.ptype) {
        return Err(
            PqError::Unsupported(
                text7(
                    "struct `",
                    name,
                    "` field `",
                    cname,
                    "` physical type ",
                    t.as_str(),
                    ": OBJ-2c",
                ),
            ),
        );
    }
    let want: u32 = levels(outer_optional) + own;
    if l.max_def_level != want {
        let mut m = text5("struct `", name, "` field `", cname, "` max_def_level=");
        m.append(
            text3(
                number(l.max_def_level).as_str(),
                " disagrees with expected ",
                number(want).as_str(),
            ).as_str(),
        );
        return Err(PqError::Bad(m));
    }
    let spec = build_named_spec(
        leaves,
        cname,
        text5("struct `", name, "` field leaf `", cname, "` missing from flat leaves list"),
    )?;
    Ok(make_leaf_field(l, spec))
}

/// Whether classification gave the shape.
pub open spec fn shapes(r: Result<ColumnKind, PqError>, s: Result<KindView, PqErrorView>) -> bool {
    match (r, s) {
        (Ok(v), Ok(w)) => v@ == w,
        (Err(x), Err(y)) => x@ == y,
        _ => false,
    }
}

fn classify_struct_list(
    name: &str,
    g_optional: bool,
    children: &Vec<SchemaNode>,
    leaves: &[SchemaLeaf],
) -> (r: Result<ColumnKind, PqError>)
    ensures
        shapes(r, struct_list_kind(name@, g_optional, node_views(children@), leaf_views(leaves@))),
{
    let inner = find_repeated_middle(
        children,
        1,
        "struct<List> `",
        name,
        "` outer children != 1: SP146",
        "` middle not REPEATED",
        "` middle children != 1",
    )?;
    assert(node_views(inner@)[0] == inner@[0]@);
    match node_ref(&inner[0]) {
        NodeRef::Leaf(l) => {
            if let Some(t) = unknown_type(l.ptype) {
                return Err(
                    PqError::Unsupported(
                        text5(
                            "struct<List<",
                            t.as_str(),
                            ">> `",
                            name,
                            "`: physical type not in OBJ-2c",
                        ),
                    ),
                );
            }
            let spec = build_named_spec(
                leaves,
                l.name.as_str(),
                text5("struct<List> `", name, "` leaf `", l.name.as_str(), "` missing"),
            )?;
            Ok(
                ColumnKind::NestedListPrimitive {
                    spec,
                    ptype: l.ptype,
                    max_def_level: l.max_def_level,
                    max_rep_level: l.max_rep_level,
                    outer_optional: g_optional,
                    element_optional: is_optional(l.repetition),
                },
            )
        },
        NodeRef::Group(g) => {
            let plan = classify_list_of_group(name, g_optional, &g, leaves)?;
            Ok(plan.kind)
        },
    }
}

/// Classifies a group inside a struct.
pub fn classify_nested_group_child(node: &SchemaNode, leaves: &[SchemaLeaf]) -> (r: Result<
    ColumnKind,
    PqError,
>)
    ensures
        shapes(r, nested_kind(node@, leaf_views(leaves@))),
    decreases node, 0int,
{
    match node_ref(node) {
        NodeRef::Leaf(_) => Err(bad("classify_nested_group_child: expected Group node")),
        NodeRef::Group(g) => match g.logical_type {
            Some(LogicalType::List) => classify_struct_list(
                g.name.as_str(),
                is_optional(g.repetition),
                g.children,
                leaves,
            ),
            Some(LogicalType::MapKv) => {
                let plan = classify_map_plan(g.name.as_str(), g.repetition, g.children, leaves)?;
                Ok(plan.kind)
            },
            None => {
                let plan = classify_struct_plan(
                    g.name.as_str(),
                    g.repetition,
                    g.children,
                    leaves,
                )?;
                Ok(plan.kind)
            },
        },
    }
}

fn classify_struct_field(
    name: &str,
    outer_optional: bool,
    child: &SchemaNode,
    leaves: &[SchemaLeaf],
) -> (r: Result<StructField, PqError>)
    ensures
        fields_as(r, struct_field(name@, outer_optional, child@, leaf_views(leaves@))),
    decreases child, 1int,
{
    match node_ref(child) {
        NodeRef::Leaf(l) => classify_struct_leaf_field(name, outer_optional, &l, leaves),
        NodeRef::Group(g) => {
            let kind = classify_nested_group_child(child, leaves)?;
            let chunk_path = first_leaf_chunk_path(child)?;
            let f = StructField {
                name: g.name.clone(),
                chunk_path,
                spec: PlainSpec::plain(Type::Boolean),
                ptype: Type::Boolean,
                max_def_level: 0,
                optional: false,
                nested: Some(Box::new(kind)),
            };
            Ok(f)
        },
    }
}

proof fn lemma_struct_error(
    name: Seq<char>,
    outer_optional: bool,
    children: Seq<SchemaNodeView>,
    few: nat,
    k: nat,
    leaves: Seq<SchemaLeafView>,
)
    requires
        few <= k <= children.len(),
        struct_fields(name, outer_optional, children, few, leaves) is Err,
    ensures
        struct_fields(name, outer_optional, children, k, leaves) == struct_fields(
            name,
            outer_optional,
            children,
            few,
            leaves,
        ),
    decreases k - few,
{
    if few < k {
        lemma_struct_error(name, outer_optional, children, few, (k - 1) as nat, leaves);
    }
}

fn classify_struct_fields(
    name: &str,
    outer_optional: bool,
    children: &Vec<SchemaNode>,
    leaves: &[SchemaLeaf],
) -> (r: Result<Vec<StructField>, PqError>)
    ensures
        fields_all(
            r,
            struct_fields(
                name@,
                outer_optional,
                node_views(children@),
                children@.len(),
                leaf_views(leaves@),
            ),
        ),
        r matches Ok(v) ==> v@.len() == children@.len(),
    decreases children, 0int,
{
    let mut out: Vec<StructField> = Vec::new();
    let mut k: usize = 0;
    assert(fields_view(out@) =~= Seq::<FieldView>::empty());
    while k < children.len()
        invariant
            k <= children@.len(),
            out@.len() == k,
            struct_fields(
                name@,
                outer_optional,
                node_views(children@),
                k as nat,
                leaf_views(leaves@),
            ) == Ok::<Seq<FieldView>, PqErrorView>(fields_view(out@)),
        decreases children@.len() - k,
    {
        proof {
            assert(node_views(children@)[k as int] == children@[k as int]@);
            assert(decreases_to!(*children => children@[k as int]));
        }
        match classify_struct_field(name, outer_optional, &children[k], leaves) {
            Err(x) => {
                proof {
                    lemma_struct_error(
                        name@,
                        outer_optional,
                        node_views(children@),
                        (k + 1) as nat,
                        children@.len(),
                        leaf_views(leaves@),
                    );
                }
                return Err(x);
            },
            Ok(f) => {
                proof {
                    lemma_fields_push(out@, f);
                }
                out.push(f);
            },
        }
        k += 1;
    }
    Ok(out)
}

/// Classifies a struct column.
pub fn classify_struct_plan(
    name: &str,
    repetition: Repetition,
    children: &Vec<SchemaNode>,
    leaves: &[SchemaLeaf],
) -> (r: Result<ColumnPlan, PqError>)
    ensures
        plans(r, struct_plan(name@, repetition, node_views(children@), leaf_views(leaves@))),
    decreases children, 1int,
{
    if children.len() == 0 {
        return Err(PqError::Bad(text3("struct `", name, "` has no fields")));
    }
    let outer_optional: bool = is_optional(repetition);
    let fields = classify_struct_fields(name, outer_optional, children, leaves)?;
    proof {
        lemma_fields_view(fields@);
    }
    let chunk_path = copy_texts(&fields[0].chunk_path);
    Ok(ColumnPlan { chunk_path, kind: ColumnKind::NestedStruct { outer_optional, fields } })
}

fn classify_list_plan(
    name: &str,
    repetition: Repetition,
    children: &Vec<SchemaNode>,
    leaves: &[SchemaLeaf],
) -> (r: Result<ColumnPlan, PqError>)
    ensures
        plans(r, list_plan(name@, repetition, node_views(children@), leaf_views(leaves@))),
{
    let outer_optional: bool = is_optional(repetition);
    let inner = find_repeated_middle(
        children,
        1,
        "non-canonical LIST `",
        name,
        "` (outer children != 1): SP145 follow-up",
        "` (middle not REPEATED group): SP145 follow-up",
        "` (middle children != 1): SP145 follow-up",
    )?;
    assert(node_views(inner@)[0] == inner@[0]@);
    match node_ref(&inner[0]) {
        NodeRef::Group(g) => classify_list_of_group(name, outer_optional, &g, leaves),
        NodeRef::Leaf(l) => classify_list_primitive(name, outer_optional, &l, leaves),
    }
}

fn node_index(children: &Vec<SchemaNode>, name: &str) -> (r: Option<usize>)
    ensures
        match r {
            Some(i) => i < children@.len() && find_node(node_views(children@), name@) == Some(
                children@[i as int]@,
            ),
            None => find_node(node_views(children@), name@) is None,
        },
{
    let mut i: usize = 0;
    assert(node_views(children@).skip(0) =~= node_views(children@));
    while i < children.len()
        invariant
            i <= children@.len(),
            find_node(node_views(children@), name@) == find_node(
                node_views(children@).skip(i as int),
                name@,
            ),
        decreases children@.len() - i,
    {
        proof {
            let s = node_views(children@).skip(i as int);
            assert(s[0] == children@[i as int]@);
            assert(s.drop_first() =~= node_views(children@).skip(i + 1));
        }
        if same_text(node_text(&children[i]).as_str(), name) {
            return Some(i);
        }
        i += 1;
    }
    None
}

/// Classifies the column with the given name, one of the nodes right below the root.
pub fn classify_column_plan(root: &SchemaNode, col_name: &str, leaves: &[SchemaLeaf]) -> (r: Result<
    ColumnPlan,
    PqError,
>)
    ensures
        plans(r, column_plan(root@, col_name@, leaf_views(leaves@))),
{
    let children = match node_ref(root) {
        NodeRef::Group(g) => g.children,
        NodeRef::Leaf(_) => return Err(bad("schema root is not a group")),
    };
    let i: usize = match node_index(children, col_name) {
        Some(i) => i,
        None => return Err(
            PqError::Bad(text3("column `", col_name, "` not found in Parquet schema")),
        ),
    };
    match node_ref(&children[i]) {
        NodeRef::Leaf(l) => classify_flat(&l, leaves),
        NodeRef::Group(g) => match g.logical_type {
            Some(LogicalType::MapKv) => classify_map_plan(
                g.name.as_str(),
                g.repetition,
                g.children,
                leaves,
            ),
            None => classify_struct_plan(g.name.as_str(), g.repetition, g.children, leaves),
            Some(LogicalType::List) => classify_list_plan(
                g.name.as_str(),
                g.repetition,
                g.children,
                leaves,
            ),
        },
    }
}

} // verus!
