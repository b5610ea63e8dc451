//! Stored schemas of lists, maps and structs inside one another: each is known for what it is, and
//! each of its leaves is found by its own path and read as its own element says.
use vstd::prelude::*;

use crate::classify::{
    column_plan, find_node, level, list_struct_fields, map_struct_fields, optional, struct_field, struct_fields,
};
use crate::error::PqErrorView;
use crate::extract::{source_of, SourceView};
use crate::laws::nested_files::{lemma_found, spec_at};
use crate::laws::shapes::{group_of, readable, single};
use crate::meta::FileMetaDataView;
use crate::plan::{FieldView, KindView, PlanView};
use crate::schema::{
    def_below, is_flat, leaves_of, node_at, nodes_at, rep_below, LogicalType, Repetition, SchemaElementView,
    SchemaNodeView,
};

verus! {

/// A leaf of the tree.
pub open spec fn leaf_node(
    e: SchemaElementView,
    def: int,
    lvl: int,
    path: Seq<Seq<char>>,
) -> SchemaNodeView {
    SchemaNodeView::Leaf {
        name: e.name,
        ptype: e.ptype->Some_0,
        repetition: e.repetition,
        max_def_level: def as u32,
        max_rep_level: lvl as u32,
        path: path.push(e.name),
    }
}

/// A group of the tree.
pub open spec fn group_node(e: SchemaElementView, children: Seq<SchemaNodeView>) -> SchemaNodeView {
    SchemaNodeView::Group {
        name: e.name,
        repetition: e.repetition,
        children,
        logical_type: e.group_type(),
    }
}

pub(crate) proof fn lemma_leaf_at(
    s: Seq<SchemaElementView>,
    i: int,
    def: u32,
    lvl: u32,
    path: Seq<Seq<char>>,
)
    requires
        0 <= i < s.len(),
        s[i].is_leaf(),
        single(s[i]),
        def < 100,
    ensures
        node_at(s, i, def, lvl, path) == (
            leaf_node(s[i], def + level(optional(s[i].repetition)), lvl as int, path),
            i + 1,
        ),
{
}

/// A group with one child.
proof fn lemma_one_child(
    s: Seq<SchemaElementView>,
    i: int,
    def: u32,
    lvl: u32,
    path: Seq<Seq<char>>,
    def2: u32,
    lvl2: u32,
    child: SchemaNodeView,
    end: int,
)
    requires
        0 <= i,
        i + 1 < s.len(),
        group_of(s[i], 1),
        def < 100,
        lvl < 100,
        def2 == def + (if s[i].repetition == Repetition::Required {
            0int
        } else {
            1
        }),
        lvl2 == lvl + (if s[i].repetition == Repetition::Repeated {
            1int
        } else {
            0
        }),
        single(s[i]) || s[i].repetition == Repetition::Repeated,
        node_at(s, i + 1, def2, lvl2, path.push(s[i].name)) == (child, end),
    ensures
        node_at(s, i, def, lvl, path) == (group_node(s[i], seq![child]), end),
{
    let e = s[i];
    let p = path.push(e.name);
    assert(def_below(def, e.repetition) == def2 && rep_below(lvl, e.repetition) == lvl2);
    assert(nodes_at(s, i + 1, 0, def2, lvl2, p) == (Seq::<SchemaNodeView>::empty(), i + 1));
    assert(Seq::<SchemaNodeView>::empty().push(child) =~= seq![child]);
    assert(nodes_at(s, i + 1, 1, def2, lvl2, p) == (seq![child], end));
}

/// A group with two children.
proof fn lemma_two_children(
    s: Seq<SchemaElementView>,
    i: int,
    def: u32,
    lvl: u32,
    path: Seq<Seq<char>>,
    def2: u32,
    lvl2: u32,
    a: SchemaNodeView,
    b: SchemaNodeView,
    end: int,
)
    requires
        0 <= i,
        i + 2 < s.len(),
        group_of(s[i], 2),
        def < 100,
        lvl < 100,
        def2 == def + (if s[i].repetition == Repetition::Required {
            0int
        } else {
            1
        }),
        lvl2 == lvl + (if s[i].repetition == Repetition::Repeated {
            1int
        } else {
            0
        }),
        single(s[i]) || s[i].repetition == Repetition::Repeated,
        node_at(s, i + 1, def2, lvl2, path.push(s[i].name)) == (a, i + 2),
        node_at(s, i + 2, def2, lvl2, path.push(s[i].name)) == (b, end),
    ensures
        node_at(s, i, def, lvl, path) == (group_node(s[i], seq![a, b]), end),
{
    let e = s[i];
    let p = path.push(e.name);
    assert(def_below(def, e.repetition) == def2 && rep_below(lvl, e.repetition) == lvl2);
    assert(nodes_at(s, i + 1, 0, def2, lvl2, p) == (Seq::<SchemaNodeView>::empty(), i + 1));
    assert(Seq::<SchemaNodeView>::empty().push(a) =~= seq![a]);
    assert(nodes_at(s, i + 1, 1, def2, lvl2, p) == (seq![a], i + 2));
    assert(seq![a].push(b) =~= seq![a, b]);
    assert(nodes_at(s, i + 1, 2, def2, lvl2, p) == (seq![a, b], end));
}

/// Whether the `n` elements from `i` on are readable leaves.
pub open spec fn readable_from(s: Seq<SchemaElementView>, i: int, n: nat) -> bool {
    &&& 0 <= i
    &&& i + n <= s.len()
    &&& forall|f: int| 0 <= f < n ==> readable(#[trigger] s[i + f], leaves_of(s))
}

/// The nodes of the `n` leaves from `i` on.
pub open spec fn leaf_nodes(
    s: Seq<SchemaElementView>,
    i: int,
    n: nat,
    def: int,
    lvl: int,
    path: Seq<Seq<char>>,
) -> Seq<SchemaNodeView> {
    Seq::new(
        n,
        |f: int| leaf_node(s[i + f], def + level(optional(s[i + f].repetition)), lvl, path),
    )
}

proof fn lemma_leaves_at(
    s: Seq<SchemaElementView>,
    i: int,
    n: nat,
    def: u32,
    lvl: u32,
    path: Seq<Seq<char>>,
)
    requires
        readable_from(s, i, n),
        def < 100,
    ensures
        nodes_at(s, i, n, def, lvl, path) == (
            leaf_nodes(s, i, n, def as int, lvl as int, path),
            i + n,
        ),
    decreases n,
{
    if n == 0 {
        assert(leaf_nodes(s, i, n, def as int, lvl as int, path) =~= Seq::empty());
    } else {
        let m = (n - 1) as nat;
        lemma_leaves_at(s, i, m, def, lvl, path);
        assert(readable(s[i + m], leaves_of(s)));
        lemma_leaf_at(s, i + m, def, lvl, path);
        let c = leaf_nodes(s, i, m, def as int, lvl as int, path);
        assert(c.push(node_at(s, i + m, def, lvl, path).0) =~= leaf_nodes(
            s,
            i,
            n,
            def as int,
            lvl as int,
            path,
        ));
    }
}

/// A group whose children are leaves.
proof fn lemma_leaf_children(
    s: Seq<SchemaElementView>,
    i: int,
    n: nat,
    def: u32,
    lvl: u32,
    path: Seq<Seq<char>>,
)
    requires
        group_of(s[i], n as int),
        single(s[i]),
        0 <= i,
        readable_from(s, i + 1, n),
        def < 99,
    ensures
        node_at(s, i, def, lvl, path) == (
            group_node(
                s[i],
                leaf_nodes(
                    s,
                    i + 1,
                    n,
                    def + level(optional(s[i].repetition)),
                    lvl as int,
                    path.push(s[i].name),
                ),
            ),
            i + 1 + n,
        ),
{
    let d = (def + level(optional(s[i].repetition))) as u32;
    lemma_leaves_at(s, i + 1, n, d, lvl, path.push(s[i].name));
}

/// Whether the first column of the name is the one that the elements from `i` on stand for, right
/// below a root of the name `r`, and the metadata is that of the elements.
pub open spec fn column_at(
    md: FileMetaDataView,
    s: Seq<SchemaElementView>,
    i: int,
    r: Seq<char>,
) -> bool {
    &&& md.leaves == leaves_of(s)
    &&& md.flat_schema == is_flat(md.root)
    &&& md.root is Group
    &&& find_node(md.root->children, s[i].name) == Some(node_at(s, i, 0, 0, seq![r]).0)
}

proof fn lemma_source(
    md: FileMetaDataView,
    s: Seq<SchemaElementView>,
    i: int,
    r: Seq<char>,
    plan: PlanView,
)
    requires
        column_at(md, s, i, r),
        node_at(s, i, 0, 0, seq![r]).0 is Group,
        column_plan(md.root, s[i].name, md.leaves) == Ok::<PlanView, PqErrorView>(plan),
    ensures
        source_of(md, s[i].name) == Ok::<SourceView, PqErrorView>(SourceView::Shape(plan)),
{
    lemma_found(md.root->children, s[i].name);
    let node = node_at(s, i, 0, 0, seq![r]).0;
    let j = choose|j: int| 0 <= j < md.root->children.len() && md.root->children[j] == node;
    assert(!(md.root->children[j] is Leaf));
}

/// Whether the elements at `i` and `i + 1` are a group of the logical type and the repeated group in
/// it, which has `n` children.
pub open spec fn wraps(s: Seq<SchemaElementView>, i: int, t: LogicalType, n: int) -> bool {
    &&& 0 <= i
    &&& i + 1 + n < s.len()
    &&& group_of(s[i], 1)
    &&& single(s[i])
    &&& s[i].group_type() == Some(t)
    &&& group_of(s[i + 1], n)
    &&& s[i + 1].repetition == Repetition::Repeated
}

/// Whether a list of lists of leaves starts at `i`.
pub open spec fn stores_list_of_list(s: Seq<SchemaElementView>, i: int) -> bool {
    &&& wraps(s, i, LogicalType::List, 1)
    &&& wraps(s, i + 2, LogicalType::List, 1)
    &&& readable(s[i + 4], leaves_of(s))
}

/// The plan of the list of lists at `i`.
pub open spec fn plan_of_list_of_list(s: Seq<SchemaElementView>, i: int) -> PlanView {
    let o = optional(s[i].repetition);
    let n = optional(s[i + 2].repetition);
    let e = optional(s[i + 4].repetition);
    PlanView {
        chunk_path: seq![s[i].name, s[i + 1].name, s[i + 2].name, s[i + 3].name, s[i + 4].name],
        kind: KindView::NestedListOfListPrimitive {
            spec: spec_at(s, i + 4),
            ptype: s[i + 4].ptype->Some_0,
            max_def_level: (level(o) + level(n) + level(e) + 2) as u32,
            max_rep_level: 2,
            outer_optional: o,
            inner_optional: n,
            item_optional: e,
        },
    }
}

/// A list of lists of leaves is known for what it is.
pub proof fn law_list_of_list_schema(
    md: FileMetaDataView,
    s: Seq<SchemaElementView>,
    i: int,
    r: Seq<char>,
)
    requires
        column_at(md, s, i, r),
        stores_list_of_list(s, i),
    ensures
        source_of(md, s[i].name) == Ok::<SourceView, PqErrorView>(
            SourceView::Shape(plan_of_list_of_list(s, i)),
        ),
{
    let p0 = seq![r];
    let p1 = p0.push(s[i].name);
    let p2 = p1.push(s[i + 1].name);
    let p3 = p2.push(s[i + 2].name);
    let p4 = p3.push(s[i + 3].name);
    let o = level(optional(s[i].repetition));
    let n = level(optional(s[i + 2].repetition));
    let e = level(optional(s[i + 4].repetition));
    let leaf = leaf_node(s[i + 4], o + n + e + 2, 2, p4);
    lemma_leaf_at(s, i + 4, (o + n + 2) as u32, 2, p4);
    lemma_one_child(s, i + 3, (o + n + 1) as u32, 1, p3, (o + n + 2) as u32, 2, leaf, i + 5);
    let n3 = group_node(s[i + 3], seq![leaf]);
    lemma_one_child(s, i + 2, (o + 1) as u32, 1, p2, (o + n + 1) as u32, 1, n3, i + 5);
    let n2 = group_node(s[i + 2], seq![n3]);
    lemma_one_child(s, i + 1, o as u32, 0, p1, (o + 1) as u32, 1, n2, i + 5);
    let n1 = group_node(s[i + 1], seq![n2]);
    lemma_one_child(s, i, 0, 0, p0, o as u32, 0, n1, i + 5);
    let plan = plan_of_list_of_list(s, i);
    assert(p4.push(s[i + 4].name).skip(1) =~= plan.chunk_path);
    lemma_source(md, s, i, r, plan);
}

/// Whether a list of lists of lists of leaves starts at `i`.
pub open spec fn stores_list_of_list_of_list(s: Seq<SchemaElementView>, i: int) -> bool {
    &&& wraps(s, i, LogicalType::List, 1)
    &&& wraps(s, i + 2, LogicalType::List, 1)
    &&& wraps(s, i + 4, LogicalType::List, 1)
    &&& readable(s[i + 6], leaves_of(s))
}

/// The plan of the list of lists of lists at `i`.
pub open spec fn plan_of_list_of_list_of_list(s: Seq<SchemaElementView>, i: int) -> PlanView {
    let o = optional(s[i].repetition);
    let m = optional(s[i + 2].repetition);
    let n = optional(s[i + 4].repetition);
    let e = optional(s[i + 6].repetition);
    PlanView {
        chunk_path: seq![
            s[i].name,
            s[i + 1].name,
            s[i + 2].name,
            s[i + 3].name,
            s[i + 4].name,
            s[i + 5].name,
            s[i + 6].name,
        ],
        kind: KindView::NestedListOfListOfListPrimitive {
            spec: spec_at(s, i + 6),
            ptype: s[i + 6].ptype->Some_0,
            max_def_level: (level(o) + level(m) + level(n) + level(e) + 3) as u32,
            max_rep_level: 3,
            outer_optional: o,
            middle_optional: m,
            inner_optional: n,
            item_optional: e,
        },
    }
}

/// A list of lists of lists of leaves is known for what it is.
#[verifier::rlimit(40)]
pub proof fn law_list_of_list_of_list_schema(
    md: FileMetaDataView,
    s: Seq<SchemaElementView>,
    i: int,
    r: Seq<char>,
)
    requires
        column_at(md, s, i, r),
        stores_list_of_list_of_list(s, i),
    ensures
        source_of(md, s[i].name) == Ok::<SourceView, PqErrorView>(
            SourceView::Shape(plan_of_list_of_list_of_list(s, i)),
        ),
{
    let p0 = seq![r];
    let p1 = p0.push(s[i].name);
    let p2 = p1.push(s[i + 1].name);
    let p3 = p2.push(s[i + 2].name);
    let p4 = p3.push(s[i + 3].name);
    let p5 = p4.push(s[i + 4].name);
    let p6 = p5.push(s[i + 5].name);
    let o = level(optional(s[i].repetition));
    let m = level(optional(s[i + 2].repetition));
    let n = level(optional(s[i + 4].repetition));
    let e = level(optional(s[i + 6].repetition));
    let leaf = leaf_node(s[i + 6], o + m + n + e + 3, 3, p6);
    let end = i + 7;
    lemma_leaf_at(s, i + 6, (o + m + n + 3) as u32, 3, p6);
    lemma_one_child(s, i + 5, (o + m + n + 2) as u32, 2, p5, (o + m + n + 3) as u32, 3, leaf, end);
    let n5 = group_node(s[i + 5], seq![leaf]);
    lemma_one_child(s, i + 4, (o + m + 2) as u32, 2, p4, (o + m + n + 2) as u32, 2, n5, end);
    let n4 = group_node(s[i + 4], seq![n5]);
    lemma_one_child(s, i + 3, (o + m + 1) as u32, 1, p3, (o + m + 2) as u32, 2, n4, end);
    let n3 = group_node(s[i + 3], seq![n4]);
    lemma_one_child(s, i + 2, (o + 1) as u32, 1, p2, (o + m + 1) as u32, 1, n3, end);
    let n2 = group_node(s[i + 2], seq![n3]);
    lemma_one_child(s, i + 1, o as u32, 0, p1, (o + 1) as u32, 1, n2, end);
    let n1 = group_node(s[i + 1], seq![n2]);
    lemma_one_child(s, i, 0, 0, p0, o as u32, 0, n1, end);
    let plan = plan_of_list_of_list_of_list(s, i);
    assert(p6.push(s[i + 6].name).skip(1) =~= plan.chunk_path);
    lemma_source(md, s, i, r, plan);
}

/// Whether the elements at `i` and `i + 1` are the key, which must be there, and the value of a map of
/// leaves.
pub open spec fn stores_entry(s: Seq<SchemaElementView>, i: int) -> bool {
    &&& readable(s[i], leaves_of(s))
    &&& s[i].repetition == Repetition::Required
    &&& readable(s[i + 1], leaves_of(s))
}

/// Whether a list of maps of leaves starts at `i`.
pub open spec fn stores_list_of_map(s: Seq<SchemaElementView>, i: int) -> bool {
    &&& wraps(s, i, LogicalType::List, 1)
    &&& wraps(s, i + 2, LogicalType::MapKv, 2)
    &&& s[i + 2].repetition == Repetition::Required
    &&& stores_entry(s, i + 4)
}

/// The plan of the list of maps at `i`: the first leaf is the key, the second the value.
pub open spec fn plan_of_list_of_map(s: Seq<SchemaElementView>, i: int) -> PlanView {
    let o = optional(s[i].repetition);
    let v = optional(s[i + 5].repetition);
    let key = seq![s[i].name, s[i + 1].name, s[i + 2].name, s[i + 3].name, s[i + 4].name];
    let value = seq![s[i].name, s[i + 1].name, s[i + 2].name, s[i + 3].name, s[i + 5].name];
    PlanView {
        chunk_path: value,
        kind: KindView::NestedListOfMap {
            outer_optional: o,
            key_spec: spec_at(s, i + 4),
            key_ptype: s[i + 4].ptype->Some_0,
            key_chunk_path: key,
            value_spec: spec_at(s, i + 5),
            value_ptype: s[i + 5].ptype->Some_0,
            value_chunk_path: value,
            max_def_level: (level(o) + level(v) + 2) as u32,
            value_optional: v,
        },
    }
}

/// A list of maps of leaves is known for what it is, and its keys and its values for what they are.
#[verifier::rlimit(40)]
pub proof fn law_list_of_map_schema(
    md: FileMetaDataView,
    s: Seq<SchemaElementView>,
    i: int,
    r: Seq<char>,
)
    requires
        column_at(md, s, i, r),
        stores_list_of_map(s, i),
    ensures
        source_of(md, s[i].name) == Ok::<SourceView, PqErrorView>(
            SourceView::Shape(plan_of_list_of_map(s, i)),
        ),
{
    let p0 = seq![r];
    let p1 = p0.push(s[i].name);
    let p2 = p1.push(s[i + 1].name);
    let p3 = p2.push(s[i + 2].name);
    let p4 = p3.push(s[i + 3].name);
    let o = level(optional(s[i].repetition));
    let v = level(optional(s[i + 5].repetition));
    let key = leaf_node(s[i + 4], o + 2, 2, p4);
    let value = leaf_node(s[i + 5], o + v + 2, 2, p4);
    let end = i + 6;
    lemma_leaf_at(s, i + 4, (o + 2) as u32, 2, p4);
    lemma_leaf_at(s, i + 5, (o + 2) as u32, 2, p4);
    lemma_two_children(s, i + 3, (o + 1) as u32, 1, p3, (o + 2) as u32, 2, key, value, end);
    let n3 = group_node(s[i + 3], seq![key, value]);
    lemma_one_child(s, i + 2, (o + 1) as u32, 1, p2, (o + 1) as u32, 1, n3, end);
    let n2 = group_node(s[i + 2], seq![n3]);
    lemma_one_child(s, i + 1, o as u32, 0, p1, (o + 1) as u32, 1, n2, end);
    let n1 = group_node(s[i + 1], seq![n2]);
    lemma_one_child(s, i, 0, 0, p0, o as u32, 0, n1, end);
    let plan = plan_of_list_of_map(s, i);
    assert(p4.push(s[i + 4].name).skip(1) =~= plan.kind->NestedListOfMap_key_chunk_path);
    assert(p4.push(s[i + 5].name).skip(1) =~= plan.chunk_path);
    lemma_source(md, s, i, r, plan);
}

/// Whether a map from a leaf to lists of leaves starts at `i`.
pub open spec fn stores_map_of_list(s: Seq<SchemaElementView>, i: int) -> bool {
    &&& wraps(s, i, LogicalType::MapKv, 2)
    &&& readable(s[i + 2], leaves_of(s))
    &&& s[i + 2].repetition == Repetition::Required
    &&& wraps(s, i + 3, LogicalType::List, 1)
    &&& s[i + 3].repetition == Repetition::Required
    &&& readable(s[i + 5], leaves_of(s))
}

/// The plan of the map to lists at `i`.
pub open spec fn plan_of_map_of_list(s: Seq<SchemaElementView>, i: int) -> PlanView {
    let o = optional(s[i].repetition);
    let e = optional(s[i + 5].repetition);
    let value = seq![s[i].name, s[i + 1].name, s[i + 3].name, s[i + 4].name, s[i + 5].name];
    PlanView {
        chunk_path: value,
        kind: KindView::NestedMapOfList {
            outer_optional: o,
            key_spec: spec_at(s, i + 2),
            key_ptype: s[i + 2].ptype->Some_0,
            key_chunk_path: seq![s[i].name, s[i + 1].name, s[i + 2].name],
            value_spec: spec_at(s, i + 5),
            value_ptype: s[i + 5].ptype->Some_0,
            value_chunk_path: value,
            max_def_level: (level(o) + level(e) + 2) as u32,
            value_item_optional: e,
        },
    }
}

/// A map from a leaf to lists of leaves is known for what it is.
pub proof fn law_map_of_list_schema(
    md: FileMetaDataView,
    s: Seq<SchemaElementView>,
    i: int,
    r: Seq<char>,
)
    requires
        column_at(md, s, i, r),
        stores_map_of_list(s, i),
    ensures
        source_of(md, s[i].name) == Ok::<SourceView, PqErrorView>(
            SourceView::Shape(plan_of_map_of_list(s, i)),
        ),
{
    let p0 = seq![r];
    let p1 = p0.push(s[i].name);
    let p2 = p1.push(s[i + 1].name);
    let p3 = p2.push(s[i + 3].name);
    let p4 = p3.push(s[i + 4].name);
    let o = level(optional(s[i].repetition));
    let e = level(optional(s[i + 5].repetition));
    let key = leaf_node(s[i + 2], o + 1, 1, p2);
    let leaf = leaf_node(s[i + 5], o + e + 2, 2, p4);
    let end = i + 6;
    lemma_leaf_at(s, i + 5, (o + 2) as u32, 2, p4);
    lemma_one_child(s, i + 4, (o + 1) as u32, 1, p3, (o + 2) as u32, 2, leaf, end);
    let n4 = group_node(s[i + 4], seq![leaf]);
    lemma_one_child(s, i + 3, (o + 1) as u32, 1, p2, (o + 1) as u32, 1, n4, end);
    let n3 = group_node(s[i + 3], seq![n4]);
    lemma_leaf_at(s, i + 2, (o + 1) as u32, 1, p2);
    lemma_two_children(s, i + 1, o as u32, 0, p1, (o + 1) as u32, 1, key, n3, end);
    let n1 = group_node(s[i + 1], seq![key, n3]);
    lemma_one_child(s, i, 0, 0, p0, o as u32, 0, n1, end);
    let plan = plan_of_map_of_list(s, i);
    assert(p2.push(s[i + 2].name).skip(1) =~= plan.kind->NestedMapOfList_key_chunk_path);
    assert(p4.push(s[i + 5].name).skip(1) =~= plan.chunk_path);
    lemma_source(md, s, i, r, plan);
}

/// Whether a map from a leaf to maps of leaves starts at `i`.
pub open spec fn stores_map_of_map(s: Seq<SchemaElementView>, i: int) -> bool {
    &&& wraps(s, i, LogicalType::MapKv, 2)
    &&& readable(s[i + 2], leaves_of(s))
    &&& s[i + 2].repetition == Repetition::Required
    &&& wraps(s, i + 3, LogicalType::MapKv, 2)
    &&& s[i + 3].repetition == Repetition::Required
    &&& stores_entry(s, i + 5)
}

/// The plan of the map to maps at `i`: of the inner leaves, the first is the key, the second the value.
pub open spec fn plan_of_map_of_map(s: Seq<SchemaElementView>, i: int) -> PlanView {
    let o = optional(s[i].repetition);
    let v = optional(s[i + 6].repetition);
    let value = seq![s[i].name, s[i + 1].name, s[i + 3].name, s[i + 4].name, s[i + 6].name];
    PlanView {
        chunk_path: value,
        kind: KindView::NestedMapOfMap {
            outer_optional: o,
            outer_key_spec: spec_at(s, i + 2),
            outer_key_ptype: s[i + 2].ptype->Some_0,
            outer_key_chunk_path: seq![s[i].name, s[i + 1].name, s[i + 2].name],
            inner_key_spec: spec_at(s, i + 5),
            inner_key_ptype: s[i + 5].ptype->Some_0,
            inner_key_chunk_path: seq![
                s[i].name,
                s[i + 1].name,
                s[i + 3].name,
                s[i + 4].name,
                s[i + 5].name,
            ],
            inner_value_spec: spec_at(s, i + 6),
            inner_value_ptype: s[i + 6].ptype->Some_0,
            inner_value_chunk_path: value,
            max_def_level: (level(o) + level(v) + 2) as u32,
            inner_value_optional: v,
        },
    }
}

/// A map from a leaf to maps of leaves is known for what it is, and its keys and its values for what
/// they are.
#[verifier::rlimit(40)]
pub proof fn law_map_of_map_schema(
    md: FileMetaDataView,
    s: Seq<SchemaElementView>,
    i: int,
    r: Seq<char>,
)
    requires
        column_at(md, s, i, r),
        stores_map_of_map(s, i),
    ensures
        source_of(md, s[i].name) == Ok::<SourceView, PqErrorView>(
            SourceView::Shape(plan_of_map_of_map(s, i)),
        ),
{
    let p0 = seq![r];
    let p1 = p0.push(s[i].name);
    let p2 = p1.push(s[i + 1].name);
    let p3 = p2.push(s[i + 3].name);
    let p4 = p3.push(s[i + 4].name);
    let o = level(optional(s[i].repetition));
    let v = level(optional(s[i + 6].repetition));
    let outer = leaf_node(s[i + 2], o + 1, 1, p2);
    let key = leaf_node(s[i + 5], o + 2, 2, p4);
    let value = leaf_node(s[i + 6], o + v + 2, 2, p4);
    let end = i + 7;
    lemma_leaf_at(s, i + 5, (o + 2) as u32, 2, p4);
    lemma_leaf_at(s, i + 6, (o + 2) as u32, 2, p4);
    lemma_two_children(s, i + 4, (o + 1) as u32, 1, p3, (o + 2) as u32, 2, key, value, end);
    let n4 = group_node(s[i + 4], seq![key, value]);
    lemma_one_child(s, i + 3, (o + 1) as u32, 1, p2, (o + 1) as u32, 1, n4, end);
    let n3 = group_node(s[i + 3], seq![n4]);
    lemma_leaf_at(s, i + 2, (o + 1) as u32, 1, p2);
    lemma_two_children(s, i + 1, o as u32, 0, p1, (o + 1) as u32, 1, outer, n3, end);
    let n1 = group_node(s[i + 1], seq![outer, n3]);
    lemma_one_child(s, i, 0, 0, p0, o as u32, 0, n1, end);
    let plan = plan_of_map_of_map(s, i);
    assert(p2.push(s[i + 2].name).skip(1) =~= plan.kind->outer_key_chunk_path);
    assert(p4.push(s[i + 5].name).skip(1) =~= plan.kind->inner_key_chunk_path);
    assert(p4.push(s[i + 6].name).skip(1) =~= plan.chunk_path);
    lemma_source(md, s, i, r, plan);
}

/// The fields that the `n` leaves from `i` on stand for, in a struct that is there at the level `def`
/// and to which `path` leads.
pub open spec fn fields_of_leaves(
    s: Seq<SchemaElementView>,
    i: int,
    n: nat,
    def: int,
    path: Seq<Seq<char>>,
) -> Seq<FieldView> {
    Seq::new(
        n,
        |f: int|
            FieldView {
                name: s[i + f].name,
                chunk_path: path.push(s[i + f].name),
                spec: spec_at(s, i + f),
                ptype: s[i + f].ptype->Some_0,
                max_def_level: (def + level(optional(s[i + f].repetition))) as u32,
                optional: optional(s[i + f].repetition),
                nested: None,
            },
    )
}

/// Whether the element at `i` is a struct of `n` leaves.
pub open spec fn stores_struct(s: Seq<SchemaElementView>, i: int, n: nat) -> bool {
    &&& 0 <= i
    &&& group_of(s[i], n as int)
    &&& single(s[i])
    &&& s[i].group_type() is None
    &&& readable_from(s, i + 1, n)
}

proof fn lemma_list_struct_fields(
    outer: Seq<char>,
    s: Seq<SchemaElementView>,
    i: int,
    n: nat,
    def: int,
    lvl: int,
    path: Seq<Seq<char>>,
    k: nat,
)
    requires
        k <= n,
        readable_from(s, i, n),
        path.len() > 0,
    ensures
        list_struct_fields(outer, leaf_nodes(s, i, n, def, lvl, path), k, leaves_of(s)) == Ok::<
            Seq<FieldView>,
            PqErrorView,
        >(fields_of_leaves(s, i, k, def, path.skip(1))),
        map_struct_fields(outer, leaf_nodes(s, i, n, def, lvl, path), k, leaves_of(s)) == Ok::<
            Seq<FieldView>,
            PqErrorView,
        >(fields_of_leaves(s, i, k, def, path.skip(1))),
    decreases k,
{
    let want = fields_of_leaves(s, i, k, def, path.skip(1));
    if k == 0 {
        assert(want =~= Seq::empty());
    } else {
        let m = (k - 1) as nat;
        lemma_list_struct_fields(outer, s, i, n, def, lvl, path, m);
        assert(readable(s[i + m], leaves_of(s)));
        assert(path.push(s[i + m].name).skip(1) =~= path.skip(1).push(s[i + m].name));
        assert(want =~= fields_of_leaves(s, i, m, def, path.skip(1)).push(want[m as int]));
    }
}

proof fn lemma_struct_fields(
    name: Seq<char>,
    o: bool,
    s: Seq<SchemaElementView>,
    i: int,
    n: nat,
    lvl: int,
    path: Seq<Seq<char>>,
    k: nat,
)
    requires
        k <= n,
        readable_from(s, i, n),
        path.len() > 0,
    ensures
        struct_fields(name, o, leaf_nodes(s, i, n, level(o), lvl, path), k, leaves_of(s)) == Ok::<
            Seq<FieldView>,
            PqErrorView,
        >(fields_of_leaves(s, i, k, level(o), path.skip(1))),
    decreases k,
{
    let want = fields_of_leaves(s, i, k, level(o), path.skip(1));
    let nodes = leaf_nodes(s, i, n, level(o), lvl, path);
    if k == 0 {
        assert(want =~= Seq::empty());
    } else {
        let m = (k - 1) as nat;
        lemma_struct_fields(name, o, s, i, n, lvl, path, m);
        assert(readable(s[i + m], leaves_of(s)));
        assert(nodes[m as int] is Leaf);
        assert(path.push(s[i + m].name).skip(1) =~= path.skip(1).push(s[i + m].name));
        assert(want =~= fields_of_leaves(s, i, m, level(o), path.skip(1)).push(want[m as int]));
        assert(struct_field(name, o, nodes[m as int], leaves_of(s)) == Ok::<
            FieldView,
            PqErrorView,
        >(want[m as int]));
        assert(k <= nodes.len());
    }
}

/// The plan of the struct of `n` leaves at `i`.
pub open spec fn plan_of_struct(s: Seq<SchemaElementView>, i: int, n: nat) -> PlanView {
    let o = optional(s[i].repetition);
    PlanView {
        chunk_path: seq![s[i].name, s[i + 1].name],
        kind: KindView::NestedStruct {
            outer_optional: o,
            fields: fields_of_leaves(s, i + 1, n, level(o), seq![s[i].name]),
        },
    }
}

/// A struct of leaves is known for what it is, and each of its fields for what it is.
pub proof fn law_struct_schema(
    md: FileMetaDataView,
    s: Seq<SchemaElementView>,
    i: int,
    n: nat,
    r: Seq<char>,
)
    requires
        column_at(md, s, i, r),
        stores_struct(s, i, n),
    ensures
        source_of(md, s[i].name) == Ok::<SourceView, PqErrorView>(
            SourceView::Shape(plan_of_struct(s, i, n)),
        ),
{
    let p0 = seq![r];
    let p1 = p0.push(s[i].name);
    let o = optional(s[i].repetition);
    lemma_leaf_children(s, i, n, 0, 0, p0);
    lemma_struct_fields(s[i].name, o, s, i + 1, n, 0, p1, n);
    assert(p1.skip(1) =~= seq![s[i].name]);
    let plan = plan_of_struct(s, i, n);
    assert(plan.kind->NestedStruct_fields[0].chunk_path =~= plan.chunk_path);
    lemma_source(md, s, i, r, plan);
}

/// Whether a list of structs of `n` leaves starts at `i`.
pub open spec fn stores_list_of_struct(s: Seq<SchemaElementView>, i: int, n: nat) -> bool {
    &&& wraps(s, i, LogicalType::List, 1)
    &&& stores_struct(s, i + 2, n)
    &&& s[i + 2].repetition == Repetition::Required
}

/// The plan of the list of structs at `i`.
pub open spec fn plan_of_list_of_struct(s: Seq<SchemaElementView>, i: int, n: nat) -> PlanView {
    let o = optional(s[i].repetition);
    let path = seq![s[i].name, s[i + 1].name, s[i + 2].name];
    PlanView {
        chunk_path: path.push(s[i + 3].name),
        kind: KindView::NestedListOfStruct {
            outer_optional: o,
            list_max_def_level: (level(o) + 1) as u32,
            fields: fields_of_leaves(s, i + 3, n, level(o) + 1, path),
        },
    }
}

/// A list of structs of leaves is known for what it is, and each of the fields for what it is.
pub proof fn law_list_of_struct_schema(
    md: FileMetaDataView,
    s: Seq<SchemaElementView>,
    i: int,
    n: nat,
    r: Seq<char>,
)
    requires
        column_at(md, s, i, r),
        stores_list_of_struct(s, i, n),
    ensures
        source_of(md, s[i].name) == Ok::<SourceView, PqErrorView>(
            SourceView::Shape(plan_of_list_of_struct(s, i, n)),
        ),
{
    let p0 = seq![r];
    let p1 = p0.push(s[i].name);
    let p2 = p1.push(s[i + 1].name);
    let p3 = p2.push(s[i + 2].name);
    let o = level(optional(s[i].repetition));
    lemma_leaf_children(s, i + 2, n, (o + 1) as u32, 1, p2);
    let nodes = leaf_nodes(s, i + 3, n, o + 1, 1, p3);
    let n2 = group_node(s[i + 2], nodes);
    let end = i + 3 + n;
    lemma_one_child(s, i + 1, o as u32, 0, p1, (o + 1) as u32, 1, n2, end);
    let n1 = group_node(s[i + 1], seq![n2]);
    lemma_one_child(s, i, 0, 0, p0, o as u32, 0, n1, end);
    lemma_list_struct_fields(s[i].name, s, i + 3, n, o + 1, 1, p3, n);
    let plan = plan_of_list_of_struct(s, i, n);
    assert(p3.skip(1) =~= seq![s[i].name, s[i + 1].name, s[i + 2].name]);
    lemma_source(md, s, i, r, plan);
}

/// Whether a map from a leaf to structs of `n` leaves starts at `i`.
pub open spec fn stores_map_of_struct(s: Seq<SchemaElementView>, i: int, n: nat) -> bool {
    &&& wraps(s, i, LogicalType::MapKv, 2)
    &&& readable(s[i + 2], leaves_of(s))
    &&& s[i + 2].repetition == Repetition::Required
    &&& stores_struct(s, i + 3, n)
    &&& s[i + 3].repetition == Repetition::Required
}

/// The plan of the map to structs at `i`.
pub open spec fn plan_of_map_of_struct(s: Seq<SchemaElementView>, i: int, n: nat) -> PlanView {
    let o = optional(s[i].repetition);
    let path = seq![s[i].name, s[i + 1].name, s[i + 3].name];
    PlanView {
        chunk_path: path.push(s[i + 4].name),
        kind: KindView::NestedMapOfStruct {
            outer_optional: o,
            key_spec: spec_at(s, i + 2),
            key_ptype: s[i + 2].ptype->Some_0,
            key_chunk_path: seq![s[i].name, s[i + 1].name, s[i + 2].name],
            map_max_def_level: (level(o) + 1) as u32,
            value_fields: fields_of_leaves(s, i + 4, n, level(o) + 1, path),
        },
    }
}

/// A map from a leaf to structs of leaves is known for what it is, and its key and each of the fields
/// for what they are.
pub proof fn law_map_of_struct_schema(
    md: FileMetaDataView,
    s: Seq<SchemaElementView>,
    i: int,
    n: nat,
    r: Seq<char>,
)
    requires
        column_at(md, s, i, r),
        stores_map_of_struct(s, i, n),
    ensures
        source_of(md, s[i].name) == Ok::<SourceView, PqErrorView>(
            SourceView::Shape(plan_of_map_of_struct(s, i, n)),
        ),
{
    let p0 = seq![r];
    let p1 = p0.push(s[i].name);
    let p2 = p1.push(s[i + 1].name);
    let p3 = p2.push(s[i + 3].name);
    let o = level(optional(s[i].repetition));
    let key = leaf_node(s[i + 2], o + 1, 1, p2);
    lemma_leaf_at(s, i + 2, (o + 1) as u32, 1, p2);
    lemma_leaf_children(s, i + 3, n, (o + 1) as u32, 1, p2);
    let nodes = leaf_nodes(s, i + 4, n, o + 1, 1, p3);
    let n3 = group_node(s[i + 3], nodes);
    let end = i + 4 + n;
    lemma_two_children(s, i + 1, o as u32, 0, p1, (o + 1) as u32, 1, key, n3, end);
    let n1 = group_node(s[i + 1], seq![key, n3]);
    lemma_one_child(s, i, 0, 0, p0, o as u32, 0, n1, end);
    lemma_list_struct_fields(s[i].name, s, i + 4, n, o + 1, 1, p3, n);
    let plan = plan_of_map_of_struct(s, i, n);
    assert(p2.push(s[i + 2].name).skip(1) =~= plan.kind->NestedMapOfStruct_key_chunk_path);
    assert(p3.skip(1) =~= seq![s[i].name, s[i + 1].name, s[i + 3].name]);
    lemma_source(md, s, i, r, plan);
}

} // verus!
