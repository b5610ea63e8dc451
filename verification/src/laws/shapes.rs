//! Stored schemas and the shapes they stand for: the levels are those that the shape asks for.
use vstd::prelude::*;

use crate::classify::{below_root, level, list_plan, map_plan, optional};
use crate::error::PqErrorView;
use crate::leaf::{find_leaf, plain_spec_of};
use crate::plan::{KindView, PlanView};
use crate::schema::{
    node_at, nodes_at, LogicalType, Repetition, SchemaElementView, SchemaLeafView, SchemaNodeView,
};

verus! {

/// Whether a schema element may be absent, or must be there.
pub open spec fn single(e: SchemaElementView) -> bool {
    e.repetition == Repetition::Required || e.repetition == Repetition::Optional
}

/// Whether a schema element is a group of `n` children.
pub open spec fn group_of(e: SchemaElementView, n: int) -> bool {
    !e.is_leaf() && e.num_children == n && n > 0
}

/// Whether a schema element is a leaf of a known type that does not repeat, and the leaves tell how
/// the first of its name is read.
pub open spec fn readable(e: SchemaElementView, leaves: Seq<SchemaLeafView>) -> bool {
    &&& e.is_leaf()
    &&& single(e)
    &&& !(e.ptype->Some_0 is Other)
    &&& find_leaf(leaves, e.name) matches Some(l) && plain_spec_of(l) is Ok
}

/// Whether the element at `i` starts a list of leaves as it is stored: a group for the list, a
/// repeated group, and the leaf.
pub open spec fn stores_list(
    s: Seq<SchemaElementView>,
    i: int,
    leaves: Seq<SchemaLeafView>,
) -> bool {
    &&& 0 <= i
    &&& i + 2 < s.len()
    &&& group_of(s[i], 1)
    &&& single(s[i])
    &&& s[i].group_type() == Some(LogicalType::List)
    &&& group_of(s[i + 1], 1)
    &&& s[i + 1].repetition == Repetition::Repeated
    &&& readable(s[i + 2], leaves)
}

/// A list of leaves that is stored as lists are is known for what it is: its leaf is found by its
/// path, has a level for each element that may be absent and one for the repetition, and is read as
/// its own element says.
pub proof fn law_list_schema(
    s: Seq<SchemaElementView>,
    i: int,
    path: Seq<Seq<char>>,
    leaves: Seq<SchemaLeafView>,
)
    requires
        stores_list(s, i, leaves),
    ensures
        ({
            let r = node_at(s, i, 0, 0, path);
            let node = r.0;
            let leaf = s[i + 2];
            let o = optional(s[i].repetition);
            let e = optional(leaf.repetition);
            &&& r.1 == i + 3
            &&& node is Group
            &&& node->Group_name == s[i].name
            &&& node->logical_type == Some(LogicalType::List)
            &&& list_plan(node->Group_name, node->Group_repetition, node->children, leaves) == Ok::<
                PlanView,
                PqErrorView,
            >(
                PlanView {
                    chunk_path: below_root(
                        path.push(s[i].name).push(s[i + 1].name).push(leaf.name),
                    ),
                    kind: KindView::NestedListPrimitive {
                        spec: plain_spec_of(find_leaf(leaves, leaf.name)->Some_0)->Ok_0,
                        ptype: leaf.ptype->Some_0,
                        max_def_level: (level(o) + 1 + level(e)) as u32,
                        max_rep_level: 1,
                        outer_optional: o,
                        element_optional: e,
                    },
                },
            )
        }),
{
    reveal_with_fuel(node_at, 4);
    reveal_with_fuel(nodes_at, 4);
    let p1 = path.push(s[i].name);
    let p2 = p1.push(s[i + 1].name);
    let o = optional(s[i].repetition);
    let d = level(o) as u32;
    let inner = (level(o) + 1) as u32;
    let leaf = node_at(s, i + 2, inner, 1, p2);
    assert(nodes_at(s, i + 2, 1, inner, 1, p2) == (
        Seq::<SchemaNodeView>::empty().push(leaf.0),
        i + 3,
    ));
    let middle = node_at(s, i + 1, d, 0, p1);
    assert(middle.1 == i + 3);
    assert(nodes_at(s, i + 1, 1, d, 0, p1) == (
        Seq::<SchemaNodeView>::empty().push(middle.0),
        i + 3,
    ));
}

/// Whether the element at `i` starts a map of leaves as it is stored: a group for the map, a repeated
/// group, and the leaves of the key, which must be there, and of the value.
pub open spec fn stores_map(s: Seq<SchemaElementView>, i: int, leaves: Seq<SchemaLeafView>) -> bool {
    &&& 0 <= i
    &&& i + 3 < s.len()
    &&& group_of(s[i], 1)
    &&& single(s[i])
    &&& s[i].group_type() == Some(LogicalType::MapKv)
    &&& group_of(s[i + 1], 2)
    &&& s[i + 1].repetition == Repetition::Repeated
    &&& readable(s[i + 2], leaves)
    &&& s[i + 2].repetition == Repetition::Required
    &&& readable(s[i + 3], leaves)
}

/// A map of leaves that is stored as maps are is known for what it is: the leaves of its keys and of
/// its values are found by their paths, have a level for each element that may be absent and one for
/// the repetition, and are read as their own elements say.
pub proof fn law_map_schema(
    s: Seq<SchemaElementView>,
    i: int,
    path: Seq<Seq<char>>,
    leaves: Seq<SchemaLeafView>,
)
    requires
        stores_map(s, i, leaves),
    ensures
        ({
            let r = node_at(s, i, 0, 0, path);
            let node = r.0;
            let key = s[i + 2];
            let value = s[i + 3];
            let o = optional(s[i].repetition);
            let v = optional(value.repetition);
            let below = path.push(s[i].name).push(s[i + 1].name);
            &&& r.1 == i + 4
            &&& node is Group
            &&& node->Group_name == s[i].name
            &&& node->logical_type == Some(LogicalType::MapKv)
            &&& map_plan(node->Group_name, node->Group_repetition, node->children, leaves) == Ok::<
                PlanView,
                PqErrorView,
            >(
                PlanView {
                    chunk_path: below_root(below.push(value.name)),
                    kind: KindView::NestedMapKV {
                        key_spec: plain_spec_of(find_leaf(leaves, key.name)->Some_0)->Ok_0,
                        value_spec: plain_spec_of(find_leaf(leaves, value.name)->Some_0)->Ok_0,
                        key_ptype: key.ptype->Some_0,
                        value_ptype: value.ptype->Some_0,
                        key_chunk_path: below_root(below.push(key.name)),
                        value_chunk_path: below_root(below.push(value.name)),
                        max_def_level: (level(o) + 1 + level(v)) as u32,
                        outer_optional: o,
                        value_optional: v,
                    },
                },
            )
        }),
{
    reveal_with_fuel(node_at, 4);
    reveal_with_fuel(nodes_at, 4);
    let p1 = path.push(s[i].name);
    let p2 = p1.push(s[i + 1].name);
    let o = optional(s[i].repetition);
    let d = level(o) as u32;
    let inner = (level(o) + 1) as u32;
    let key = node_at(s, i + 2, inner, 1, p2);
    let value = node_at(s, i + 3, inner, 1, p2);
    let one = Seq::<SchemaNodeView>::empty().push(key.0);
    assert(nodes_at(s, i + 2, 1, inner, 1, p2) == (one, i + 3));
    assert(nodes_at(s, i + 2, 2, inner, 1, p2) == (one.push(value.0), i + 4));
    let middle = node_at(s, i + 1, d, 0, p1);
    assert(middle.1 == i + 4);
    assert(nodes_at(s, i + 1, 1, d, 0, p1) == (
        Seq::<SchemaNodeView>::empty().push(middle.0),
        i + 4,
    ));
}

} // verus!
