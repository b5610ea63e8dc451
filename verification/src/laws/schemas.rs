//! The schema: a list of elements, and the tree it stands for.
use vstd::prelude::*;

use crate::schema::{
    child_count, def_below, leaves_of, lemma_node_bounds, lemma_nodes_bounds, lemma_used_up, node_at,
    nodes_at, rep_below, tree_of, Repetition, SchemaElementView, SchemaLeafView, SchemaNodeView, Type,
    LogicalType,
};

verus! {

/// A leaf's name, type and repetition.
pub type Summary = (Seq<char>, Type, Repetition);

/// The leaves of a list, in short.
pub open spec fn summaries(s: Seq<SchemaLeafView>) -> Seq<Summary> {
    s.map_values(|l: SchemaLeafView| (l.name, l.ptype, l.repetition))
}

/// The leaves of a tree from left to right, in short.
pub open spec fn tree_leaves(n: SchemaNodeView) -> Seq<Summary>
    decreases n, 0nat,
{
    match n {
        SchemaNodeView::Leaf { name, ptype, repetition, .. } => seq![(name, ptype, repetition)],
        SchemaNodeView::Group { children, .. } => trees_leaves(children, children.len()),
    }
}

/// The leaves of the first `k` trees, in short.
pub open spec fn trees_leaves(s: Seq<SchemaNodeView>, k: nat) -> Seq<Summary>
    decreases s, k,
{
    if k == 0 || k > s.len() {
        seq![]
    } else {
        trees_leaves(s, (k - 1) as nat) + tree_leaves(s[k - 1])
    }
}

proof fn lemma_leaves_concat(a: Seq<SchemaElementView>, b: Seq<SchemaElementView>)
    ensures
        leaves_of(a + b) == leaves_of(a) + leaves_of(b),
    decreases b.len(),
{
    if b.len() == 0 {
        assert(a + b =~= a);
        assert(leaves_of(a) + leaves_of(b) =~= leaves_of(a));
    } else {
        assert((a + b).drop_last() =~= a + b.drop_last());
        assert((a + b).last() == b.last());
        lemma_leaves_concat(a, b.drop_last());
        assert(leaves_of(a + b) =~= leaves_of(a) + leaves_of(b));
    }
}

proof fn lemma_leaves_add(a: Seq<SchemaElementView>, b: Seq<SchemaElementView>)
    ensures
        summaries(leaves_of(a + b)) == summaries(leaves_of(a)) + summaries(leaves_of(b)),
{
    lemma_leaves_concat(a, b);
    assert(summaries(leaves_of(a) + leaves_of(b)) =~= summaries(leaves_of(a)) + summaries(
        leaves_of(b),
    ));
}

proof fn lemma_one(s: Seq<SchemaElementView>, i: int)
    requires
        0 <= i < s.len(),
    ensures
        summaries(leaves_of(s.subrange(i, i + 1))) == if s[i].is_leaf() {
            seq![(s[i].name, s[i].ptype->Some_0, s[i].repetition)]
        } else {
            seq![]
        },
{
    let t = s.subrange(i, i + 1);
    assert(t.drop_last() =~= Seq::<SchemaElementView>::empty());
    assert(leaves_of(Seq::<SchemaElementView>::empty()) =~= Seq::<SchemaLeafView>::empty());
    if s[i].is_leaf() {
        assert(summaries(leaves_of(t)) =~= seq![
            (s[i].name, s[i].ptype->Some_0, s[i].repetition),
        ]);
    } else {
        assert(summaries(leaves_of(t)) =~= seq![]);
    }
}

proof fn lemma_trees_prefix(s: Seq<SchemaNodeView>, n: SchemaNodeView, k: nat)
    requires
        k <= s.len(),
    ensures
        trees_leaves(s.push(n), k) == trees_leaves(s, k),
    decreases k,
{
    if k > 0 {
        lemma_trees_prefix(s, n, (k - 1) as nat);
        assert(s.push(n)[k - 1] == s[k - 1]);
    }
}

proof fn lemma_node(
    s: Seq<SchemaElementView>,
    i: int,
    def: u32,
    lvl: u32,
    path: Seq<Seq<char>>,
)
    requires
        0 <= i < s.len(),
    ensures
        ({
            let (n, k) = node_at(s, i, def, lvl, path);
            tree_leaves(n) == summaries(leaves_of(s.subrange(i, k)))
        }),
    decreases s.len() - i, 0nat,
{
    let e = s[i];
    let (n, k) = node_at(s, i, def, lvl, path);
    lemma_node_bounds(s, i, def, lvl, path);
    lemma_one(s, i);
    if !e.is_leaf() {
        let d = def_below(def, e.repetition);
        let r = rep_below(lvl, e.repetition);
        lemma_nodes(s, i + 1, child_count(e), d, r, path.push(e.name));
        assert(s.subrange(i, k) =~= s.subrange(i, i + 1) + s.subrange(i + 1, k));
        lemma_leaves_add(s.subrange(i, i + 1), s.subrange(i + 1, k));
        assert(tree_leaves(n) =~= summaries(leaves_of(s.subrange(i, k))));
    }
}

proof fn lemma_nodes(
    s: Seq<SchemaElementView>,
    i: int,
    count: nat,
    def: u32,
    lvl: u32,
    path: Seq<Seq<char>>,
)
    requires
        0 <= i <= s.len(),
    ensures
        ({
            let (c, k) = nodes_at(s, i, count, def, lvl, path);
            trees_leaves(c, c.len()) == summaries(leaves_of(s.subrange(i, k)))
        }),
    decreases s.len() - i, 1 + count,
{
    if count == 0 || i >= s.len() {
        assert(s.subrange(i, i) =~= Seq::<SchemaElementView>::empty());
        assert(summaries(leaves_of(s.subrange(i, i))) =~= seq![]);
    } else {
        lemma_nodes(s, i, (count - 1) as nat, def, lvl, path);
        lemma_nodes_bounds(s, i, (count - 1) as nat, def, lvl, path);
        let (c, k) = nodes_at(s, i, (count - 1) as nat, def, lvl, path);
        if k < s.len() {
            lemma_node(s, k, def, lvl, path);
            lemma_node_bounds(s, k, def, lvl, path);
            let (n, k2) = node_at(s, k, def, lvl, path);
            lemma_trees_prefix(c, n, c.len());
            assert(s.subrange(i, k2) =~= s.subrange(i, k) + s.subrange(k, k2));
            lemma_leaves_add(s.subrange(i, k), s.subrange(k, k2));
        }
    }
}

/// The leaves of the tree, from left to right, are the leaf columns in the order of the list: none
/// is lost, and none is there twice, whatever numbers of children the elements say they have.
pub proof fn law_leaf_order(s: Seq<SchemaElementView>)
    ensures
        tree_leaves(tree_of(s)) == summaries(leaves_of(s)),
{
    let n = s.len() as int;
    if s.len() > 0 && !s[0].is_leaf() {
        let path = seq![s[0].name];
        lemma_nodes(s, 1, s.len(), 0, 0, path);
        lemma_nodes_bounds(s, 1, s.len(), 0, 0, path);
        lemma_one(s, 0);
        assert(s =~= s.subrange(0, 1) + s.subrange(1, n));
        lemma_leaves_add(s.subrange(0, 1), s.subrange(1, n));
        assert(tree_leaves(tree_of(s)) =~= summaries(leaves_of(s)));
    } else {
        lemma_nodes(s, 0, s.len(), 0, 0, seq![""@]);
        lemma_nodes_bounds(s, 0, s.len(), 0, 0, seq![""@]);
        assert(s.subrange(0, n) =~= s);
    }
}

/// An element is a leaf where it has a type and no children. A group is a list or a map where its
/// logical type says so, or else its older converted type: 3 is a list, and 1 is a map.
pub proof fn law_elements(e: SchemaElementView)
    ensures
        e.is_leaf() <==> e.ptype is Some && e.num_children <= 0,
        e.logical_group is Some ==> e.group_type() == e.logical_group,
        e.logical_group is None ==> (e.group_type() == Some(LogicalType::List) <==> e.converted_type
            == Some(3i32)),
        e.logical_group is None ==> (e.group_type() == Some(LogicalType::MapKv)
            <==> e.converted_type == Some(1i32)),
        e.is_leaf() ==> e.leaf().name == e.name && e.leaf().ptype == e.ptype->Some_0
            && e.leaf().repetition == e.repetition && e.leaf().type_length == e.type_length
            && e.leaf().converted_type == e.converted_type && e.leaf().scale == e.scale
            && e.leaf().precision == e.precision && e.leaf().logical_type_decimal
            == e.logical_decimal,
{
}

/// The numbers of the physical types and of the repetitions.
pub proof fn law_type_numbers(v: i32)
    ensures
        Type::of(v) == Type::Boolean <==> v == 0,
        Type::of(v) == Type::Int32 <==> v == 1,
        Type::of(v) == Type::Int64 <==> v == 2,
        Type::of(v) == Type::Int96 <==> v == 3,
        Type::of(v) == Type::Float <==> v == 4,
        Type::of(v) == Type::Double <==> v == 5,
        Type::of(v) == Type::ByteArray <==> v == 6,
        Type::of(v) == Type::FixedLenByteArray <==> v == 7,
        Repetition::of(v) == Repetition::Required <==> v == 0,
        Repetition::of(v) == Repetition::Optional <==> v == 1,
        Repetition::of(v) == Repetition::Repeated <==> v == 2,
{
}

/// Whether the numbers of children add up: a group comes first, it has as many children as it says,
/// and they take up the whole list.
pub open spec fn adds_up(s: Seq<SchemaElementView>) -> bool {
    &&& s.len() > 0
    &&& !s[0].is_leaf()
    &&& ({
        let (c, k) = nodes_at(s, 1, child_count(s[0]), 0, 0, seq![s[0].name]);
        c.len() == child_count(s[0]) && k == s.len()
    })
}

/// Where the numbers of children add up, the root has the children that it says it has.
pub proof fn law_root_children(s: Seq<SchemaElementView>)
    requires
        adds_up(s),
    ensures
        tree_of(s)->children == nodes_at(s, 1, child_count(s[0]), 0, 0, seq![s[0].name]).0,
        tree_of(s)->children.len() == child_count(s[0]),
{
    let path = seq![s[0].name];
    lemma_nodes_bounds(s, 1, child_count(s[0]), 0, 0, path);
    lemma_used_up(s, 1, child_count(s[0]), s.len(), 0, 0, path);
}

} // verus!
