//! The schema: its elements as they are stored, and the tree they stand for.
use vstd::prelude::*;

use crate::text::{copy_texts, texts};

verus! {

/// A physical type.
#[derive(Clone, Copy, Debug, PartialEq, Eq, Structural)]
pub enum Type {
    Boolean,
    Int32,
    Int64,
    Int96,
    Float,
    Double,
    ByteArray,
    FixedLenByteArray,
    Other(i32),
}

impl Type {
    /// The type with the given number.
    pub open spec fn of(v: i32) -> Type {
        if v == 0 {
            Type::Boolean
        } else if v == 1 {
            Type::Int32
        } else if v == 2 {
            Type::Int64
        } else if v == 3 {
            Type::Int96
        } else if v == 4 {
            Type::Float
        } else if v == 5 {
            Type::Double
        } else if v == 6 {
            Type::ByteArray
        } else if v == 7 {
            Type::FixedLenByteArray
        } else {
            Type::Other(v)
        }
    }

    /// The type with the given number.
    pub fn from_i32(v: i32) -> (r: Type)
        ensures
            r == Type::of(v),
    {
        match v {
            0 => Type::Boolean,
            1 => Type::Int32,
            2 => Type::Int64,
            3 => Type::Int96,
            4 => Type::Float,
            5 => Type::Double,
            6 => Type::ByteArray,
            7 => Type::FixedLenByteArray,
            o => Type::Other(o),
        }
    }
}

/// How often a field occurs in the group around it.
#[derive(Clone, Copy, Debug, PartialEq, Eq, Structural)]
pub enum Repetition {
    Required,
    Optional,
    Repeated,
    Other(i32),
}

impl Repetition {
    /// The repetition with the given number.
    pub open spec fn of(v: i32) -> Repetition {
        if v == 0 {
            Repetition::Required
        } else if v == 1 {
            Repetition::Optional
        } else if v == 2 {
            Repetition::Repeated
        } else {
            Repetition::Other(v)
        }
    }

    /// The repetition with the given number.
    pub fn from_i32(v: i32) -> (r: Repetition)
        ensures
            r == Repetition::of(v),
    {
        match v {
            0 => Repetition::Required,
            1 => Repetition::Optional,
            2 => Repetition::Repeated,
            o => Repetition::Other(o),
        }
    }
}

/// What a group stands for.
#[derive(Clone, Copy, Debug, PartialEq, Eq, Structural)]
pub enum LogicalType {
    List,
    MapKv,
}

/// A leaf column as the schema describes it.
#[derive(Clone, Debug)]
pub struct SchemaLeaf {
    pub name: String,
    pub ptype: Type,
    pub repetition: Repetition,
    pub type_length: Option<i32>,
    pub converted_type: Option<i32>,
    pub scale: Option<i32>,
    pub precision: Option<i32>,
    /// Scale and precision, where the logical type is a decimal.
    pub logical_type_decimal: Option<(i32, i32)>,
}

/// What a [`SchemaLeaf`] says.
pub struct SchemaLeafView {
    pub name: Seq<char>,
    pub ptype: Type,
    pub repetition: Repetition,
    pub type_length: Option<i32>,
    pub converted_type: Option<i32>,
    pub scale: Option<i32>,
    pub precision: Option<i32>,
    pub logical_type_decimal: Option<(i32, i32)>,
}

impl View for SchemaLeaf {
    type V = SchemaLeafView;

    open spec fn view(&self) -> SchemaLeafView {
        SchemaLeafView {
            name: self.name@,
            ptype: self.ptype,
            repetition: self.repetition,
            type_length: self.type_length,
            converted_type: self.converted_type,
            scale: self.scale,
            precision: self.precision,
            logical_type_decimal: self.logical_type_decimal,
        }
    }
}

/// What a list of leaves says.
pub open spec fn leaf_views(s: Seq<SchemaLeaf>) -> Seq<SchemaLeafView> {
    s.map_values(|l: SchemaLeaf| l@)
}

/// One element of the stored schema, which lists the tree in preorder.
#[derive(Clone, Debug)]
pub struct SchemaElement {
    pub name: String,
    /// The physical type; a group has none.
    pub ptype: Option<Type>,
    pub repetition: Repetition,
    pub num_children: i32,
    pub type_length: Option<i32>,
    pub converted_type: Option<i32>,
    pub scale: Option<i32>,
    pub precision: Option<i32>,
    /// The logical type, where it is a list or a map.
    pub logical_group: Option<LogicalType>,
    /// Scale and precision, where the logical type is a decimal.
    pub logical_decimal: Option<(i32, i32)>,
}

/// What a [`SchemaElement`] says.
pub struct SchemaElementView {
    pub name: Seq<char>,
    pub ptype: Option<Type>,
    pub repetition: Repetition,
    pub num_children: i32,
    pub type_length: Option<i32>,
    pub converted_type: Option<i32>,
    pub scale: Option<i32>,
    pub precision: Option<i32>,
    pub logical_group: Option<LogicalType>,
    pub logical_decimal: Option<(i32, i32)>,
}

impl View for SchemaElement {
    type V = SchemaElementView;

    open spec fn view(&self) -> SchemaElementView {
        SchemaElementView {
            name: self.name@,
            ptype: self.ptype,
            repetition: self.repetition,
            num_children: self.num_children,
            type_length: self.type_length,
            converted_type: self.converted_type,
            scale: self.scale,
            precision: self.precision,
            logical_group: self.logical_group,
            logical_decimal: self.logical_decimal,
        }
    }
}

/// What a list of schema elements says.
pub open spec fn element_views(s: Seq<SchemaElement>) -> Seq<SchemaElementView> {
    s.map_values(|e: SchemaElement| e@)
}

impl SchemaElementView {
    /// A leaf has a physical type and no children.
    pub open spec fn is_leaf(self) -> bool {
        self.num_children <= 0 && self.ptype is Some
    }

    /// The leaf column of a leaf element.
    pub open spec fn leaf(self) -> SchemaLeafView {
        SchemaLeafView {
            name: self.name,
            ptype: self.ptype->Some_0,
            repetition: self.repetition,
            type_length: self.type_length,
            converted_type: self.converted_type,
            scale: self.scale,
            precision: self.precision,
            logical_type_decimal: self.logical_decimal,
        }
    }

    /// What a group element stands for: its logical type where it has one, else what the older
    /// converted type says (3 is a list, 1 a map).
    pub open spec fn group_type(self) -> Option<LogicalType> {
        if self.logical_group is Some {
            self.logical_group
        } else if self.converted_type == Some(3i32) {
            Some(LogicalType::List)
        } else if self.converted_type == Some(1i32) {
            Some(LogicalType::MapKv)
        } else {
            None
        }
    }
}

/// The leaf columns among the elements, in order.
pub open spec fn leaves_of(s: Seq<SchemaElementView>) -> Seq<SchemaLeafView>
    decreases s.len(),
{
    if s.len() == 0 {
        Seq::empty()
    } else if s.last().is_leaf() {
        leaves_of(s.drop_last()).push(s.last().leaf())
    } else {
        leaves_of(s.drop_last())
    }
}

/// A node of the schema tree.
#[derive(Debug)]
pub enum SchemaNode {
    Group {
        name: String,
        repetition: Repetition,
        children: Vec<SchemaNode>,
        logical_type: Option<LogicalType>,
    },
    Leaf {
        name: String,
        ptype: Type,
        repetition: Repetition,
        /// How many of the fields on the way from the root, this one included, may be absent.
        max_def_level: u32,
        /// How many of the fields on the way from the root, this one included, may repeat.
        max_rep_level: u32,
        /// The names on the way from the root, the root's name first.
        path: Vec<String>,
    },
}

/// What a [`SchemaNode`] says.
pub enum SchemaNodeView {
    Group {
        name: Seq<char>,
        repetition: Repetition,
        children: Seq<SchemaNodeView>,
        logical_type: Option<LogicalType>,
    },
    Leaf {
        name: Seq<char>,
        ptype: Type,
        repetition: Repetition,
        max_def_level: u32,
        max_rep_level: u32,
        path: Seq<Seq<char>>,
    },
}

/// What a schema node says.
pub open spec fn node_view(n: SchemaNode) -> SchemaNodeView
    decreases n,
{
    match n {
        SchemaNode::Group { name, repetition, children, logical_type } => SchemaNodeView::Group {
            name: name@,
            repetition,
            children: Seq::new(
                children@.len(),
                |i: int|
                    if 0 <= i < children@.len() {
                        node_view(children@[i])
                    } else {
                        arbitrary()
                    },
            ),
            logical_type,
        },
        SchemaNode::Leaf { name, ptype, repetition, max_def_level, max_rep_level, path } =>
            SchemaNodeView::Leaf {
            name: name@,
            ptype,
            repetition,
            max_def_level,
            max_rep_level,
            path: texts(path@),
        },
    }
}

impl View for SchemaNode {
    type V = SchemaNodeView;

    open spec fn view(&self) -> SchemaNodeView {
        node_view(*self)
    }
}

/// What a list of nodes says.
pub open spec fn node_views(s: Seq<SchemaNode>) -> Seq<SchemaNodeView> {
    s.map_values(|n: SchemaNode| n@)
}

/// A group's view holds the views of its children.
pub proof fn lemma_group_view(n: SchemaNode)
    ensures
        n matches SchemaNode::Group { name, repetition, children, logical_type }
            ==> n@ == (SchemaNodeView::Group {
            name: name@,
            repetition,
            children: node_views(children@),
            logical_type,
        }),
{
    if let SchemaNode::Group { name, repetition, children, logical_type } = n {
        let c = n@->Group_children;
        assert forall|i: int| 0 <= i < children@.len() implies c[i] == (#[trigger] children@[i])@ by {}
        assert(c =~= node_views(children@));
    }
}

fn clone_nodes(v: &Vec<SchemaNode>) -> (r: Vec<SchemaNode>)
    ensures
        node_views(r@) == node_views(v@),
    decreases v,
{
    let mut out: Vec<SchemaNode> = Vec::new();
    let mut i: usize = 0;
    while i < v.len()
        invariant
            i <= v@.len(),
            out@.len() == i,
            forall|j: int| 0 <= j < i ==> (#[trigger] out@[j])@ == v@[j]@,
        decreases v@.len() - i,
    {
        proof {
            assert(decreases_to!(*v => v@[i as int]));
        }
        out.push(clone_node(&v[i]));
        i += 1;
    }
    assert(node_views(out@) =~= node_views(v@));
    out
}

fn clone_node(n: &SchemaNode) -> (r: SchemaNode)
    ensures
        r@ == n@,
    decreases n,
{
    match n {
        SchemaNode::Group { name, repetition, children, logical_type } => {
            let r = SchemaNode::Group {
                name: name.clone(),
                repetition: *repetition,
                children: clone_nodes(children),
                logical_type: *logical_type,
            };
            proof {
                lemma_group_view(r);
                lemma_group_view(*n);
            }
            r
        },
        SchemaNode::Leaf { name, ptype, repetition, max_def_level, max_rep_level, path } =>
            SchemaNode::Leaf {
            name: name.clone(),
            ptype: *ptype,
            repetition: *repetition,
            max_def_level: *max_def_level,
            max_rep_level: *max_rep_level,
            path: copy_texts(path),
        },
    }
}

impl Clone for SchemaNode {
    fn clone(&self) -> (r: SchemaNode)
        ensures
            r@ == self@,
    {
        clone_node(self)
    }
}

/// The schema as a tree.
#[derive(Clone, Debug)]
pub struct SchemaTree {
    pub root: SchemaNode,
}

/// The definition level below a field of repetition `rep` in a group of level `def`.
pub open spec fn def_below(def: u32, rep: Repetition) -> u32 {
    if (rep is Optional || rep is Repeated) && def < u32::MAX {
        (def + 1) as u32
    } else {
        def
    }
}

/// The repetition level below a field of repetition `rep` in a group of level `lvl`.
pub open spec fn rep_below(lvl: u32, rep: Repetition) -> u32 {
    if rep is Repeated && lvl < u32::MAX {
        (lvl + 1) as u32
    } else {
        lvl
    }
}

/// The tree of the element at index `i`, below a group with the given levels and path, and the
/// index behind its last element.
pub open spec fn node_at(
    s: Seq<SchemaElementView>,
    i: int,
    def: u32,
    lvl: u32,
    path: Seq<Seq<char>>,
) -> (SchemaNodeView, int)
    recommends
        0 <= i < s.len(),
    decreases s.len() - i, 0int,
    when i < s.len()
{
    let e = s[i];
    if e.is_leaf() {
        (
            SchemaNodeView::Leaf {
                name: e.name,
                ptype: e.ptype->Some_0,
                repetition: e.repetition,
                max_def_level: def_below(def, e.repetition),
                max_rep_level: rep_below(lvl, e.repetition),
                path: path.push(e.name),
            },
            i + 1,
        )
    } else {
        let (c, k) = nodes_at(
            s,
            i + 1,
            child_count(e),
            def_below(def, e.repetition),
            rep_below(lvl, e.repetition),
            path.push(e.name),
        );
        (
            SchemaNodeView::Group {
                name: e.name,
                repetition: e.repetition,
                children: c,
                logical_type: e.group_type(),
            },
            k,
        )
    }
}

/// The trees of `count` siblings from index `i` on, or of as many as there are, and the index behind
/// the last of them.
pub open spec fn nodes_at(
    s: Seq<SchemaElementView>,
    i: int,
    count: nat,
    def: u32,
    lvl: u32,
    path: Seq<Seq<char>>,
) -> (Seq<SchemaNodeView>, int)
    decreases s.len() - i, 1int + count,
{
    if count == 0 || i >= s.len() {
        (Seq::empty(), i)
    } else {
        let (c, k) = nodes_at(s, i, (count - 1) as nat, def, lvl, path);
        if i <= k < s.len() {
            let (n, k2) = node_at(s, k, def, lvl, path);
            (c.push(n), k2)
        } else {
            (c, k)
        }
    }
}

/// How many children an element says it has.
pub open spec fn child_count(e: SchemaElementView) -> nat {
    if e.num_children > 0 {
        e.num_children as nat
    } else {
        0
    }
}

/// The tree of a stored schema. A group that comes first is the root, and all that is not below
/// another group is below it, whatever number of children it says it has; levels are counted from
/// below the root. Where no group comes first, the root has no name.
pub open spec fn tree_of(s: Seq<SchemaElementView>) -> SchemaNodeView {
    if s.len() > 0 && !s[0].is_leaf() {
        SchemaNodeView::Group {
            name: s[0].name,
            repetition: s[0].repetition,
            children: nodes_at(s, 1, s.len(), 0, 0, seq![s[0].name]).0,
            logical_type: s[0].group_type(),
        }
    } else {
        SchemaNodeView::Group {
            name: ""@,
            repetition: Repetition::Required,
            children: nodes_at(s, 0, s.len(), 0, 0, seq![""@]).0,
            logical_type: None,
        }
    }
}

/// Whether every column is a leaf right below the root.
pub open spec fn is_flat(root: SchemaNodeView) -> bool {
    match root {
        SchemaNodeView::Leaf { .. } => true,
        SchemaNodeView::Group { children, .. } => forall|i: int|
            0 <= i < children.len() ==> (#[trigger] children[i]) is Leaf,
    }
}

fn leaf_of(e: &SchemaElement) -> (r: Option<SchemaLeaf>)
    ensures
        match r {
            Some(l) => e@.is_leaf() && l@ == e@.leaf(),
            None => !e@.is_leaf(),
        },
{
    if e.num_children > 0 {
        return None;
    }
    match e.ptype {
        None => None,
        Some(ptype) => Some(
            SchemaLeaf {
                name: e.name.clone(),
                ptype,
                repetition: e.repetition,
                type_length: e.type_length,
                converted_type: e.converted_type,
                scale: e.scale,
                precision: e.precision,
                logical_type_decimal: e.logical_decimal,
            },
        ),
    }
}

/// The leaf columns among the elements, in order.
pub fn collect_leaves(s: &Vec<SchemaElement>) -> (r: Vec<SchemaLeaf>)
    ensures
        leaf_views(r@) == leaves_of(element_views(s@)),
{
    let mut out: Vec<SchemaLeaf> = Vec::new();
    let mut i: usize = 0;
    assert(element_views(s@).take(0) =~= Seq::<SchemaElementView>::empty());
    assert(leaf_views(out@) =~= Seq::<SchemaLeafView>::empty());
    while i < s.len()
        invariant
            i <= s@.len(),
            leaf_views(out@) == leaves_of(element_views(s@).take(i as int)),
        decreases s@.len() - i,
    {
        let ghost before = out@;
        proof {
            let v = element_views(s@);
            assert(v.take(i + 1).drop_last() =~= v.take(i as int));
            assert(v.take(i + 1).last() == s@[i as int]@);
        }
        match leaf_of(&s[i]) {
            Some(l) => {
                out.push(l);
                assert(leaf_views(out@) =~= leaf_views(before).push(l@));
            },
            None => {},
        }
        i += 1;
    }
    assert(element_views(s@).take(i as int) =~= element_views(s@));
    out
}

fn recognize_logical_type(e: &SchemaElement) -> (r: Option<LogicalType>)
    ensures
        r == e@.group_type(),
{
    match e.logical_group {
        Some(l) => Some(l),
        None => match e.converted_type {
            Some(3) => Some(LogicalType::List),
            Some(1) => Some(LogicalType::MapKv),
            _ => None,
        },
    }
}

/// A subtree ends behind its first element and within the list.
pub proof fn lemma_node_bounds(
    s: Seq<SchemaElementView>,
    i: int,
    def: u32,
    lvl: u32,
    path: Seq<Seq<char>>,
)
    requires
        0 <= i < s.len(),
    ensures
        i < node_at(s, i, def, lvl, path).1 <= s.len(),
    decreases s.len() - i, 0int,
{
    let e = s[i];
    if !e.is_leaf() {
        lemma_nodes_bounds(
            s,
            i + 1,
            child_count(e),
            def_below(def, e.repetition),
            rep_below(lvl, e.repetition),
            path.push(e.name),
        );
    }
}

/// Siblings end within the list, and each of them takes an element at least.
pub proof fn lemma_nodes_bounds(
    s: Seq<SchemaElementView>,
    i: int,
    count: nat,
    def: u32,
    lvl: u32,
    path: Seq<Seq<char>>,
)
    requires
        0 <= i <= s.len(),
    ensures
        ({
            let (c, k) = nodes_at(s, i, count, def, lvl, path);
            &&& i + c.len() <= k <= s.len()
            &&& c.len() <= count
            &&& k < s.len() ==> c.len() == count
        }),
    decreases s.len() - i, 1int + count,
{
    if count > 0 && i < s.len() {
        lemma_nodes_bounds(s, i, (count - 1) as nat, def, lvl, path);
        let k = nodes_at(s, i, (count - 1) as nat, def, lvl, path).1;
        if k < s.len() {
            lemma_node_bounds(s, k, def, lvl, path);
        }
    }
}

/// Where the list is used up, there are no more siblings.
pub proof fn lemma_used_up(
    s: Seq<SchemaElementView>,
    i: int,
    few: nat,
    count: nat,
    def: u32,
    lvl: u32,
    path: Seq<Seq<char>>,
)
    requires
        few <= count,
        nodes_at(s, i, few, def, lvl, path).1 >= s.len(),
    ensures
        nodes_at(s, i, count, def, lvl, path) == nodes_at(s, i, few, def, lvl, path),
    decreases count - few,
{
    if few < count {
        lemma_used_up(s, i, few, (count - 1) as nat, def, lvl, path);
    }
}

/// A group whose children are still being collected, from the element at `start` on.
struct Open {
    name: String,
    repetition: Repetition,
    logical_type: Option<LogicalType>,
    count: usize,
    children: Vec<SchemaNode>,
    def: u32,
    lvl: u32,
    start: Ghost<int>,
}

impl Open {
    /// The children so far are the first ones, and the next one stands at `next`.
    spec fn collects(self, s: Seq<SchemaElementView>, path: Seq<Seq<char>>, next: int) -> bool {
        &&& 0 <= self.start@ <= next <= s.len()
        &&& self.children@.len() <= self.count
        &&& nodes_at(s, self.start@, self.children@.len(), self.def, self.lvl, path) == (
            node_views(self.children@),
            next,
        )
    }

    /// The group stands at the element before its first child, and is the next child of `outer`.
    spec fn stands_in(self, s: Seq<SchemaElementView>, outer: Open, name: Seq<char>) -> bool {
        let e = s[self.start@ - 1];
        &&& 1 <= self.start@ <= s.len()
        &&& !e.is_leaf()
        &&& self.name@ == e.name
        &&& name == e.name
        &&& self.repetition == e.repetition
        &&& self.logical_type == e.group_type()
        &&& self.count == child_count(e)
        &&& self.def == def_below(outer.def, e.repetition)
        &&& self.lvl == rep_below(outer.lvl, e.repetition)
        &&& outer.children@.len() < outer.count
    }

    /// The same group, with any children.
    spec fn same_group(self, f: Open) -> bool {
        self == Open { children: self.children, ..f }
    }
}

/// Where the next child of the group at `j` stands, where the next element to be read is at `i`.
spec fn next_child(open: Seq<Open>, j: int, i: int) -> int {
    if j + 1 < open.len() {
        open[j + 1].start@ - 1
    } else {
        i
    }
}

/// Whether the groups are those open at the element at `i`, the root first; `path` holds their names.
spec fn opened(s: Seq<SchemaElementView>, open: Seq<Open>, path: Seq<Seq<char>>, i: int) -> bool {
    &&& open.len() == path.len() >= 1
    &&& forall|j: int|
        0 <= j < open.len() ==> #[trigger] open[j].collects(
            s,
            path.take(j + 1),
            next_child(open, j, i),
        )
    &&& forall|j: int|
        1 <= j < open.len() ==> #[trigger] open[j].stands_in(s, open[j - 1], path[j])
}

fn children_of(e: &SchemaElement) -> (r: usize)
    ensures
        r == child_count(e@),
{
    if e.num_children > 0 {
        e.num_children as usize
    } else {
        0
    }
}

fn def_under(def: u32, rep: Repetition) -> (r: u32)
    ensures
        r == def_below(def, rep),
{
    match rep {
        Repetition::Optional => def.saturating_add(1),
        Repetition::Repeated => def.saturating_add(1),
        _ => def,
    }
}

fn rep_under(lvl: u32, rep: Repetition) -> (r: u32)
    ensures
        r == rep_below(lvl, rep),
{
    match rep {
        Repetition::Repeated => lvl.saturating_add(1),
        _ => lvl,
    }
}

/// Adds the next child to the group that was opened last.
fn add_child(
    open: &mut Vec<Open>,
    n: SchemaNode,
    Ghost(s): Ghost<Seq<SchemaElementView>>,
    Ghost(path): Ghost<Seq<Seq<char>>>,
    Ghost(i): Ghost<int>,
)
    requires
        opened(s, old(open)@, path, i),
        i < s.len(),
        old(open)@.last().children@.len() < old(open)@.last().count,
        n@ == node_at(s, i, old(open)@.last().def, old(open)@.last().lvl, path).0,
    ensures
        opened(
            s,
            final(open)@,
            path,
            node_at(s, i, old(open)@.last().def, old(open)@.last().lvl, path).1,
        ),
        final(open)@.len() == old(open)@.len(),
        final(open)@[0].same_group(old(open)@[0]),
{
    let ghost before = open@;
    let ghost m = open@.len() - 1;
    match open.pop() {
        None => {},
        Some(top) => {
            let mut top = top;
            let ghost few = top.children@;
            top.children.push(n);
            proof {
                assert(before[m].collects(s, path.take(m + 1), next_child(before, m, i)));
                assert(path.take(m + 1) =~= path);
                lemma_node_bounds(s, i, top.def, top.lvl, path);
                assert(node_views(top.children@) =~= node_views(few).push(n@));
            }
            open.push(top);
            proof {
                let k = node_at(s, i, top.def, top.lvl, path).1;
                assert forall|j: int| 0 <= j < open@.len() implies #[trigger] open@[j].collects(
                    s,
                    path.take(j + 1),
                    next_child(open@, j, k),
                ) by {
                    if j < m {
                        assert(before[j].collects(s, path.take(j + 1), next_child(before, j, i)));
                    }
                }
                assert forall|j: int| 1 <= j < open@.len() implies #[trigger] open@[j].stands_in(
                    s,
                    open@[j - 1],
                    path[j],
                ) by {
                    assert(before[j].stands_in(s, before[j - 1], path[j]));
                }
            }
        },
    }
}

/// Closes the group that was opened last, which has all its children.
fn close_group(
    open: &mut Vec<Open>,
    path: &mut Vec<String>,
    Ghost(s): Ghost<Seq<SchemaElementView>>,
    Ghost(i): Ghost<int>,
)
    requires
        opened(s, old(open)@, texts(old(path)@), i),
        old(open)@.len() > 1,
        i == s.len() || old(open)@.last().children@.len() == old(open)@.last().count,
    ensures
        opened(s, final(open)@, texts(final(path)@), i),
        final(open)@.len() == old(open)@.len() - 1,
        final(open)@[0].same_group(old(open)@[0]),
        texts(final(path)@)[0] == texts(old(path)@)[0],
{
    let ghost before = open@;
    let ghost names = texts(path@);
    let ghost m = open@.len() - 1;
    let _name = path.pop();
    match open.pop() {
        None => {},
        Some(top) => {
            let ghost g = top.start@ - 1;
            let ghost outer = before[m - 1];
            let ghost rest = texts(path@);
            proof {
                assert(names.take(m + 1) =~= names);
                assert(before[m].collects(s, names.take(m + 1), next_child(before, m, i)));
                assert(before[m].stands_in(s, outer, names[m]));
                assert(rest =~= names.take(m));
                assert(names =~= rest.push(s[g].name));
                if i == s.len() {
                    lemma_used_up(
                        s,
                        top.start@,
                        top.children@.len(),
                        top.count as nat,
                        top.def,
                        top.lvl,
                        names,
                    );
                }
                assert forall|j: int| 0 <= j < open@.len() implies #[trigger] open@[j].collects(
                    s,
                    rest.take(j + 1),
                    next_child(open@, j, g),
                ) by {
                    assert(before[j].collects(s, names.take(j + 1), next_child(before, j, i)));
                    assert(rest.take(j + 1) =~= names.take(j + 1));
                }
                assert forall|j: int| 1 <= j < open@.len() implies #[trigger] open@[j].stands_in(
                    s,
                    open@[j - 1],
                    rest[j],
                ) by {
                    assert(before[j].stands_in(s, before[j - 1], names[j]));
                }
            }
            let n = SchemaNode::Group {
                name: top.name,
                repetition: top.repetition,
                children: top.children,
                logical_type: top.logical_type,
            };
            proof {
                lemma_group_view(n);
            }
            add_child(open, n, Ghost(s), Ghost(rest), Ghost(g));
        },
    }
}

/// The tree of a stored schema. However deep it is nested, the call stack does not grow with it.
pub fn build_tree(s: &Vec<SchemaElement>) -> (r: SchemaTree)
    ensures
        r.root@ == tree_of(element_views(s@)),
{
    let ghost v = element_views(s@);
    let mut root = Open {
        name: "".to_owned(),
        repetition: Repetition::Required,
        logical_type: None,
        count: s.len(),
        children: Vec::new(),
        def: 0,
        lvl: 0,
        start: Ghost(0),
    };
    let mut i: usize = 0;
    if s.len() > 0 {
        assert(v[0] == s@[0]@);
        if leaf_of(&s[0]).is_none() {
            root.name = s[0].name.clone();
            root.repetition = s[0].repetition;
            root.logical_type = recognize_logical_type(&s[0]);
            root.start = Ghost(1);
            i = 1;
        }
    }
    let ghost first = root;
    let mut path: Vec<String> = Vec::new();
    path.push(root.name.clone());
    let mut open: Vec<Open> = Vec::new();
    open.push(root);
    proof {
        assert(texts(path@) =~= seq![first.name@]);
        assert(texts(path@).take(1) =~= texts(path@));
        assert(node_views(first.children@) =~= Seq::<SchemaNodeView>::empty());
    }
    while i < s.len() || open.len() > 1
        invariant
            v == element_views(s@),
            i <= s@.len(),
            opened(v, open@, texts(path@), i as int),
            open@[0].same_group(first),
            first.count == s@.len(),
            texts(path@)[0] == first.name@,
        decreases s@.len() - i, open@.len(),
    {
        let ghost before = open@;
        let ghost names = texts(path@);
        let m: usize = open.len() - 1;
        assert(open@[m as int].collects(
            v,
            names.take(m + 1),
            next_child(open@, m as int, i as int),
        ));
        assert(names.take(m + 1) =~= names);
        if m > 0 && (i == s.len() || open[m].children.len() >= open[m].count) {
            close_group(&mut open, &mut path, Ghost(v), Ghost(i as int));
            continue;
        }
        let e = &s[i];
        assert(v[i as int] == e@);
        proof {
            let top = open@[m as int];
            lemma_nodes_bounds(v, top.start@, top.children@.len(), top.def, top.lvl, names);
        }
        let def: u32 = def_under(open[m].def, e.repetition);
        let lvl: u32 = rep_under(open[m].lvl, e.repetition);
        match leaf_of(e) {
            Some(l) => {
                let mut here = copy_texts(&path);
                here.push(e.name.clone());
                assert(texts(here@) =~= names.push(e.name@));
                let n = SchemaNode::Leaf {
                    name: l.name,
                    ptype: l.ptype,
                    repetition: l.repetition,
                    max_def_level: def,
                    max_rep_level: lvl,
                    path: here,
                };
                add_child(&mut open, n, Ghost(v), Ghost(names), Ghost(i as int));
            },
            None => {
                let g = Open {
                    name: e.name.clone(),
                    repetition: e.repetition,
                    logical_type: recognize_logical_type(e),
                    count: children_of(e),
                    children: Vec::new(),
                    def,
                    lvl,
                    start: Ghost(i + 1),
                };
                path.push(e.name.clone());
                open.push(g);
                proof {
                    let longer = texts(path@);
                    assert(longer =~= names.push(e.name@));
                    assert(node_views(g.children@) =~= Seq::<SchemaNodeView>::empty());
                    assert forall|j: int| 0 <= j < open@.len() implies #[trigger] open@[j].collects(
                        v,
                        longer.take(j + 1),
                        next_child(open@, j, i + 1),
                    ) by {
                        if j <= m {
                            assert(before[j].collects(
                                v,
                                names.take(j + 1),
                                next_child(before, j, i as int),
                            ));
                            assert(longer.take(j + 1) =~= names.take(j + 1));
                        }
                    }
                    assert forall|j: int| 1 <= j < open@.len() implies #[trigger] open@[j].stands_in(
                        v,
                        open@[j - 1],
                        longer[j],
                    ) by {
                        if j <= m {
                            assert(before[j].stands_in(v, before[j - 1], names[j]));
                        }
                    }
                }
            },
        }
        i += 1;
    }
    proof {
        assert(texts(path@) =~= seq![first.name@]);
        assert(open@[0].collects(v, texts(path@).take(1), next_child(open@, 0, i as int)));
        assert(texts(path@).take(1) =~= texts(path@));
        let c = open@[0].children@.len();
        lemma_nodes_bounds(v, first.start@, c, 0, 0, texts(path@));
        lemma_used_up(v, first.start@, c, v.len(), 0, 0, texts(path@));
    }
    let root = open.remove(0);
    let n = SchemaNode::Group {
        name: root.name,
        repetition: root.repetition,
        children: root.children,
        logical_type: root.logical_type,
    };
    proof {
        lemma_group_view(n);
    }
    SchemaTree { root: n }
}

/// Whether every column is a leaf right below the root.
pub fn flat(root: &SchemaNode) -> (r: bool)
    ensures
        r == is_flat(root@),
{
    proof {
        lemma_group_view(*root);
    }
    match root {
        SchemaNode::Leaf { .. } => true,
        SchemaNode::Group { children, .. } => {
            let mut i: usize = 0;
            while i < children.len()
                invariant
                    i <= children@.len(),
                    root@ is Group,
                    root@->Group_children == node_views(children@),
                    forall|j: int| 0 <= j < i ==> (#[trigger] node_views(children@)[j]) is Leaf,
                decreases children@.len() - i,
            {
                assert(node_views(children@)[i as int] == children@[i as int]@);
                match &children[i] {
                    SchemaNode::Leaf { .. } => {},
                    SchemaNode::Group { .. } => {
                        assert(!(node_views(children@)[i as int] is Leaf));
                        return false;
                    },
                }
                i += 1;
            }
            true
        },
    }
}

} // verus!
