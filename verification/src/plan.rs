//! How a wanted column is to be decoded: which chunks hold it, and into what shape their values are
//! put together.
use vstd::prelude::*;

use crate::plain::PlainSpec;
use crate::schema::Type;
use crate::text::texts;

verus! {

/// The shape of a column.
pub enum ColumnKind {
    /// A single leaf.
    Flat { spec: PlainSpec, ptype: Type, max_def_level: u32 },
    /// A list of leaves.
    NestedListPrimitive {
        spec: PlainSpec,
        ptype: Type,
        max_def_level: u32,
        max_rep_level: u32,
        outer_optional: bool,
        element_optional: bool,
    },
    /// A map from a leaf to a leaf. `max_def_level` is that of the value.
    NestedMapKV {
        key_spec: PlainSpec,
        value_spec: PlainSpec,
        key_ptype: Type,
        value_ptype: Type,
        key_chunk_path: Vec<String>,
        value_chunk_path: Vec<String>,
        max_def_level: u32,
        outer_optional: bool,
        value_optional: bool,
    },
    /// A struct of fields of any supported shape.
    NestedStruct { outer_optional: bool, fields: Vec<StructField> },
    /// A list of lists of leaves.
    NestedListOfListPrimitive {
        spec: PlainSpec,
        ptype: Type,
        max_def_level: u32,
        max_rep_level: u32,
        outer_optional: bool,
        inner_optional: bool,
        item_optional: bool,
    },
    /// A list of structs of leaves. `list_max_def_level` is the level at which an element is there.
    NestedListOfStruct {
        outer_optional: bool,
        list_max_def_level: u32,
        fields: Vec<StructField>,
    },
    /// A map from a leaf to a struct of leaves. `map_max_def_level` is the level at which an entry
    /// is there.
    NestedMapOfStruct {
        outer_optional: bool,
        key_spec: PlainSpec,
        key_ptype: Type,
        key_chunk_path: Vec<String>,
        map_max_def_level: u32,
        value_fields: Vec<StructField>,
    },
    /// A map from a leaf to a list of leaves. `max_def_level` is that of the list's leaf.
    NestedMapOfList {
        outer_optional: bool,
        key_spec: PlainSpec,
        key_ptype: Type,
        key_chunk_path: Vec<String>,
        value_spec: PlainSpec,
        value_ptype: Type,
        value_chunk_path: Vec<String>,
        max_def_level: u32,
        value_item_optional: bool,
    },
    /// A list of lists of lists of leaves.
    NestedListOfListOfListPrimitive {
        spec: PlainSpec,
        ptype: Type,
        max_def_level: u32,
        max_rep_level: u32,
        outer_optional: bool,
        middle_optional: bool,
        inner_optional: bool,
        item_optional: bool,
    },
    /// A list of maps from a leaf to a leaf. `max_def_level` is that of the value.
    NestedListOfMap {
        outer_optional: bool,
        key_spec: PlainSpec,
        key_ptype: Type,
        key_chunk_path: Vec<String>,
        value_spec: PlainSpec,
        value_ptype: Type,
        value_chunk_path: Vec<String>,
        max_def_level: u32,
        value_optional: bool,
    },
    /// A map from a leaf to a map from a leaf to a leaf. `max_def_level` is that of the inner value.
    NestedMapOfMap {
        outer_optional: bool,
        outer_key_spec: PlainSpec,
        outer_key_ptype: Type,
        outer_key_chunk_path: Vec<String>,
        inner_key_spec: PlainSpec,
        inner_key_ptype: Type,
        inner_key_chunk_path: Vec<String>,
        inner_value_spec: PlainSpec,
        inner_value_ptype: Type,
        inner_value_chunk_path: Vec<String>,
        max_def_level: u32,
        inner_value_optional: bool,
    },
}

/// A field of a struct.
pub struct StructField {
    pub name: String,
    pub chunk_path: Vec<String>,
    pub spec: PlainSpec,
    pub ptype: Type,
    pub max_def_level: u32,
    /// Whether the field may be null in a struct that is there.
    pub optional: bool,
    /// The shape of the field where it is no leaf; the fields above then stand for nothing.
    pub nested: Option<Box<ColumnKind>>,
}

/// How a wanted column is to be decoded.
pub struct ColumnPlan {
    /// The path of a leaf of the column, without the name of the schema's root.
    pub chunk_path: Vec<String>,
    pub kind: ColumnKind,
}

/// What a [`ColumnKind`] says.
pub enum KindView {
    Flat { spec: PlainSpec, ptype: Type, max_def_level: u32 },
    NestedListPrimitive {
        spec: PlainSpec,
        ptype: Type,
        max_def_level: u32,
        max_rep_level: u32,
        outer_optional: bool,
        element_optional: bool,
    },
    NestedMapKV {
        key_spec: PlainSpec,
        value_spec: PlainSpec,
        key_ptype: Type,
        value_ptype: Type,
        key_chunk_path: Seq<Seq<char>>,
        value_chunk_path: Seq<Seq<char>>,
        max_def_level: u32,
        outer_optional: bool,
        value_optional: bool,
    },
    NestedStruct { outer_optional: bool, fields: Seq<FieldView> },
    NestedListOfListPrimitive {
        spec: PlainSpec,
        ptype: Type,
        max_def_level: u32,
        max_rep_level: u32,
        outer_optional: bool,
        inner_optional: bool,
        item_optional: bool,
    },
    NestedListOfStruct { outer_optional: bool, list_max_def_level: u32, fields: Seq<FieldView> },
    NestedMapOfStruct {
        outer_optional: bool,
        key_spec: PlainSpec,
        key_ptype: Type,
        key_chunk_path: Seq<Seq<char>>,
        map_max_def_level: u32,
        value_fields: Seq<FieldView>,
    },
    NestedMapOfList {
        outer_optional: bool,
        key_spec: PlainSpec,
        key_ptype: Type,
        key_chunk_path: Seq<Seq<char>>,
        value_spec: PlainSpec,
        value_ptype: Type,
        value_chunk_path: Seq<Seq<char>>,
        max_def_level: u32,
        value_item_optional: bool,
    },
    NestedListOfListOfListPrimitive {
        spec: PlainSpec,
        ptype: Type,
        max_def_level: u32,
        max_rep_level: u32,
        outer_optional: bool,
        middle_optional: bool,
        inner_optional: bool,
        item_optional: bool,
    },
    NestedListOfMap {
        outer_optional: bool,
        key_spec: PlainSpec,
        key_ptype: Type,
        key_chunk_path: Seq<Seq<char>>,
        value_spec: PlainSpec,
        value_ptype: Type,
        value_chunk_path: Seq<Seq<char>>,
        max_def_level: u32,
        value_optional: bool,
    },
    NestedMapOfMap {
        outer_optional: bool,
        outer_key_spec: PlainSpec,
        outer_key_ptype: Type,
        outer_key_chunk_path: Seq<Seq<char>>,
        inner_key_spec: PlainSpec,
        inner_key_ptype: Type,
        inner_key_chunk_path: Seq<Seq<char>>,
        inner_value_spec: PlainSpec,
        inner_value_ptype: Type,
        inner_value_chunk_path: Seq<Seq<char>>,
        max_def_level: u32,
        inner_value_optional: bool,
    },
}

/// What a [`StructField`] says.
pub struct FieldView {
    pub name: Seq<char>,
    pub chunk_path: Seq<Seq<char>>,
    pub spec: PlainSpec,
    pub ptype: Type,
    pub max_def_level: u32,
    pub optional: bool,
    pub nested: Option<Box<KindView>>,
}

/// What a [`ColumnPlan`] says.
pub struct PlanView {
    pub chunk_path: Seq<Seq<char>>,
    pub kind: KindView,
}

/// What a field says.
pub open spec fn field_view(f: StructField) -> FieldView
    decreases f,
{
    FieldView {
        name: f.name@,
        chunk_path: texts(f.chunk_path@),
        spec: f.spec,
        ptype: f.ptype,
        max_def_level: f.max_def_level,
        optional: f.optional,
        nested: match f.nested {
            Some(k) => Some(Box::new(kind_view(*k))),
            None => None,
        },
    }
}

/// What a list of fields says.
pub open spec fn fields_view(s: Seq<StructField>) -> Seq<FieldView>
    decreases s,
{
    Seq::new(
        s.len(),
        |i: int|
            if 0 <= i < s.len() {
                field_view(s[i])
            } else {
                arbitrary()
            },
    )
}

/// What a shape says.
pub open spec fn kind_view(k: ColumnKind) -> KindView
    decreases k,
{
    match k {
        ColumnKind::Flat { spec, ptype, max_def_level } => KindView::Flat {
            spec,
            ptype,
            max_def_level,
        },
        ColumnKind::NestedListPrimitive {
            spec,
            ptype,
            max_def_level,
            max_rep_level,
            outer_optional,
            element_optional,
        } => KindView::NestedListPrimitive {
            spec,
            ptype,
            max_def_level,
            max_rep_level,
            outer_optional,
            element_optional,
        },
        ColumnKind::NestedMapKV {
            key_spec,
            value_spec,
            key_ptype,
            value_ptype,
            key_chunk_path,
            value_chunk_path,
            max_def_level,
            outer_optional,
            value_optional,
        } => KindView::NestedMapKV {
            key_spec,
            value_spec,
            key_ptype,
            value_ptype,
            key_chunk_path: texts(key_chunk_path@),
            value_chunk_path: texts(value_chunk_path@),
            max_def_level,
            outer_optional,
            value_optional,
        },
        ColumnKind::NestedStruct { outer_optional, fields } => KindView::NestedStruct {
            outer_optional,
            fields: fields_view(fields@),
        },
        ColumnKind::NestedListOfListPrimitive {
            spec,
            ptype,
            max_def_level,
            max_rep_level,
            outer_optional,
            inner_optional,
            item_optional,
        } => KindView::NestedListOfListPrimitive {
            spec,
            ptype,
            max_def_level,
            max_rep_level,
            outer_optional,
            inner_optional,
            item_optional,
        },
        ColumnKind::NestedListOfStruct { outer_optional, list_max_def_level, fields } =>
            KindView::NestedListOfStruct {
            outer_optional,
            list_max_def_level,
            fields: fields_view(fields@),
        },
        ColumnKind::NestedMapOfStruct {
            outer_optional,
            key_spec,
            key_ptype,
            key_chunk_path,
            map_max_def_level,
            value_fields,
        } => KindView::NestedMapOfStruct {
            outer_optional,
            key_spec,
            key_ptype,
            key_chunk_path: texts(key_chunk_path@),
            map_max_def_level,
            value_fields: fields_view(value_fields@),
        },
        ColumnKind::NestedMapOfList {
            outer_optional,
            key_spec,
            key_ptype,
            key_chunk_path,
            value_spec,
            value_ptype,
            value_chunk_path,
            max_def_level,
            value_item_optional,
        } => KindView::NestedMapOfList {
            outer_optional,
            key_spec,
            key_ptype,
            key_chunk_path: texts(key_chunk_path@),
            value_spec,
            value_ptype,
            value_chunk_path: texts(value_chunk_path@),
            max_def_level,
            value_item_optional,
        },
        ColumnKind::NestedListOfListOfListPrimitive {
            spec,
            ptype,
            max_def_level,
            max_rep_level,
            outer_optional,
            middle_optional,
            inner_optional,
            item_optional,
        } => KindView::NestedListOfListOfListPrimitive {
            spec,
            ptype,
            max_def_level,
            max_rep_level,
            outer_optional,
            middle_optional,
            inner_optional,
            item_optional,
        },
        ColumnKind::NestedListOfMap {
            outer_optional,
            key_spec,
            key_ptype,
            key_chunk_path,
            value_spec,
            value_ptype,
            value_chunk_path,
            max_def_level,
            value_optional,
        } => KindView::NestedListOfMap {
            outer_optional,
            key_spec,
            key_ptype,
            key_chunk_path: texts(key_chunk_path@),
            value_spec,
            value_ptype,
            value_chunk_path: texts(value_chunk_path@),
            max_def_level,
            value_optional,
        },
        ColumnKind::NestedMapOfMap {
            outer_optional,
            outer_key_spec,
            outer_key_ptype,
            outer_key_chunk_path,
            inner_key_spec,
            inner_key_ptype,
            inner_key_chunk_path,
            inner_value_spec,
            inner_value_ptype,
            inner_value_chunk_path,
            max_def_level,
            inner_value_optional,
        } => KindView::NestedMapOfMap {
            outer_optional,
            outer_key_spec,
            outer_key_ptype,
            outer_key_chunk_path: texts(outer_key_chunk_path@),
            inner_key_spec,
            inner_key_ptype,
            inner_key_chunk_path: texts(inner_key_chunk_path@),
            inner_value_spec,
            inner_value_ptype,
            inner_value_chunk_path: texts(inner_value_chunk_path@),
            max_def_level,
            inner_value_optional,
        },
    }
}

impl View for ColumnKind {
    type V = KindView;

    open spec fn view(&self) -> KindView {
        kind_view(*self)
    }
}

impl View for StructField {
    type V = FieldView;

    open spec fn view(&self) -> FieldView {
        field_view(*self)
    }
}

impl View for ColumnPlan {
    type V = PlanView;

    open spec fn view(&self) -> PlanView {
        PlanView { chunk_path: texts(self.chunk_path@), kind: self.kind@ }
    }
}

/// The view of a field list, index by index.
pub proof fn lemma_fields_view(s: Seq<StructField>)
    ensures
        fields_view(s).len() == s.len(),
        forall|i: int| 0 <= i < s.len() ==> #[trigger] fields_view(s)[i] == s[i]@,
{
}

} // verus!
