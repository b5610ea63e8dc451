//! File metadata: what the fields of its records say, in whatever order they stand.
use vstd::prelude::*;

use crate::error::PqErrorView;
use crate::laws::fields::{
    ctype_of, datum_form, datum_ok, field_head, fields_form, id_before, items_form, law_binary,
    law_list_head, law_skip, lemma_fields, lemma_fields_end, lemma_items, lemma_ivarint_stands,
    lemma_stands, list_head, stands, Datum,
};
use crate::meta::{
    blank_chunk, blank_element, blank_file, blank_group, chunk_fields_at, chunks_at,
    column_field_at, column_fields_at, decimal_field_at, decimal_fields_at, element_field_at,
    element_fields_at, elements_at, encodings_at, file_field_at, file_fields_at, group_field_at,
    group_fields_at, groups_at, logical_field_at, logical_fields_at, metadata_of, metadata_with, FileMetaDataView,
    or_zero, segments_at, Codec, ColumnChunkView, Encoding, FileFields, Logical, RowGroupView,
};
use crate::schema::{LogicalType, Repetition, SchemaElementView, Type};
use crate::text::text_of;
use crate::thrift::{ctype, field_of};

verus! {

/// Whether a field of a decimal type has the type that goes with its id.
pub open spec fn decimal_takes(id: i16, d: Datum) -> bool {
    (id == 1 || id == 2) ==> d is I32
}

/// Whether the fields make up a decimal type.
pub open spec fn decimal_fields_ok(fields: Seq<(i16, Datum)>) -> bool {
    forall|i: int|
        0 <= i < fields.len() ==> decimal_takes((#[trigger] fields[i]).0, fields[i].1) && datum_ok(
            fields[i].1,
        )
}

/// A decimal type with one more field.
pub open spec fn decimal_with(acc: (i32, i32), f: (i16, Datum)) -> (i32, i32) {
    if f.0 == 1 {
        (f.1->I32_0, acc.1)
    } else if f.0 == 2 {
        (acc.0, f.1->I32_0)
    } else {
        acc
    }
}

/// A decimal type with its first `k` fields.
pub open spec fn decimal_after(acc: (i32, i32), fields: Seq<(i16, Datum)>, k: nat) -> (i32, i32)
    decreases k,
{
    if k == 0 {
        acc
    } else {
        decimal_with(decimal_after(acc, fields, (k - 1) as nat), fields[k - 1])
    }
}

proof fn lemma_decimal_field(b: Seq<u8>, e: int, id: i16, d: Datum, acc: (i32, i32))
    requires
        stands(b, e, datum_form(d)),
        decimal_takes(id, d),
        datum_ok(d),
        b.len() <= usize::MAX,
    ensures
        decimal_field_at(b, e, field_of(id, ctype_of(d)), acc) == Ok::<((i32, i32), int), PqErrorView>(
            (decimal_with(acc, (id, d)), e + datum_form(d).len()),
        ),
{
    match d {
        Datum::I32(n) => {
            lemma_ivarint_stands(b, e, n as i64);
        },
        _ => {},
    }
    law_skip(b, e, d);
}

proof fn lemma_decimal(b: Seq<u8>, p: int, fields: Seq<(i16, Datum)>, acc: (i32, i32), k: nat)
    requires
        stands(b, p, datum_form(Datum::Struct(fields))),
        k <= fields.len(),
        decimal_fields_ok(fields),
        b.len() <= usize::MAX,
    ensures
        decimal_fields_at(
            b,
            p + fields_form(fields, k).len(),
            id_before(fields, k as int),
            decimal_after(acc, fields, k),
        ) == Ok::<((i32, i32), int), PqErrorView>(
            (decimal_after(acc, fields, fields.len()), p + datum_form(Datum::Struct(fields)).len()),
        ),
    decreases fields.len() - k,
{
    lemma_fields_end(b, p, fields);
    if k < fields.len() {
        lemma_fields(b, p, fields, fields.len(), k);
        let at = p + fields_form(fields, k).len();
        let (id, d) = fields[k as int];
        let e = at + field_head(id_before(fields, k as int), id, ctype_of(d)).len();
        lemma_decimal_field(b, e, id, d, decimal_after(acc, fields, k));
        lemma_decimal(b, p, fields, acc, k + 1);
    }
}

/// Whether a field of a logical type has the type that goes with its id.
pub open spec fn logical_takes(id: i16, d: Datum) -> bool {
    id == 5 ==> d is Struct && decimal_fields_ok(d->Struct_0)
}

/// Whether the fields make up a logical type.
pub open spec fn logical_fields_ok(fields: Seq<(i16, Datum)>) -> bool {
    forall|i: int|
        0 <= i < fields.len() ==> logical_takes((#[trigger] fields[i]).0, fields[i].1) && datum_ok(
            fields[i].1,
        )
}

/// A logical type with one more field.
pub open spec fn logical_with(acc: Logical, f: (i16, Datum)) -> Logical {
    if f.0 == 2 {
        (Some(LogicalType::MapKv), acc.1)
    } else if f.0 == 3 {
        (Some(LogicalType::List), acc.1)
    } else if f.0 == 5 {
        (acc.0, Some(decimal_after((0, 0), f.1->Struct_0, f.1->Struct_0.len())))
    } else {
        acc
    }
}

/// A logical type with its first `k` fields.
pub open spec fn logical_after(acc: Logical, fields: Seq<(i16, Datum)>, k: nat) -> Logical
    decreases k,
{
    if k == 0 {
        acc
    } else {
        logical_with(logical_after(acc, fields, (k - 1) as nat), fields[k - 1])
    }
}

proof fn lemma_logical_field(b: Seq<u8>, e: int, id: i16, d: Datum, acc: Logical)
    requires
        stands(b, e, datum_form(d)),
        logical_takes(id, d),
        datum_ok(d),
        b.len() <= usize::MAX,
    ensures
        logical_field_at(b, e, field_of(id, ctype_of(d)), acc) == Ok::<(Logical, int), PqErrorView>(
            (logical_with(acc, (id, d)), e + datum_form(d).len()),
        ),
{
    match d {
        Datum::Struct(inner) => {
            if id == 5 {
                lemma_decimal(b, e, inner, (0, 0), 0);
            }
        },
        _ => {},
    }
    law_skip(b, e, d);
}

proof fn lemma_logical(b: Seq<u8>, p: int, fields: Seq<(i16, Datum)>, acc: Logical, k: nat)
    requires
        stands(b, p, datum_form(Datum::Struct(fields))),
        k <= fields.len(),
        logical_fields_ok(fields),
        b.len() <= usize::MAX,
    ensures
        logical_fields_at(
            b,
            p + fields_form(fields, k).len(),
            id_before(fields, k as int),
            logical_after(acc, fields, k),
        ) == Ok::<(Logical, int), PqErrorView>(
            (logical_after(acc, fields, fields.len()), p + datum_form(Datum::Struct(fields)).len()),
        ),
    decreases fields.len() - k,
{
    lemma_fields_end(b, p, fields);
    if k < fields.len() {
        lemma_fields(b, p, fields, fields.len(), k);
        let at = p + fields_form(fields, k).len();
        let (id, d) = fields[k as int];
        let e = at + field_head(id_before(fields, k as int), id, ctype_of(d)).len();
        lemma_logical_field(b, e, id, d, logical_after(acc, fields, k));
        lemma_logical(b, p, fields, acc, k + 1);
    }
}

/// Whether a field of a schema element has the type that goes with its id.
pub open spec fn element_takes(id: i16, d: Datum) -> bool {
    &&& (id == 1 || id == 2 || id == 3 || id == 5 || id == 6 || id == 7 || id == 8) ==> d is I32
    &&& id == 4 ==> d is Binary
    &&& id == 10 ==> d is Struct && logical_fields_ok(d->Struct_0)
}

/// Whether the fields make up a schema element. Where it is said twice that it is a decimal, the
/// two agree.
pub open spec fn element_fields_ok(fields: Seq<(i16, Datum)>) -> bool {
    let whole = element_after(blank_element(), fields, fields.len());
    &&& forall|i: int|
        0 <= i < fields.len() ==> element_takes((#[trigger] fields[i]).0, fields[i].1) && datum_ok(
            fields[i].1,
        )
    &&& (whole.logical_decimal is Some && whole.converted_type == Some(5i32)) ==> whole.logical_decimal
        == Some((or_zero(whole.scale), or_zero(whole.precision)))
}

/// A schema element with one more field.
pub open spec fn element_with(acc: SchemaElementView, f: (i16, Datum)) -> SchemaElementView {
    if f.0 == 1 {
        SchemaElementView { ptype: Some(Type::of(f.1->I32_0)), ..acc }
    } else if f.0 == 2 {
        SchemaElementView { type_length: Some(f.1->I32_0), ..acc }
    } else if f.0 == 3 {
        SchemaElementView { repetition: Repetition::of(f.1->I32_0), ..acc }
    } else if f.0 == 4 {
        SchemaElementView { name: text_of(f.1->Binary_0), ..acc }
    } else if f.0 == 5 {
        SchemaElementView { num_children: f.1->I32_0, ..acc }
    } else if f.0 == 6 {
        SchemaElementView { converted_type: Some(f.1->I32_0), ..acc }
    } else if f.0 == 7 {
        SchemaElementView { scale: Some(f.1->I32_0), ..acc }
    } else if f.0 == 8 {
        SchemaElementView { precision: Some(f.1->I32_0), ..acc }
    } else if f.0 == 10 {
        let l = logical_after(
            (acc.logical_group, acc.logical_decimal),
            f.1->Struct_0,
            f.1->Struct_0.len(),
        );
        SchemaElementView { logical_group: l.0, logical_decimal: l.1, ..acc }
    } else {
        acc
    }
}

/// A schema element with its first `k` fields.
pub open spec fn element_after(acc: SchemaElementView, fields: Seq<(i16, Datum)>, k: nat) -> SchemaElementView
    decreases k,
{
    if k == 0 {
        acc
    } else {
        element_with(element_after(acc, fields, (k - 1) as nat), fields[k - 1])
    }
}

proof fn lemma_element_field(b: Seq<u8>, e: int, id: i16, d: Datum, acc: SchemaElementView)
    requires
        stands(b, e, datum_form(d)),
        element_takes(id, d),
        datum_ok(d),
        b.len() <= usize::MAX,
    ensures
        element_field_at(b, e, field_of(id, ctype_of(d)), acc) == Ok::<(SchemaElementView, int), PqErrorView>(
            (element_with(acc, (id, d)), e + datum_form(d).len()),
        ),
{
    match d {
        Datum::I32(n) => {
            lemma_ivarint_stands(b, e, n as i64);
        },
        Datum::Binary(s) => {
            law_binary(b, e, s, "binary len range"@);
        },
        Datum::Struct(inner) => {
            if id == 10 {
                lemma_logical(b, e, inner, (acc.logical_group, acc.logical_decimal), 0);
            }
        },
        _ => {},
    }
    law_skip(b, e, d);
}

#[verifier::rlimit(40)]
proof fn lemma_element(b: Seq<u8>, p: int, fields: Seq<(i16, Datum)>, acc: SchemaElementView, k: nat)
    requires
        stands(b, p, datum_form(Datum::Struct(fields))),
        k <= fields.len(),
        element_fields_ok(fields),
        b.len() <= usize::MAX,
        acc == blank_element(),
    ensures
        element_fields_at(
            b,
            p + fields_form(fields, k).len(),
            id_before(fields, k as int),
            element_after(acc, fields, k),
        ) == Ok::<(SchemaElementView, int), PqErrorView>(
            (element_after(acc, fields, fields.len()), p + datum_form(Datum::Struct(fields)).len()),
        ),
    decreases fields.len() - k,
{
    reveal(element_fields_at);
    lemma_fields_end(b, p, fields);
    if k < fields.len() {
        lemma_fields(b, p, fields, fields.len(), k);
        let at = p + fields_form(fields, k).len();
        let (id, d) = fields[k as int];
        let e = at + field_head(id_before(fields, k as int), id, ctype_of(d)).len();
        lemma_element_field(b, e, id, d, element_after(acc, fields, k));
        lemma_element(b, p, fields, acc, k + 1);
    }
}

/// The schema element that a struct is.
pub open spec fn element_of(d: Datum) -> SchemaElementView {
    element_after(blank_element(), d->Struct_0, d->Struct_0.len())
}

proof fn lemma_element_whole(b: Seq<u8>, p: int, d: Datum)
    requires
        stands(b, p, datum_form(d)),
        d is Struct,
        element_fields_ok(d->Struct_0),
        b.len() <= usize::MAX,
    ensures
        element_fields_at(b, p, 0, blank_element()) == Ok::<(SchemaElementView, int), PqErrorView>(
            (element_of(d), p + datum_form(d).len()),
        ),
{
    let fields = d->Struct_0;
    lemma_element(b, p, fields, blank_element(), 0);
    assert(fields_form(fields, 0).len() == 0);
    assert(element_after(blank_element(), fields, 0) == blank_element());
}

proof fn lemma_elements(b: Seq<u8>, p: int, items: Seq<Datum>, k: nat)
    requires
        stands(b, p, items_form(items, items.len())),
        k <= items.len(),
        forall|i: int|
            0 <= i < items.len() ==> #[trigger] items[i] is Struct && element_fields_ok(
                items[i]->Struct_0,
            ),
        b.len() <= usize::MAX,
    ensures
        elements_at(b, p, k) == Ok::<(Seq<SchemaElementView>, int), PqErrorView>(
            (Seq::new(k, |i: int| element_of(items[i])), p + items_form(items, k).len()),
        ),
    decreases k,
{
    if k == 0 {
        assert(Seq::new(0, |i: int| element_of(items[i])) =~= Seq::<SchemaElementView>::empty());
    } else {
        let j = (k - 1) as nat;
        lemma_elements(b, p, items, j);
        lemma_items(b, p, items, items.len(), j);
        let at = p + items_form(items, j).len();
        assert(items[j as int] is Struct);
        lemma_element_whole(b, at, items[j as int]);
        assert(Seq::new(j, |i: int| element_of(items[i])).push(element_of(items[j as int]))
            =~= Seq::new(k, |i: int| element_of(items[i])));
    }
}

/// Whether a value is a list of elements of the type.
pub open spec fn is_list(d: Datum, elements: u8) -> bool {
    d matches Datum::List { elements: e, .. } && e == elements
}

/// Whether a field of column metadata has the type that goes with its id.
pub open spec fn column_takes(id: i16, d: Datum) -> bool {
    &&& (id == 1 || id == 4) ==> d is I32
    &&& id == 2 ==> is_list(d, ctype::I32)
    &&& id == 3 ==> is_list(d, ctype::BINARY)
    &&& (id == 5 || id == 9 || id == 11) ==> d is I64
}

/// Whether the fields make up column metadata.
pub open spec fn column_fields_ok(fields: Seq<(i16, Datum)>) -> bool {
    forall|i: int|
        0 <= i < fields.len() ==> column_takes((#[trigger] fields[i]).0, fields[i].1) && datum_ok(
            fields[i].1,
        )
}

/// Column metadata with one more field.
pub open spec fn column_with(acc: ColumnChunkView, f: (i16, Datum)) -> ColumnChunkView {
    if f.0 == 1 {
        ColumnChunkView { ptype: Type::of(f.1->I32_0), ..acc }
    } else if f.0 == 2 {
        ColumnChunkView {
            encodings: acc.encodings + encodings_of(f.1->items, f.1->items.len()),
            ..acc
        }
    } else if f.0 == 3 {
        ColumnChunkView { path: acc.path + segments_of(f.1->items, f.1->items.len()), ..acc }
    } else if f.0 == 4 {
        ColumnChunkView { codec: Codec::of(f.1->I32_0), ..acc }
    } else if f.0 == 5 {
        ColumnChunkView { num_values: f.1->I64_0, ..acc }
    } else if f.0 == 9 {
        ColumnChunkView { data_page_offset: f.1->I64_0, ..acc }
    } else if f.0 == 11 {
        ColumnChunkView { dictionary_page_offset: Some(f.1->I64_0), ..acc }
    } else {
        acc
    }
}

/// The encodings that the first `k` numbers stand for.
pub open spec fn encodings_of(items: Seq<Datum>, k: nat) -> Seq<Encoding> {
    Seq::new(k, |i: int| Encoding::of(items[i]->I32_0))
}

/// The path segments that the first `k` byte strings stand for.
pub open spec fn segments_of(items: Seq<Datum>, k: nat) -> Seq<Seq<char>> {
    Seq::new(k, |i: int| text_of(items[i]->Binary_0))
}

proof fn lemma_encodings(b: Seq<u8>, p: int, items: Seq<Datum>, k: nat)
    requires
        stands(b, p, items_form(items, items.len())),
        k <= items.len(),
        forall|i: int| 0 <= i < items.len() ==> #[trigger] items[i] is I32,
    ensures
        encodings_at(b, p, ctype::I32, k) == Ok::<(Seq<Encoding>, int), PqErrorView>(
            (encodings_of(items, k), p + items_form(items, k).len()),
        ),
    decreases k,
{
    if k == 0 {
        assert(encodings_of(items, 0) =~= Seq::<Encoding>::empty());
    } else {
        let j = (k - 1) as nat;
        lemma_encodings(b, p, items, j);
        lemma_items(b, p, items, items.len(), j);
        assert(items[j as int] is I32);
        lemma_ivarint_stands(b, p + items_form(items, j).len(), items[j as int]->I32_0 as i64);
        assert(encodings_of(items, j).push(Encoding::of(items[j as int]->I32_0)) =~= encodings_of(
            items,
            k,
        ));
    }
}

proof fn lemma_segments(b: Seq<u8>, p: int, items: Seq<Datum>, k: nat)
    requires
        stands(b, p, items_form(items, items.len())),
        k <= items.len(),
        forall|i: int| 0 <= i < items.len() ==> #[trigger] items[i] is Binary,
        b.len() <= usize::MAX,
    ensures
        segments_at(b, p, k) == Ok::<(Seq<Seq<char>>, int), PqErrorView>(
            (segments_of(items, k), p + items_form(items, k).len()),
        ),
    decreases k,
{
    if k == 0 {
        assert(segments_of(items, 0) =~= Seq::<Seq<char>>::empty());
    } else {
        let j = (k - 1) as nat;
        lemma_segments(b, p, items, j);
        lemma_items(b, p, items, items.len(), j);
        assert(items[j as int] is Binary);
        law_binary(b, p + items_form(items, j).len(), items[j as int]->Binary_0, "path len"@);
        assert(segments_of(items, j).push(text_of(items[j as int]->Binary_0)) =~= segments_of(
            items,
            k,
        ));
    }
}

/// The head of a list, and its items.
proof fn lemma_list(b: Seq<u8>, e: int, elements: u8, items: Seq<Datum>)
    requires
        stands(b, e, datum_form(Datum::List { elements, items })),
        datum_ok(Datum::List { elements, items }),
    ensures
        crate::thrift::list_header_at(b, e) == Ok::<((u8, usize), int), PqErrorView>(
            ((elements, items.len() as usize), e + list_head(elements, items.len()).len()),
        ),
        stands(
            b,
            e + list_head(elements, items.len()).len(),
            items_form(items, items.len()),
        ),
        datum_form(Datum::List { elements, items }).len() == list_head(elements, items.len()).len()
            + items_form(items, items.len()).len(),
        forall|i: int| 0 <= i < items.len() ==> ctype_of(#[trigger] items[i]) == elements,
{
    lemma_stands(b, e, list_head(elements, items.len()), items_form(items, items.len()));
    law_list_head(b, e, elements, items.len());
}

/// Column metadata with its first `k` fields.
pub open spec fn column_after(acc: ColumnChunkView, fields: Seq<(i16, Datum)>, k: nat) -> ColumnChunkView
    decreases k,
{
    if k == 0 {
        acc
    } else {
        column_with(column_after(acc, fields, (k - 1) as nat), fields[k - 1])
    }
}

proof fn lemma_column_field(b: Seq<u8>, e: int, id: i16, d: Datum, acc: ColumnChunkView)
    requires
        stands(b, e, datum_form(d)),
        column_takes(id, d),
        datum_ok(d),
        b.len() <= usize::MAX,
    ensures
        column_field_at(b, e, field_of(id, ctype_of(d)), acc) == Ok::<(ColumnChunkView, int), PqErrorView>(
            (column_with(acc, (id, d)), e + datum_form(d).len()),
        ),
{
    match d {
        Datum::I32(n) => {
            lemma_ivarint_stands(b, e, n as i64);
        },
        Datum::I64(n) => {
            lemma_ivarint_stands(b, e, n);
        },
        Datum::List { elements, items } => {
            lemma_list(b, e, elements, items);
            let at = e + list_head(elements, items.len()).len();
            if id == 2 {
                assert forall|i: int| 0 <= i < items.len() implies #[trigger] items[i] is I32 by {
                    assert(ctype_of(items[i]) == elements);
                }
                lemma_encodings(b, at, items, items.len());
            } else if id == 3 {
                assert forall|i: int| 0 <= i < items.len() implies #[trigger] items[i] is Binary by {
                    assert(ctype_of(items[i]) == elements);
                }
                lemma_segments(b, at, items, items.len());
            }
        },
        _ => {},
    }
    law_skip(b, e, d);
}

proof fn lemma_column(b: Seq<u8>, p: int, fields: Seq<(i16, Datum)>, acc: ColumnChunkView, k: nat)
    requires
        stands(b, p, datum_form(Datum::Struct(fields))),
        k <= fields.len(),
        column_fields_ok(fields),
        b.len() <= usize::MAX,
    ensures
        column_fields_at(
            b,
            p + fields_form(fields, k).len(),
            id_before(fields, k as int),
            column_after(acc, fields, k),
        ) == Ok::<(ColumnChunkView, int), PqErrorView>(
            (column_after(acc, fields, fields.len()), p + datum_form(Datum::Struct(fields)).len()),
        ),
    decreases fields.len() - k,
{
    reveal(column_fields_at);
    lemma_fields_end(b, p, fields);
    if k < fields.len() {
        lemma_fields(b, p, fields, fields.len(), k);
        let at = p + fields_form(fields, k).len();
        let (id, d) = fields[k as int];
        let e = at + field_head(id_before(fields, k as int), id, ctype_of(d)).len();
        lemma_column_field(b, e, id, d, column_after(acc, fields, k));
        lemma_column(b, p, fields, acc, k + 1);
    }
}

/// Whether a field of a column chunk has the type that goes with its id.
pub open spec fn chunk_takes(id: i16, d: Datum) -> bool {
    id == 3 ==> d is Struct && column_fields_ok(d->Struct_0)
}

/// Whether the fields make up a column chunk, which holds column metadata.
pub open spec fn chunk_fields_ok(fields: Seq<(i16, Datum)>) -> bool {
    &&& forall|i: int|
        0 <= i < fields.len() ==> chunk_takes((#[trigger] fields[i]).0, fields[i].1) && datum_ok(
            fields[i].1,
        )
    &&& exists|i: int| 0 <= i < fields.len() && (#[trigger] fields[i]).0 == 3
}

/// A column chunk with one more field.
pub open spec fn chunk_with(acc: Option<ColumnChunkView>, f: (i16, Datum)) -> Option<
    ColumnChunkView,
> {
    if f.0 == 3 {
        Some(column_after(blank_chunk(), f.1->Struct_0, f.1->Struct_0.len()))
    } else {
        acc
    }
}

/// A column chunk with its first `k` fields.
pub open spec fn chunk_after(acc: Option<ColumnChunkView>, fields: Seq<(i16, Datum)>, k: nat) -> Option<ColumnChunkView>
    decreases k,
{
    if k == 0 {
        acc
    } else {
        chunk_with(chunk_after(acc, fields, (k - 1) as nat), fields[k - 1])
    }
}

proof fn lemma_chunk_there(fields: Seq<(i16, Datum)>, k: nat, i: int)
    requires
        0 <= i < k <= fields.len(),
        fields[i].0 == 3,
    ensures
        chunk_after(None, fields, k) is Some,
    decreases k,
{
    if i < k - 1 {
        lemma_chunk_there(fields, (k - 1) as nat, i);
    }
}

proof fn lemma_chunk_step(b: Seq<u8>, p: int, fields: Seq<(i16, Datum)>, k: nat)
    requires
        stands(b, p, fields_form(fields, fields.len())),
        k < fields.len(),
        chunk_takes(fields[k as int].0, fields[k as int].1),
        datum_ok(fields[k as int].1),
        b.len() <= usize::MAX,
    ensures
        chunk_fields_at(
            b,
            p + fields_form(fields, k).len(),
            id_before(fields, k as int),
            chunk_after(None, fields, k),
        ) == chunk_fields_at(
            b,
            p + fields_form(fields, k + 1).len(),
            id_before(fields, (k + 1) as int),
            chunk_after(None, fields, k + 1),
        ),
{
    reveal(chunk_fields_at);
    lemma_fields(b, p, fields, fields.len(), k);
    let at = p + fields_form(fields, k).len();
    let (id, d) = fields[k as int];
    let e = at + field_head(id_before(fields, k as int), id, ctype_of(d)).len();
    if id == 3 {
        let inner = d->Struct_0;
        lemma_column(b, e, inner, blank_chunk(), 0);
        assert(fields_form(inner, 0).len() == 0);
        assert(column_after(blank_chunk(), inner, 0) == blank_chunk());
    } else {
        law_skip(b, e, d);
    }
}

proof fn lemma_chunk(b: Seq<u8>, p: int, fields: Seq<(i16, Datum)>, k: nat)
    requires
        stands(b, p, datum_form(Datum::Struct(fields))),
        k <= fields.len(),
        chunk_fields_ok(fields),
        b.len() <= usize::MAX,
    ensures
        chunk_after(None, fields, fields.len()) is Some,
        chunk_fields_at(
            b,
            p + fields_form(fields, k).len(),
            id_before(fields, k as int),
            chunk_after(None, fields, k),
        ) == Ok::<(ColumnChunkView, int), PqErrorView>(
            (
                chunk_after(None, fields, fields.len())->Some_0,
                p + datum_form(Datum::Struct(fields)).len(),
            ),
        ),
    decreases fields.len() - k,
{
    reveal(chunk_fields_at);
    let w = choose|i: int| 0 <= i < fields.len() && (#[trigger] fields[i]).0 == 3;
    lemma_chunk_there(fields, fields.len(), w);
    lemma_fields_end(b, p, fields);
    if k < fields.len() {
        lemma_chunk_step(b, p, fields, k);
        lemma_chunk(b, p, fields, k + 1);
    }
}

/// The column chunk that a struct is.
pub open spec fn chunk_of(d: Datum) -> ColumnChunkView {
    chunk_after(None, d->Struct_0, d->Struct_0.len())->Some_0
}

proof fn lemma_chunk_whole(b: Seq<u8>, p: int, d: Datum)
    requires
        stands(b, p, datum_form(d)),
        d is Struct,
        chunk_fields_ok(d->Struct_0),
        b.len() <= usize::MAX,
    ensures
        chunk_fields_at(b, p, 0, None) == Ok::<(ColumnChunkView, int), PqErrorView>(
            (chunk_of(d), p + datum_form(d).len()),
        ),
{
    let fields = d->Struct_0;
    lemma_chunk(b, p, fields, 0);
    assert(fields_form(fields, 0).len() == 0);
    assert(chunk_after(None, fields, 0) == None::<ColumnChunkView>);
}

proof fn lemma_chunks(b: Seq<u8>, p: int, items: Seq<Datum>, k: nat)
    requires
        stands(b, p, items_form(items, items.len())),
        k <= items.len(),
        forall|i: int|
            0 <= i < items.len() ==> #[trigger] items[i] is Struct && chunk_fields_ok(
                items[i]->Struct_0,
            ),
        b.len() <= usize::MAX,
    ensures
        chunks_at(b, p, k) == Ok::<(Seq<ColumnChunkView>, int), PqErrorView>(
            (Seq::new(k, |i: int| chunk_of(items[i])), p + items_form(items, k).len()),
        ),
    decreases k,
{
    if k == 0 {
        assert(Seq::new(0, |i: int| chunk_of(items[i])) =~= Seq::<ColumnChunkView>::empty());
    } else {
        let j = (k - 1) as nat;
        lemma_chunks(b, p, items, j);
        lemma_items(b, p, items, items.len(), j);
        let at = p + items_form(items, j).len();
        assert(items[j as int] is Struct);
        lemma_chunk_whole(b, at, items[j as int]);
        assert(Seq::new(j, |i: int| chunk_of(items[i])).push(chunk_of(items[j as int]))
            =~= Seq::new(k, |i: int| chunk_of(items[i])));
    }
}

/// Whether a field of a row group has the type that goes with its id.
pub open spec fn group_takes(id: i16, d: Datum) -> bool {
    &&& id == 1 ==> is_list(d, ctype::STRUCT) && (forall|i: int|
        0 <= i < d->items.len() ==> chunk_fields_ok((#[trigger] d->items[i])->Struct_0))
    &&& id == 3 ==> d is I64
}

/// Whether the fields make up a row group.
pub open spec fn group_fields_ok(fields: Seq<(i16, Datum)>) -> bool {
    forall|i: int|
        0 <= i < fields.len() ==> group_takes((#[trigger] fields[i]).0, fields[i].1) && datum_ok(
            fields[i].1,
        )
}

/// A row group with one more field.
pub open spec fn group_with(acc: RowGroupView, f: (i16, Datum)) -> RowGroupView {
    if f.0 == 1 {
        RowGroupView {
            columns: acc.columns + Seq::new(f.1->items.len(), |i: int| chunk_of(f.1->items[i])),
            ..acc
        }
    } else if f.0 == 3 {
        RowGroupView { num_rows: f.1->I64_0, ..acc }
    } else {
        acc
    }
}

/// A row group with its first `k` fields.
pub open spec fn group_after(acc: RowGroupView, fields: Seq<(i16, Datum)>, k: nat) -> RowGroupView
    decreases k,
{
    if k == 0 {
        acc
    } else {
        group_with(group_after(acc, fields, (k - 1) as nat), fields[k - 1])
    }
}

proof fn lemma_group_field(b: Seq<u8>, e: int, id: i16, d: Datum, acc: RowGroupView)
    requires
        stands(b, e, datum_form(d)),
        group_takes(id, d),
        datum_ok(d),
        b.len() <= usize::MAX,
    ensures
        group_field_at(b, e, field_of(id, ctype_of(d)), acc) == Ok::<(RowGroupView, int), PqErrorView>(
            (group_with(acc, (id, d)), e + datum_form(d).len()),
        ),
{
    match d {
        Datum::I64(n) => {
            lemma_ivarint_stands(b, e, n);
        },
        Datum::List { elements, items } => {
            lemma_list(b, e, elements, items);
            let at = e + list_head(elements, items.len()).len();
            if id == 1 {
                assert forall|i: int| 0 <= i < items.len() implies #[trigger] items[i] is Struct by {
                    assert(ctype_of(items[i]) == elements);
                }
                lemma_chunks(b, at, items, items.len());
            }
        },
        _ => {},
    }
    law_skip(b, e, d);
}

proof fn lemma_group(b: Seq<u8>, p: int, fields: Seq<(i16, Datum)>, acc: RowGroupView, k: nat)
    requires
        stands(b, p, datum_form(Datum::Struct(fields))),
        k <= fields.len(),
        group_fields_ok(fields),
        b.len() <= usize::MAX,
    ensures
        group_fields_at(
            b,
            p + fields_form(fields, k).len(),
            id_before(fields, k as int),
            group_after(acc, fields, k),
        ) == Ok::<(RowGroupView, int), PqErrorView>(
            (group_after(acc, fields, fields.len()), p + datum_form(Datum::Struct(fields)).len()),
        ),
    decreases fields.len() - k,
{
    reveal(group_fields_at);
    lemma_fields_end(b, p, fields);
    if k < fields.len() {
        lemma_fields(b, p, fields, fields.len(), k);
        let at = p + fields_form(fields, k).len();
        let (id, d) = fields[k as int];
        let e = at + field_head(id_before(fields, k as int), id, ctype_of(d)).len();
        lemma_group_field(b, e, id, d, group_after(acc, fields, k));
        lemma_group(b, p, fields, acc, k + 1);
    }
}

/// The row group that a struct is.
pub open spec fn group_of(d: Datum) -> RowGroupView {
    group_after(blank_group(), d->Struct_0, d->Struct_0.len())
}

proof fn lemma_group_whole(b: Seq<u8>, p: int, d: Datum)
    requires
        stands(b, p, datum_form(d)),
        d is Struct,
        group_fields_ok(d->Struct_0),
        b.len() <= usize::MAX,
    ensures
        group_fields_at(b, p, 0, blank_group()) == Ok::<(RowGroupView, int), PqErrorView>(
            (group_of(d), p + datum_form(d).len()),
        ),
{
    let fields = d->Struct_0;
    lemma_group(b, p, fields, blank_group(), 0);
    assert(fields_form(fields, 0).len() == 0);
    assert(group_after(blank_group(), fields, 0) == blank_group());
}

proof fn lemma_groups(b: Seq<u8>, p: int, items: Seq<Datum>, k: nat)
    requires
        stands(b, p, items_form(items, items.len())),
        k <= items.len(),
        forall|i: int|
            0 <= i < items.len() ==> #[trigger] items[i] is Struct && group_fields_ok(
                items[i]->Struct_0,
            ),
        b.len() <= usize::MAX,
    ensures
        groups_at(b, p, k) == Ok::<(Seq<RowGroupView>, int), PqErrorView>(
            (Seq::new(k, |i: int| group_of(items[i])), p + items_form(items, k).len()),
        ),
    decreases k,
{
    if k == 0 {
        assert(Seq::new(0, |i: int| group_of(items[i])) =~= Seq::<RowGroupView>::empty());
    } else {
        let j = (k - 1) as nat;
        lemma_groups(b, p, items, j);
        lemma_items(b, p, items, items.len(), j);
        let at = p + items_form(items, j).len();
        assert(items[j as int] is Struct);
        lemma_group_whole(b, at, items[j as int]);
        assert(Seq::new(j, |i: int| group_of(items[i])).push(group_of(items[j as int]))
            =~= Seq::new(k, |i: int| group_of(items[i])));
    }
}

/// Whether a field of file metadata has the type that goes with its id.
pub open spec fn file_takes(id: i16, d: Datum) -> bool {
    &&& id == 1 ==> d is I32
    &&& id == 2 ==> is_list(d, ctype::STRUCT) && (forall|i: int|
        0 <= i < d->items.len() ==> element_fields_ok((#[trigger] d->items[i])->Struct_0))
    &&& id == 3 ==> d is I64
    &&& id == 4 ==> is_list(d, ctype::STRUCT) && (forall|i: int|
        0 <= i < d->items.len() ==> group_fields_ok((#[trigger] d->items[i])->Struct_0))
}

/// Whether the fields make up file metadata.
pub open spec fn file_fields_ok(fields: Seq<(i16, Datum)>) -> bool {
    forall|i: int|
        0 <= i < fields.len() ==> file_takes((#[trigger] fields[i]).0, fields[i].1) && datum_ok(
            fields[i].1,
        )
}

/// File metadata with one more field.
pub open spec fn file_with(acc: FileFields, f: (i16, Datum)) -> FileFields {
    if f.0 == 1 {
        FileFields { version: f.1->I32_0, ..acc }
    } else if f.0 == 2 {
        FileFields {
            elements: acc.elements + Seq::new(
                f.1->items.len(),
                |i: int| element_of(f.1->items[i]),
            ),
            ..acc
        }
    } else if f.0 == 3 {
        FileFields { num_rows: f.1->I64_0, ..acc }
    } else if f.0 == 4 {
        FileFields {
            row_groups: acc.row_groups + Seq::new(
                f.1->items.len(),
                |i: int| group_of(f.1->items[i]),
            ),
            ..acc
        }
    } else {
        acc
    }
}

/// File metadata with its first `k` fields.
pub open spec fn file_after(acc: FileFields, fields: Seq<(i16, Datum)>, k: nat) -> FileFields
    decreases k,
{
    if k == 0 {
        acc
    } else {
        file_with(file_after(acc, fields, (k - 1) as nat), fields[k - 1])
    }
}

proof fn lemma_file_field(b: Seq<u8>, e: int, id: i16, d: Datum, acc: FileFields)
    requires
        stands(b, e, datum_form(d)),
        file_takes(id, d),
        datum_ok(d),
        b.len() <= usize::MAX,
    ensures
        file_field_at(b, e, field_of(id, ctype_of(d)), acc) == Ok::<(FileFields, int), PqErrorView>(
            (file_with(acc, (id, d)), e + datum_form(d).len()),
        ),
{
    match d {
        Datum::I32(n) => {
            lemma_ivarint_stands(b, e, n as i64);
        },
        Datum::I64(n) => {
            lemma_ivarint_stands(b, e, n);
        },
        Datum::List { elements, items } => {
            lemma_list(b, e, elements, items);
            let at = e + list_head(elements, items.len()).len();
            if id == 2 {
                assert forall|i: int| 0 <= i < items.len() implies #[trigger] items[i] is Struct by {
                    assert(ctype_of(items[i]) == elements);
                }
                lemma_elements(b, at, items, items.len());
            }
            if id == 4 {
                assert forall|i: int| 0 <= i < items.len() implies #[trigger] items[i] is Struct by {
                    assert(ctype_of(items[i]) == elements);
                }
                lemma_groups(b, at, items, items.len());
            }
        },
        _ => {},
    }
    law_skip(b, e, d);
}

proof fn lemma_file(b: Seq<u8>, p: int, fields: Seq<(i16, Datum)>, acc: FileFields, k: nat)
    requires
        stands(b, p, datum_form(Datum::Struct(fields))),
        k <= fields.len(),
        file_fields_ok(fields),
        b.len() <= usize::MAX,
    ensures
        file_fields_at(
            b,
            p + fields_form(fields, k).len(),
            id_before(fields, k as int),
            file_after(acc, fields, k),
        ) == Ok::<(FileFields, int), PqErrorView>(
            (file_after(acc, fields, fields.len()), p + datum_form(Datum::Struct(fields)).len()),
        ),
    decreases fields.len() - k,
{
    lemma_fields_end(b, p, fields);
    if k < fields.len() {
        lemma_fields(b, p, fields, fields.len(), k);
        let at = p + fields_form(fields, k).len();
        let (id, d) = fields[k as int];
        let e = at + field_head(id_before(fields, k as int), id, ctype_of(d)).len();
        lemma_file_field(b, e, id, d, file_after(acc, fields, k));
        lemma_file(b, p, fields, acc, k + 1);
    }
}

/// File metadata is read as its fields say, in whatever order they stand, whatever fields without a
/// meaning stand between them and whatever follows.
pub proof fn law_metadata(fields: Seq<(i16, Datum)>, after: Seq<u8>)
    requires
        file_fields_ok(fields),
        datum_form(Datum::Struct(fields)).len() + after.len() <= usize::MAX,
    ensures
        metadata_of(datum_form(Datum::Struct(fields)) + after) == Ok::<
            FileMetaDataView,
            PqErrorView,
        >(metadata_with(file_after(blank_file(), fields, fields.len()))),
{
    let s = datum_form(Datum::Struct(fields));
    assert((s + after).subrange(0, s.len() as int) =~= s);
    lemma_file(s + after, 0, fields, blank_file(), 0);
}

} // verus!
