//! Page headers: what their fields say, in whatever order they stand.
use vstd::prelude::*;

use crate::error::PqErrorView;
use crate::laws::fields::{
    ctype_of, datum_form, datum_ok, field_head, fields_form, id_before, law_skip, lemma_fields,
    lemma_fields_end, lemma_ivarint_stands, stands, Datum,
};
use crate::meta::{
    blank_header, data_header_field_at, data_header_fields_at, dict_header_field_at,
    dict_header_fields_at, header_field_at, header_fields_at, page_header_of, v2_header_field_at,
    v2_header_fields_at, PageHeader,
};
use crate::thrift::field_of;

verus! {

/// Whether a field of a data page header has the type that goes with its id.
pub open spec fn data_takes(id: i16, d: Datum) -> bool {
    (id == 1 || id == 2) ==> d is I32
}

/// Whether the fields make up a data page header.
pub open spec fn data_fields_ok(fields: Seq<(i16, Datum)>) -> bool {
    forall|i: int|
        0 <= i < fields.len() ==> data_takes((#[trigger] fields[i]).0, fields[i].1) && datum_ok(
            fields[i].1,
        )
}

/// A data page header with one more field.
pub open spec fn data_with(acc: PageHeader, f: (i16, Datum)) -> PageHeader {
    if f.0 == 1 {
        PageHeader { dp_num_values: f.1->I32_0, ..acc }
    } else if f.0 == 2 {
        PageHeader { dp_encoding: f.1->I32_0, ..acc }
    } else {
        acc
    }
}

/// A data page header with its first `k` fields.
pub open spec fn data_after(acc: PageHeader, fields: Seq<(i16, Datum)>, k: nat) -> PageHeader
    decreases k,
{
    if k == 0 {
        acc
    } else {
        data_with(data_after(acc, fields, (k - 1) as nat), fields[k - 1])
    }
}

proof fn lemma_data_field(b: Seq<u8>, e: int, id: i16, d: Datum, acc: PageHeader)
    requires
        stands(b, e, datum_form(d)),
        data_takes(id, d),
        datum_ok(d),
        b.len() <= usize::MAX,
    ensures
        data_header_field_at(b, e, field_of(id, ctype_of(d)), acc) == Ok::<(PageHeader, int), PqErrorView>(
            (data_with(acc, (id, d)), e + datum_form(d).len()),
        ),
{
    match d {
        Datum::I32(n) => {
            lemma_ivarint_stands(b, e, n as i64);
        },
        _ => {},
    }
    law_skip(b, e, d);
}

proof fn lemma_data(b: Seq<u8>, p: int, fields: Seq<(i16, Datum)>, acc: PageHeader, k: nat)
    requires
        stands(b, p, datum_form(Datum::Struct(fields))),
        k <= fields.len(),
        data_fields_ok(fields),
        b.len() <= usize::MAX,
    ensures
        data_header_fields_at(
            b,
            p + fields_form(fields, k).len(),
            id_before(fields, k as int),
            data_after(acc, fields, k),
        ) == Ok::<(PageHeader, int), PqErrorView>(
            (data_after(acc, fields, fields.len()), p + datum_form(Datum::Struct(fields)).len()),
        ),
    decreases fields.len() - k,
{
    lemma_fields_end(b, p, fields);
    if k < fields.len() {
        lemma_fields(b, p, fields, fields.len(), k);
        let at = p + fields_form(fields, k).len();
        let (id, d) = fields[k as int];
        let e = at + field_head(id_before(fields, k as int), id, ctype_of(d)).len();
        lemma_data_field(b, e, id, d, data_after(acc, fields, k));
        lemma_data(b, p, fields, acc, k + 1);
    }
}

/// Whether a field of a dictionary page header has the type that goes with its id.
pub open spec fn dict_takes(id: i16, d: Datum) -> bool {
    (id == 1 || id == 2) ==> d is I32
}

/// Whether the fields make up a dictionary page header.
pub open spec fn dict_fields_ok(fields: Seq<(i16, Datum)>) -> bool {
    forall|i: int|
        0 <= i < fields.len() ==> dict_takes((#[trigger] fields[i]).0, fields[i].1) && datum_ok(
            fields[i].1,
        )
}

/// A dictionary page header with one more field.
pub open spec fn dict_with(acc: PageHeader, f: (i16, Datum)) -> PageHeader {
    if f.0 == 1 {
        PageHeader { dict_num_values: f.1->I32_0, ..acc }
    } else if f.0 == 2 {
        PageHeader { dict_encoding: f.1->I32_0, ..acc }
    } else {
        acc
    }
}

/// A dictionary page header with its first `k` fields.
pub open spec fn dict_after(acc: PageHeader, fields: Seq<(i16, Datum)>, k: nat) -> PageHeader
    decreases k,
{
    if k == 0 {
        acc
    } else {
        dict_with(dict_after(acc, fields, (k - 1) as nat), fields[k - 1])
    }
}

proof fn lemma_dict_field(b: Seq<u8>, e: int, id: i16, d: Datum, acc: PageHeader)
    requires
        stands(b, e, datum_form(d)),
        dict_takes(id, d),
        datum_ok(d),
        b.len() <= usize::MAX,
    ensures
        dict_header_field_at(b, e, field_of(id, ctype_of(d)), acc) == Ok::<(PageHeader, int), PqErrorView>(
            (dict_with(acc, (id, d)), e + datum_form(d).len()),
        ),
{
    match d {
        Datum::I32(n) => {
            lemma_ivarint_stands(b, e, n as i64);
        },
        _ => {},
    }
    law_skip(b, e, d);
}

proof fn lemma_dict(b: Seq<u8>, p: int, fields: Seq<(i16, Datum)>, acc: PageHeader, k: nat)
    requires
        stands(b, p, datum_form(Datum::Struct(fields))),
        k <= fields.len(),
        dict_fields_ok(fields),
        b.len() <= usize::MAX,
    ensures
        dict_header_fields_at(
            b,
            p + fields_form(fields, k).len(),
            id_before(fields, k as int),
            dict_after(acc, fields, k),
        ) == Ok::<(PageHeader, int), PqErrorView>(
            (dict_after(acc, fields, fields.len()), p + datum_form(Datum::Struct(fields)).len()),
        ),
    decreases fields.len() - k,
{
    lemma_fields_end(b, p, fields);
    if k < fields.len() {
        lemma_fields(b, p, fields, fields.len(), k);
        let at = p + fields_form(fields, k).len();
        let (id, d) = fields[k as int];
        let e = at + field_head(id_before(fields, k as int), id, ctype_of(d)).len();
        lemma_dict_field(b, e, id, d, dict_after(acc, fields, k));
        lemma_dict(b, p, fields, acc, k + 1);
    }
}

/// Whether a field of a version 2 data page header has the type that goes with its id.
pub open spec fn v2_takes(id: i16, d: Datum) -> bool {
    &&& (id == 1 || id == 2 || id == 4 || id == 5 || id == 6) ==> d is I32
    &&& id == 7 ==> d is Truth
}

/// Whether the fields make up a version 2 data page header.
pub open spec fn v2_fields_ok(fields: Seq<(i16, Datum)>) -> bool {
    forall|i: int|
        0 <= i < fields.len() ==> v2_takes((#[trigger] fields[i]).0, fields[i].1) && datum_ok(
            fields[i].1,
        )
}

/// A version 2 data page header with one more field.
pub open spec fn v2_with(acc: PageHeader, f: (i16, Datum)) -> PageHeader {
    if f.0 == 1 {
        PageHeader { v2_num_values: f.1->I32_0, ..acc }
    } else if f.0 == 2 {
        PageHeader { v2_num_nulls: f.1->I32_0, ..acc }
    } else if f.0 == 4 {
        PageHeader { v2_encoding: f.1->I32_0, ..acc }
    } else if f.0 == 5 {
        PageHeader { v2_def_len: f.1->I32_0, ..acc }
    } else if f.0 == 6 {
        PageHeader { v2_rep_len: f.1->I32_0, ..acc }
    } else if f.0 == 7 {
        PageHeader { v2_is_compressed: f.1->Truth_0, ..acc }
    } else {
        acc
    }
}

/// A version 2 data page header with its first `k` fields.
pub open spec fn v2_after(acc: PageHeader, fields: Seq<(i16, Datum)>, k: nat) -> PageHeader
    decreases k,
{
    if k == 0 {
        acc
    } else {
        v2_with(v2_after(acc, fields, (k - 1) as nat), fields[k - 1])
    }
}

proof fn lemma_v2_field(b: Seq<u8>, e: int, id: i16, d: Datum, acc: PageHeader)
    requires
        stands(b, e, datum_form(d)),
        v2_takes(id, d),
        datum_ok(d),
        b.len() <= usize::MAX,
    ensures
        v2_header_field_at(b, e, field_of(id, ctype_of(d)), acc) == Ok::<(PageHeader, int), PqErrorView>(
            (v2_with(acc, (id, d)), e + datum_form(d).len()),
        ),
{
    match d {
        Datum::I32(n) => {
            lemma_ivarint_stands(b, e, n as i64);
        },
        _ => {},
    }
    law_skip(b, e, d);
}

proof fn lemma_v2(b: Seq<u8>, p: int, fields: Seq<(i16, Datum)>, acc: PageHeader, k: nat)
    requires
        stands(b, p, datum_form(Datum::Struct(fields))),
        k <= fields.len(),
        v2_fields_ok(fields),
        b.len() <= usize::MAX,
    ensures
        v2_header_fields_at(
            b,
            p + fields_form(fields, k).len(),
            id_before(fields, k as int),
            v2_after(acc, fields, k),
        ) == Ok::<(PageHeader, int), PqErrorView>(
            (v2_after(acc, fields, fields.len()), p + datum_form(Datum::Struct(fields)).len()),
        ),
    decreases fields.len() - k,
{
    lemma_fields_end(b, p, fields);
    if k < fields.len() {
        lemma_fields(b, p, fields, fields.len(), k);
        let at = p + fields_form(fields, k).len();
        let (id, d) = fields[k as int];
        let e = at + field_head(id_before(fields, k as int), id, ctype_of(d)).len();
        lemma_v2_field(b, e, id, d, v2_after(acc, fields, k));
        lemma_v2(b, p, fields, acc, k + 1);
    }
}

/// Whether a field of a page header has the type that goes with its id.
pub open spec fn header_takes(id: i16, d: Datum) -> bool {
    &&& (id == 1 || id == 2 || id == 3) ==> d is I32
    &&& id == 5 ==> d is Struct && data_fields_ok(d->Struct_0)
    &&& id == 7 ==> d is Struct && dict_fields_ok(d->Struct_0)
    &&& id == 8 ==> d is Struct && v2_fields_ok(d->Struct_0)
}

/// Whether the fields make up a page header.
pub open spec fn header_fields_ok(fields: Seq<(i16, Datum)>) -> bool {
    forall|i: int|
        0 <= i < fields.len() ==> header_takes((#[trigger] fields[i]).0, fields[i].1) && datum_ok(
            fields[i].1,
        )
}

/// A page header with one more field.
pub open spec fn header_with(acc: PageHeader, f: (i16, Datum)) -> PageHeader {
    if f.0 == 1 {
        PageHeader { page_type: f.1->I32_0, ..acc }
    } else if f.0 == 2 {
        PageHeader { uncompressed_size: f.1->I32_0, ..acc }
    } else if f.0 == 3 {
        PageHeader { compressed_size: f.1->I32_0, ..acc }
    } else if f.0 == 5 {
        data_after(acc, f.1->Struct_0, f.1->Struct_0.len())
    } else if f.0 == 7 {
        dict_after(acc, f.1->Struct_0, f.1->Struct_0.len())
    } else if f.0 == 8 {
        v2_after(acc, f.1->Struct_0, f.1->Struct_0.len())
    } else {
        acc
    }
}

/// A page header with its first `k` fields.
pub open spec fn header_after(acc: PageHeader, fields: Seq<(i16, Datum)>, k: nat) -> PageHeader
    decreases k,
{
    if k == 0 {
        acc
    } else {
        header_with(header_after(acc, fields, (k - 1) as nat), fields[k - 1])
    }
}

proof fn lemma_header_field(b: Seq<u8>, e: int, id: i16, d: Datum, acc: PageHeader)
    requires
        stands(b, e, datum_form(d)),
        header_takes(id, d),
        datum_ok(d),
        b.len() <= usize::MAX,
    ensures
        header_field_at(b, e, field_of(id, ctype_of(d)), acc) == Ok::<(PageHeader, int), PqErrorView>(
            (header_with(acc, (id, d)), e + datum_form(d).len()),
        ),
{
    match d {
        Datum::I32(n) => {
            lemma_ivarint_stands(b, e, n as i64);
        },
        Datum::Struct(inner) => {
            if id == 5 {
                lemma_data(b, e, inner, acc, 0);
            } else if id == 7 {
                lemma_dict(b, e, inner, acc, 0);
            } else if id == 8 {
                lemma_v2(b, e, inner, acc, 0);
            }
        },
        _ => {},
    }
    law_skip(b, e, d);
}

proof fn lemma_header(b: Seq<u8>, p: int, fields: Seq<(i16, Datum)>, acc: PageHeader, k: nat)
    requires
        stands(b, p, datum_form(Datum::Struct(fields))),
        k <= fields.len(),
        header_fields_ok(fields),
        b.len() <= usize::MAX,
    ensures
        header_fields_at(
            b,
            p + fields_form(fields, k).len(),
            id_before(fields, k as int),
            header_after(acc, fields, k),
        ) == Ok::<(PageHeader, int), PqErrorView>(
            (header_after(acc, fields, fields.len()), p + datum_form(Datum::Struct(fields)).len()),
        ),
    decreases fields.len() - k,
{
    lemma_fields_end(b, p, fields);
    if k < fields.len() {
        lemma_fields(b, p, fields, fields.len(), k);
        let at = p + fields_form(fields, k).len();
        let (id, d) = fields[k as int];
        let e = at + field_head(id_before(fields, k as int), id, ctype_of(d)).len();
        lemma_header_field(b, e, id, d, header_after(acc, fields, k));
        lemma_header(b, p, fields, acc, k + 1);
    }
}

/// A page header is read as its fields say, in whatever order they stand, whatever fields without
/// a meaning stand between them and whatever follows; it ends where its bytes end.
pub proof fn law_page_header(fields: Seq<(i16, Datum)>, after: Seq<u8>)
    requires
        header_fields_ok(fields),
        datum_form(Datum::Struct(fields)).len() + after.len() <= usize::MAX,
    ensures
        page_header_of(datum_form(Datum::Struct(fields)) + after) == Ok::<
            (PageHeader, int),
            PqErrorView,
        >(
            (
                header_after(blank_header(), fields, fields.len()),
                datum_form(Datum::Struct(fields)).len() as int,
            ),
        ),
{
    reveal(page_header_of);
    let s = datum_form(Datum::Struct(fields));
    assert((s + after).subrange(0, s.len() as int) =~= s);
    lemma_header(s + after, 0, fields, blank_header(), 0);
}

} // verus!
