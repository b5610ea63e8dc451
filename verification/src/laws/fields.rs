//! Records in the compact protocol: numbers, byte strings, lists and structs.
use vstd::prelude::*;

use crate::error::PqErrorView;
use crate::laws::numbers::{
    law_le, law_varint, law_zigzag_varint, le_form, varint_form, zigzag_form,
};
use crate::thrift::{
    binary_at, ctype, field_at, field_of, ivarint_at, list_header_at, skip_at, skip_fields_at,
    skip_many_at, uvarint_at, Field,
};

verus! {

/// A value of a record. A struct is a list of fields, each with its id.
pub enum Datum {
    Truth(bool),
    I32(i32),
    I64(i64),
    Double(u64),
    Binary(Seq<u8>),
    List { elements: u8, items: Seq<Datum> },
    Struct(Seq<(i16, Datum)>),
}

/// The type code of a value.
pub open spec fn ctype_of(d: Datum) -> u8 {
    match d {
        Datum::Truth(b) => if b {
            ctype::BOOL_TRUE
        } else {
            ctype::BOOL_FALSE
        },
        Datum::I32(_) => ctype::I32,
        Datum::I64(_) => ctype::I64,
        Datum::Double(_) => ctype::DOUBLE,
        Datum::Binary(_) => ctype::BINARY,
        Datum::List { .. } => ctype::LIST,
        Datum::Struct(_) => ctype::STRUCT,
    }
}

/// How the head of a field is written: the step from the id before it where that is short, else the
/// whole id.
pub open spec fn field_head(last: i16, id: i16, ct: u8) -> Seq<u8> {
    if 0 < id - last <= 15 {
        seq![((id - last) * 16 + ct) as u8]
    } else {
        seq![ct] + varint_form(zigzag_form(id as i64) as nat)
    }
}

/// How the head of a list is written.
pub open spec fn list_head(elements: u8, n: nat) -> Seq<u8> {
    if n < 15 {
        seq![(n * 16 + elements) as u8]
    } else {
        seq![(240 + elements) as u8] + varint_form(n)
    }
}

/// How a value is written. A truth value stands in its type code.
pub open spec fn datum_form(d: Datum) -> Seq<u8>
    decreases d,
{
    match d {
        Datum::Truth(_) => seq![],
        Datum::I32(n) => varint_form(zigzag_form(n as i64) as nat),
        Datum::I64(n) => varint_form(zigzag_form(n) as nat),
        Datum::Double(n) => le_form(n as nat, 8),
        Datum::Binary(s) => varint_form(s.len()) + s,
        Datum::List { elements, items } => list_head(elements, items.len()) + items_form(
            items,
            items.len(),
        ),
        Datum::Struct(fields) => fields_form(fields, fields.len()) + seq![0u8],
    }
}

/// How the first `k` items of a list are written.
pub open spec fn items_form(items: Seq<Datum>, k: nat) -> Seq<u8>
    decreases items, k,
    when k <= items.len()
{
    if k == 0 {
        seq![]
    } else {
        items_form(items, (k - 1) as nat) + datum_form(items[k - 1])
    }
}

/// The id before field number `k`.
pub open spec fn id_before(fields: Seq<(i16, Datum)>, k: int) -> i16 {
    if k <= 0 {
        0
    } else {
        fields[k - 1].0
    }
}

/// How the first `k` fields of a struct are written.
pub open spec fn fields_form(fields: Seq<(i16, Datum)>, k: nat) -> Seq<u8>
    decreases fields, k,
    when k <= fields.len()
{
    if k == 0 {
        seq![]
    } else {
        fields_form(fields, (k - 1) as nat) + field_head(
            id_before(fields, k - 1),
            fields[k - 1].0,
            ctype_of(fields[k - 1].1),
        ) + datum_form(fields[k - 1].1)
    }
}

/// Whether a value can be written: a list holds items of its element type, which is not a truth
/// value, and no length is above what an address can hold.
pub open spec fn datum_ok(d: Datum) -> bool
    decreases d,
{
    match d {
        Datum::Binary(s) => s.len() <= usize::MAX,
        Datum::List { elements, items } => items.len() <= usize::MAX && elements
            != ctype::BOOL_TRUE && elements != ctype::BOOL_FALSE && elements < 16 && (forall|i: int|
            0 <= i < items.len() ==> ctype_of(#[trigger] items[i]) == elements && datum_ok(
                items[i],
            )),
        Datum::Struct(fields) => forall|i: int|
            0 <= i < fields.len() ==> datum_ok((#[trigger] fields[i]).1),
        _ => true,
    }
}

/// Whether `s` stands at position `p` of the bytes.
pub open spec fn stands(b: Seq<u8>, p: int, s: Seq<u8>) -> bool {
    0 <= p && p + s.len() <= b.len() && b.subrange(p, p + s.len()) == s
}

pub proof fn lemma_stands(b: Seq<u8>, p: int, x: Seq<u8>, y: Seq<u8>)
    requires
        stands(b, p, x + y),
    ensures
        stands(b, p, x),
        stands(b, p + x.len(), y),
{
    let s = b.subrange(p, p + (x + y).len());
    assert(b.subrange(p, p + x.len()) =~= x) by {
        assert forall|i: int| 0 <= i < x.len() implies b[p + i] == x[i] by {
            assert(s[i] == (x + y)[i]);
        }
    }
    assert(b.subrange(p + x.len(), p + x.len() + y.len()) =~= y) by {
        assert forall|i: int| 0 <= i < y.len() implies b[p + x.len() + i] == y[i] by {
            assert(s[x.len() + i] == (x + y)[x.len() + i]);
        }
    }
}

pub proof fn lemma_stands_whole(b: Seq<u8>, p: int, s: Seq<u8>)
    requires
        stands(b, p, s),
    ensures
        b == b.take(p) + s + b.skip(p + s.len()),
        forall|i: int| 0 <= i < s.len() ==> b[p + i] == #[trigger] s[i],
{
    assert forall|i: int| 0 <= i < s.len() implies b[p + i] == #[trigger] s[i] by {
        assert(b.subrange(p, p + s.len())[i] == b[p + i]);
    }
    assert(b =~= b.take(p) + s + b.skip(p + s.len()));
}

pub proof fn lemma_uvarint_stands(b: Seq<u8>, p: int, n: u64)
    requires
        stands(b, p, varint_form(n as nat)),
    ensures
        uvarint_at(b, p) == Ok::<(u64, int), PqErrorView>(
            (n, p + varint_form(n as nat).len()),
        ),
{
    lemma_stands_whole(b, p, varint_form(n as nat));
    law_varint(n, b.take(p), b.skip(p + varint_form(n as nat).len()));
}

pub proof fn lemma_ivarint_stands(b: Seq<u8>, p: int, v: i64)
    requires
        stands(b, p, varint_form(zigzag_form(v) as nat)),
    ensures
        ivarint_at(b, p) == Ok::<(i64, int), PqErrorView>(
            (v, p + varint_form(zigzag_form(v) as nat).len()),
        ),
{
    let s = varint_form(zigzag_form(v) as nat);
    lemma_stands_whole(b, p, s);
    law_zigzag_varint(v, b.take(p), b.skip(p + s.len()));
}

proof fn lemma_code(d: Datum)
    ensures
        0 < ctype_of(d) < 16,
{
}

/// The head of a field is read as what was written.
pub proof fn law_field_head(b: Seq<u8>, p: int, last: i16, id: i16, ct: u8)
    requires
        stands(b, p, field_head(last, id, ct)),
        0 < ct < 16,
    ensures
        field_at(b, p, last) == Ok::<(Option<Field>, int), PqErrorView>(
            (Some(field_of(id, ct)), p + field_head(last, id, ct).len()),
        ),
{
    let s = field_head(last, id, ct);
    lemma_stands_whole(b, p, s);
    assert(b[p] == s[0]);
    if 0 < id - last <= 15 {
        let h = ((id - last) * 16 + ct) as u8;
        assert(h == (id - last) * 16 + ct);
        assert(h / 16 == id - last && h % 16 == ct);
    } else {
        assert(ct / 16 == 0 && ct % 16 == ct);
        lemma_stands(b, p, seq![ct], varint_form(zigzag_form(id as i64) as nat));
        lemma_ivarint_stands(b, p + 1, id as i64);
    }
}

/// The head of a list is read as what was written.
pub proof fn law_list_head(b: Seq<u8>, p: int, elements: u8, n: nat)
    requires
        stands(b, p, list_head(elements, n)),
        elements < 16,
        n <= usize::MAX,
    ensures
        list_header_at(b, p) == Ok::<((u8, usize), int), PqErrorView>(
            ((elements, n as usize), p + list_head(elements, n).len()),
        ),
{
    let s = list_head(elements, n);
    lemma_stands_whole(b, p, s);
    assert(b[p] == s[0]);
    if n < 15 {
        let h = (n * 16 + elements) as u8;
        assert(h == n * 16 + elements);
        assert(h / 16 == n && h % 16 == elements);
    } else {
        let h = (240 + elements) as u8;
        assert(h / 16 == 15 && h % 16 == elements);
        lemma_stands(b, p, seq![h], varint_form(n));
        lemma_uvarint_stands(b, p + 1, n as u64);
    }
}

/// A byte string is read as what was written.
pub proof fn law_binary(b: Seq<u8>, p: int, s: Seq<u8>, range: Seq<char>)
    requires
        stands(b, p, varint_form(s.len()) + s),
        b.len() <= usize::MAX,
    ensures
        binary_at(b, p, range) == Ok::<(Seq<u8>, int), PqErrorView>(
            (s, p + (varint_form(s.len()) + s).len()),
        ),
{
    lemma_stands(b, p, varint_form(s.len()), s);
    lemma_uvarint_stands(b, p, s.len() as u64);
}

pub proof fn lemma_items(b: Seq<u8>, p: int, items: Seq<Datum>, n: nat, k: nat)
    requires
        stands(b, p, items_form(items, n)),
        k < n <= items.len(),
    ensures
        stands(b, p + items_form(items, k).len(), datum_form(items[k as int])),
        items_form(items, k + 1).len() == items_form(items, k).len() + datum_form(
            items[k as int],
        ).len(),
    decreases n,
{
    lemma_stands(b, p, items_form(items, (n - 1) as nat), datum_form(items[n - 1]));
    if k + 1 < n {
        lemma_items(b, p, items, (n - 1) as nat, k);
    }
}

/// Field number `k` of a struct: its head and its value.
pub proof fn lemma_fields(b: Seq<u8>, p: int, fields: Seq<(i16, Datum)>, n: nat, k: nat)
    requires
        stands(b, p, fields_form(fields, n)),
        k < n <= fields.len(),
    ensures
        ({
            let at = p + fields_form(fields, k).len();
            let (id, d) = fields[k as int];
            let e = at + field_head(id_before(fields, k as int), id, ctype_of(d)).len();
            &&& field_at(b, at, id_before(fields, k as int)) == Ok::<
                (Option<Field>, int),
                PqErrorView,
            >((Some(field_of(id, ctype_of(d))), e))
            &&& stands(b, e, datum_form(d))
            &&& p + fields_form(fields, (k + 1) as nat).len() == e + datum_form(d).len()
        }),
    decreases n,
{
    let j = (n - 1) as nat;
    let (id, d) = fields[j as int];
    let head = field_head(id_before(fields, j as int), id, ctype_of(d));
    lemma_stands(b, p, fields_form(fields, j) + head, datum_form(d));
    lemma_stands(b, p, fields_form(fields, j), head);
    if k == j {
        lemma_code(d);
        law_field_head(b, p + fields_form(fields, j).len(), id_before(fields, j as int), id, ctype_of(d));
    } else {
        lemma_fields(b, p, fields, j, k);
    }
}

/// The end of a struct.
pub proof fn lemma_fields_end(b: Seq<u8>, p: int, fields: Seq<(i16, Datum)>)
    requires
        stands(b, p, datum_form(Datum::Struct(fields))),
    ensures
        stands(b, p, fields_form(fields, fields.len())),
        field_at(
            b,
            p + fields_form(fields, fields.len()).len(),
            id_before(fields, fields.len() as int),
        ) == Ok::<(Option<Field>, int), PqErrorView>(
            (None, p + datum_form(Datum::Struct(fields)).len()),
        ),
{
    let s = fields_form(fields, fields.len());
    lemma_stands(b, p, s, seq![0u8]);
    lemma_stands_whole(b, p + s.len(), seq![0u8]);
    assert(b[p + s.len() + 0] == seq![0u8][0]);
}

/// To skip a value is to pass over exactly the bytes it is written in.
pub proof fn law_skip(b: Seq<u8>, p: int, d: Datum)
    requires
        stands(b, p, datum_form(d)),
        datum_ok(d),
        b.len() <= usize::MAX,
    ensures
        skip_at(b, p, ctype_of(d)) == Ok::<int, PqErrorView>(p + datum_form(d).len()),
    decreases d,
{
    match d {
        Datum::Truth(_) => {},
        Datum::I32(n) => {
            lemma_uvarint_stands(b, p, zigzag_form(n as i64));
        },
        Datum::I64(n) => {
            lemma_uvarint_stands(b, p, zigzag_form(n));
        },
        Datum::Double(n) => {
            law_le(n as nat, 8);
        },
        Datum::Binary(s) => {
            law_binary(b, p, s, "skip bin len"@);
        },
        Datum::List { elements, items } => {
            lemma_stands(
                b,
                p,
                list_head(elements, items.len()),
                items_form(items, items.len()),
            );
            law_list_head(b, p, elements, items.len());
            lemma_skip_items(b, p + list_head(elements, items.len()).len(), elements, items, 0);
        },
        Datum::Struct(fields) => {
            lemma_fields_end(b, p, fields);
            lemma_skip_fields(b, p, fields, 0);
        },
    }
}

proof fn lemma_skip_items(b: Seq<u8>, p: int, elements: u8, items: Seq<Datum>, k: nat)
    requires
        stands(b, p, items_form(items, items.len())),
        k <= items.len(),
        forall|i: int|
            0 <= i < items.len() ==> ctype_of(#[trigger] items[i]) == elements && datum_ok(items[i]),
        b.len() <= usize::MAX,
    ensures
        skip_many_at(b, p + items_form(items, k).len(), elements, (items.len() - k) as nat) == Ok::<
            int,
            PqErrorView,
        >(p + items_form(items, items.len()).len()),
    decreases items, items.len() - k,
{
    if k < items.len() {
        lemma_items(b, p, items, items.len(), k);
        law_skip(b, p + items_form(items, k).len(), items[k as int]);
        lemma_skip_items(b, p, elements, items, k + 1);
    }
}

proof fn lemma_skip_fields(b: Seq<u8>, p: int, fields: Seq<(i16, Datum)>, k: nat)
    requires
        stands(b, p, datum_form(Datum::Struct(fields))),
        k <= fields.len(),
        forall|i: int| 0 <= i < fields.len() ==> datum_ok((#[trigger] fields[i]).1),
        b.len() <= usize::MAX,
    ensures
        skip_fields_at(b, p + fields_form(fields, k).len(), id_before(fields, k as int)) == Ok::<
            int,
            PqErrorView,
        >(p + datum_form(Datum::Struct(fields)).len()),
    decreases fields, fields.len() - k,
{
    lemma_fields_end(b, p, fields);
    if k < fields.len() {
        lemma_fields(b, p, fields, fields.len(), k);
        let at = p + fields_form(fields, k).len();
        let (id, d) = fields[k as int];
        let e = at + field_head(id_before(fields, k as int), id, ctype_of(d)).len();
        law_skip(b, e, d);
        lemma_skip_fields(b, p, fields, k + 1);
    }
}

} // verus!
