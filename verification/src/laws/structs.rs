//! Structs in lists and maps: their fields, stored column by column, give them back.
use vstd::prelude::*;

use crate::assembly::{
    assembled, cell, columns_error, elements_at, entries_at, item_at, items_error, keys_error,
    names_error, next_start, node_at, presents, records_at, struct_row, Items, Parts, Shape,
};
use crate::error::PqErrorView;
use crate::laws::nesting::{conforms, items_from, law_nested, parts_of, shape_ok};
use crate::value::PqV;

verus! {


/// Field number `f` of each of the structs.
pub open spec fn field_of_each(items: Seq<PqV>, f: int) -> Seq<PqV> {
    items.map_values(|v: PqV| v->Struct_0[f].1)
}

/// Structs taken apart, a column for each field.
pub open spec fn columns_of_structs(items: Seq<PqV>, n: nat) -> Seq<Seq<PqV>> {
    Seq::new(n, |f: int| field_of_each(items, f))
}

/// Whether a value is a struct with the names.
pub open spec fn named_struct(v: PqV, names: Seq<Seq<char>>) -> bool {
    v matches PqV::Struct(fields) && fields.len() == names.len() && forall|f: int|
        0 <= f < names.len() ==> (#[trigger] fields[f]).0 == names[f]
}

proof fn lemma_presents(s: Shape, def: Seq<u32>, i: int, n: int)
    requires
        0 <= i < n <= def.len(),
    ensures
        0 <= presents(s, def, i) <= presents(s, def, n),
        cell(s, def[i] as int) is Present ==> presents(s, def, i) < presents(s, def, n),
    decreases n,
{
    if i + 1 < n {
        lemma_presents(s, def, i, n - 1);
    } else if i > 0 {
        lemma_presents(s, def, i - 1, i);
    }
}

/// Whether the two differ only in where their items come from, and agree on each of them.
spec fn same_items(p: Parts, q: Parts) -> bool {
    &&& p.shape == q.shape
    &&& p.rep == q.rep
    &&& p.def == q.def
    &&& p.keys == q.keys
    &&& forall|i: int| 0 <= i < p.rep.len() ==> #[trigger] item_at(p, i) == item_at(q, i)
}

proof fn lemma_same_node(p: Parts, q: Parts, k: int, a: int, b: int)
    requires
        same_items(p, q),
        0 <= a < b <= p.rep.len(),
        k >= 0,
    ensures
        node_at(p, k, a, b) == node_at(q, k, a, b),
    decreases p.shape.opts.len() - k, 1int, 0int,
{
    if k < p.shape.opts.len() {
        lemma_same_elements(p, q, k, a, b);
    } else {
        assert(item_at(p, a) == item_at(q, a));
    }
}

proof fn lemma_same_elements(p: Parts, q: Parts, k: int, a: int, b: int)
    requires
        same_items(p, q),
        0 <= a <= b <= p.rep.len(),
        k >= 0,
    ensures
        elements_at(p, k, a, b) == elements_at(q, k, a, b),
        entries_at(p, k, a, b) == entries_at(q, k, a, b),
    decreases p.shape.opts.len() - k, 0int, b - a,
{
    let e = next_start(p.rep, k + 1, a, b);
    if !(a >= b || k >= p.shape.opts.len() || !(a < e <= b)) {
        lemma_same_node(p, q, k + 1, a, e);
        lemma_same_elements(p, q, k, e, b);
    }
}

proof fn lemma_same_records(p: Parts, q: Parts, a: int)
    requires
        same_items(p, q),
        0 <= a,
    ensures
        records_at(p, a) == records_at(q, a),
    decreases p.rep.len() - a,
{
    let e = next_start(p.rep, 0, a, p.rep.len() as int);
    if !(a >= p.rep.len() || !(a < e <= p.rep.len())) {
        lemma_same_node(p, q, 0, a, e);
        lemma_same_records(p, q, e);
    }
}

proof fn lemma_same_keys(p: Parts, q: Parts, k: int)
    requires
        p.shape == q.shape,
        p.rep == q.rep,
        p.def == q.def,
        p.keys == q.keys,
    ensures
        keys_error(p, k) == keys_error(q, k),
    decreases p.shape.opts.len() - k,
{
    if 0 <= k < p.shape.opts.len() {
        lemma_same_keys(p, q, k + 1);
    }
}

pub proof fn lemma_columns_fit(columns: Seq<Seq<PqV>>, n: int, f: int)
    requires
        0 <= f,
        forall|i: int| 0 <= i < columns.len() ==> (#[trigger] columns[i]).len() == n,
    ensures
        columns_error(columns, n, f) is None,
    decreases columns.len() - f,
{
    if f < columns.len() {
        assert(columns[f].len() == n);
        lemma_columns_fit(columns, n, f + 1);
    }
}

/// Records of lists and maps of structs, nested to any depth, are put together from the columns of
/// the structs' fields: each struct comes out where it was, with its fields in their order.
pub proof fn law_structs(s: Shape, rs: Seq<PqV>, names: Seq<Seq<char>>)
    requires
        shape_ok(s),
        s.opts.len() <= u32::MAX,
        forall|i: int| 0 <= i < rs.len() ==> conforms(s, 0, #[trigger] rs[i]),
        names.len() > 0,
        forall|i: int|
            0 <= i < items_from(s, rs, 0).len() ==> named_struct(
                #[trigger] items_from(s, rs, 0)[i],
                names,
            ),
    ensures
        assembled(
            Parts {
                items: Items::Fields {
                    names,
                    columns: columns_of_structs(items_from(s, rs, 0), names.len()),
                },
                ..parts_of(s, rs)
            },
        ) == Ok::<Seq<PqV>, PqErrorView>(rs),
{
    law_nested(s, rs);
    let q = parts_of(s, rs);
    let items = items_from(s, rs, 0);
    let columns = columns_of_structs(items, names.len());
    let p = Parts { items: Items::Fields { names, columns }, ..q };
    let n = presents(s, q.def, q.rep.len() as int);
    assert(items_error(q) is None);
    assert(n == items.len());
    lemma_columns_fit(columns, n, 0);
    assert(names_error(names, columns) is None);
    lemma_same_keys(p, q, 0);
    assert forall|i: int| 0 <= i < p.rep.len() implies #[trigger] item_at(p, i) == item_at(q, i) by {
        if cell(s, q.def[i] as int) is Present {
            lemma_presents(s, q.def, i, q.rep.len() as int);
            let j = presents(s, q.def, i);
            assert(named_struct(items[j], names));
            assert(struct_row(names, columns, j) =~= items[j]->Struct_0) by {
                assert forall|f: int| 0 <= f < names.len() implies #[trigger] struct_row(
                    names,
                    columns,
                    j,
                )[f] == items[j]->Struct_0[f] by {
                    assert(columns[f][j] == items[j]->Struct_0[f].1);
                }
            }
        }
    }
    lemma_same_records(p, q, 0);
}

} // verus!
