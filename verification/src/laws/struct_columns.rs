//! Columns of structs, and of lists and maps of structs: the leaves give back the records.
use vstd::prelude::*;

use crate::assembly::{
    all_null, cell_from, clamped, first_error, items_error, names_error, presents, struct_row,
    struct_rows, Shape,
};
use crate::chunk::chunk_levels;
use crate::classify::level;
use crate::error::PqErrorView;
use crate::laws::lists::{lemma_no_keys_in, records_ok};
use crate::laws::nesting::{
    base, defs_from, items_from, keys_from, law_nested, parts_of, reps_from,
};
use crate::laws::structs::{columns_of_structs, law_structs, lemma_columns_fit, named_struct};
use crate::meta::{ColumnChunkView, RowGroupView};
use crate::nested::{
    field_column, field_columns, field_names, leaf_fields, list_of_struct_column,
    list_of_struct_words, located, map_of_struct_column, map_of_struct_key_words,
    map_of_struct_words, slots, struct_column, struct_level, FieldWords,
};
use crate::page::{at_max, Levels};
use crate::plain::PlainSpec;
use crate::plan::FieldView;
use crate::schema::Type;
use crate::value::PqV;

verus! {

/// The definition levels of a field's leaf, where `defs` are those of the structs around it, which
/// are there at the level `inner`: the field has a value at the level `max`.
pub open spec fn field_defs(defs: Seq<u32>, inner: u32, max: u32, column: Seq<PqV>) -> Seq<u32>
    decreases defs.len(),
{
    if defs.len() == 0 {
        seq![]
    } else if defs.last() < inner {
        field_defs(defs.drop_last(), inner, max, column).push(defs.last())
    } else {
        field_defs(defs.drop_last(), inner, max, column.drop_last()).push(
            if column.last() == PqV::Null {
                inner
            } else {
                max
            },
        )
    }
}

/// The values that are there.
pub open spec fn present(column: Seq<PqV>) -> Seq<PqV>
    decreases column.len(),
{
    if column.len() == 0 {
        seq![]
    } else if column.last() == PqV::Null {
        present(column.drop_last())
    } else {
        present(column.drop_last()).push(column.last())
    }
}

/// Whether a field whose values stand at the level `max` can hold the column: a field that is there
/// in every struct has no nulls.
pub open spec fn holds_column(inner: u32, max: u32, column: Seq<PqV>) -> bool {
    &&& inner <= max
    &&& inner == max ==> forall|j: int| 0 <= j < column.len() ==> #[trigger] column[j] != PqV::Null
}

proof fn lemma_field_slots(
    defs: Seq<u32>,
    inner: u32,
    max: u32,
    column: Seq<PqV>,
    vals: Seq<PqV>,
)
    requires
        forall|i: int| 0 <= i < defs.len() ==> #[trigger] defs[i] <= inner,
        column.len() == at_max(defs, inner),
        holds_column(inner, max, column),
        present(column).is_prefix_of(vals),
    ensures
        field_defs(defs, inner, max, column).len() == defs.len(),
        at_max(field_defs(defs, inner, max, column), max) == present(column).len(),
        slots(field_defs(defs, inner, max, column), inner, max, vals) == column,
        clamped(field_defs(defs, inner, max, column), inner) == defs,
    decreases defs.len(),
{
    let fd = field_defs(defs, inner, max, column);
    if defs.len() == 0 {
        assert(column =~= seq![]);
        assert(clamped(fd, inner) =~= defs);
    } else {
        let front = defs.drop_last();
        let c = if defs.last() < inner {
            column
        } else {
            column.drop_last()
        };
        assert forall|i: int| 0 <= i < front.len() implies #[trigger] front[i] <= inner by {
            assert(front[i] == defs[i]);
        }
        assert(holds_column(inner, max, c)) by {
            if inner == max {
                assert forall|j: int| 0 <= j < c.len() implies #[trigger] c[j] != PqV::Null by {
                    assert(c[j] == column[j]);
                }
            }
        }
        assert(defs.last() == defs[defs.len() - 1]);
        if defs.last() >= inner {
            assert(column.last() == column[column.len() - 1]);
        }
        lemma_field_slots(front, inner, max, c, vals);
        let before = field_defs(front, inner, max, c);
        assert(fd.drop_last() =~= before);
        assert(clamped(fd, inner) =~= clamped(before, inner).push(defs.last()));
        assert(defs =~= front.push(defs.last()));
        if defs.last() >= inner {
            assert(column =~= c.push(column.last()));
            if column.last() != PqV::Null {
                let all = present(column);
                assert(all == present(c).push(column.last()));
                assert(vals.subrange(0, all.len() as int)[present(c).len() as int] == column.last());
            }
        }
        assert(slots(fd, inner, max, vals) =~= column);
    }
}

/// Whether the leaf of each field stores its column beside the levels of the structs.
pub open spec fn fields_stored(
    file: Seq<u8>,
    g: RowGroupView,
    fields: Seq<FieldView>,
    w: FieldWords,
    chunks: Seq<ColumnChunkView>,
    inner: u32,
    reps: Seq<u32>,
    defs: Seq<u32>,
    columns: Seq<Seq<PqV>>,
    cap: int,
) -> bool {
    forall|f: int|
        #![trigger fields[f]]
        0 <= f < fields.len() ==> {
            let field = fields[f];
            let max = field.max_def_level;
            &&& located(g, field.chunk_path, field.ptype, w.chunk) == Ok::<
                ColumnChunkView,
                PqErrorView,
            >(chunks[f])
            &&& struct_level(field) == inner
            &&& holds_column(inner, max, columns[f])
            &&& chunk_levels(file, chunks[f], field.spec, max, 1, cap) == Ok::<Levels, PqErrorView>(
                (reps, field_defs(defs, inner, max, columns[f]), present(columns[f])),
            )
        }
}

proof fn lemma_fields_stored(
    file: Seq<u8>,
    g: RowGroupView,
    fields: Seq<FieldView>,
    w: FieldWords,
    chunks: Seq<ColumnChunkView>,
    inner: u32,
    reps: Seq<u32>,
    defs: Seq<u32>,
    columns: Seq<Seq<PqV>>,
    cap: int,
    k: nat,
)
    requires
        fields_stored(file, g, fields, w, chunks, inner, reps, defs, columns, cap),
        forall|i: int| 0 <= i < defs.len() ==> #[trigger] defs[i] <= inner,
        columns.len() == fields.len(),
        forall|f: int|
            0 <= f < columns.len() ==> (#[trigger] columns[f]).len() == at_max(defs, inner),
        k <= fields.len(),
    ensures
        leaf_fields(file, g, fields, k, w, cap) matches Ok((r, d, c)) && c == columns.take(
            k as int,
        ) && (k > 0 ==> r == reps && clamped(d, inner) == defs),
    decreases k,
{
    if k == 0 {
        assert(columns.take(0) =~= seq![]);
    } else {
        lemma_fields_stored(
            file,
            g,
            fields,
            w,
            chunks,
            inner,
            reps,
            defs,
            columns,
            cap,
            (k - 1) as nat,
        );
        let f = k - 1;
        let field = fields[f];
        assert(columns[f].len() == at_max(defs, inner));
        lemma_field_slots(defs, inner, field.max_def_level, columns[f], present(columns[f]));
        assert(columns.take(f).push(columns[f]) =~= columns.take(k as int));
    }
}

proof fn lemma_levels_within(s: Shape, rep: Seq<u32>, def: Seq<u32>, i: int, j: int)
    requires
        0 <= i <= j < rep.len(),
        first_error(s, rep, def, i) is None,
    ensures
        def[j] <= s.max_def,
    decreases j - i,
{
    if i < j {
        lemma_levels_within(s, rep, def, i + 1, j);
    }
}

proof fn lemma_presents_at_max(s: Shape, def: Seq<u32>, n: nat)
    requires
        n <= def.len(),
        s.opts.len() == 1,
        s.max_def == level(s.opts[0]) + 1,
        forall|i: int| 0 <= i < def.len() ==> #[trigger] def[i] <= s.max_def,
    ensures
        presents(s, def, n as int) == at_max(def.take(n as int), s.max_def as u32),
    decreases n,
{
    if n > 0 {
        lemma_presents_at_max(s, def, (n - 1) as nat);
        assert(def.take(n as int).drop_last() =~= def.take(n - 1));
        reveal_with_fuel(cell_from, 3);
        assert(def[n - 1] <= s.max_def);
    }
}

/// What the levels of structs in a list or a map are.
proof fn lemma_struct_levels(s: Shape, rs: Seq<PqV>)
    requires
        records_ok(s, rs),
        s.opts.len() == 1,
        !s.item_optional,
    ensures
        s.max_def == level(s.opts[0]) + 1,
        forall|i: int|
            0 <= i < defs_from(s, rs, 0).len() ==> #[trigger] defs_from(s, rs, 0)[i] <= s.max_def,
        items_from(s, rs, 0).len() == at_max(defs_from(s, rs, 0), s.max_def as u32),
{
    law_nested(s, rs);
    reveal_with_fuel(base, 2);
    let p = parts_of(s, rs);
    assert forall|i: int| 0 <= i < p.def.len() implies #[trigger] p.def[i] <= s.max_def by {
        lemma_levels_within(s, p.rep, p.def, 0, i);
    }
    assert(items_error(p) is None);
    lemma_presents_at_max(s, p.def, p.def.len());
    assert(p.def.take(p.def.len() as int) =~= p.def);
}

/// Whether the records are lists or maps of structs with the names.
pub open spec fn struct_records_ok(s: Shape, rs: Seq<PqV>, names: Seq<Seq<char>>) -> bool {
    &&& records_ok(s, rs)
    &&& s.opts.len() == 1
    &&& !s.item_optional
    &&& names.len() > 0
    &&& forall|i: int|
        0 <= i < items_from(s, rs, 0).len() ==> named_struct(
            #[trigger] items_from(s, rs, 0)[i],
            names,
        )
}

proof fn lemma_struct_records(
    file: Seq<u8>,
    g: RowGroupView,
    fields: Seq<FieldView>,
    w: FieldWords,
    chunks: Seq<ColumnChunkView>,
    s: Shape,
    rs: Seq<PqV>,
    cap: int,
)
    requires
        struct_records_ok(s, rs, field_names(fields)),
        fields_stored(
            file,
            g,
            fields,
            w,
            chunks,
            s.max_def as u32,
            reps_from(s, rs, 0),
            defs_from(s, rs, 0),
            columns_of_structs(items_from(s, rs, 0), fields.len()),
            cap,
        ),
    ensures
        leaf_fields(file, g, fields, fields.len(), w, cap) matches Ok((r, d, c))
            && r == reps_from(s, rs, 0) && clamped(d, s.max_def as u32) == defs_from(s, rs, 0) && c
            == columns_of_structs(items_from(s, rs, 0), fields.len()),
{
    lemma_struct_levels(s, rs);
    let columns = columns_of_structs(items_from(s, rs, 0), fields.len());
    assert(field_names(fields).len() == fields.len());
    lemma_fields_stored(
        file,
        g,
        fields,
        w,
        chunks,
        s.max_def as u32,
        reps_from(s, rs, 0),
        defs_from(s, rs, 0),
        columns,
        cap,
        fields.len(),
    );
    assert(columns.take(fields.len() as int) =~= columns);
}

/// A column of lists of structs gives the records whose fields its leaves store: a field that may be
/// null is so in the structs in which it was.
pub proof fn law_list_of_struct_column(
    file: Seq<u8>,
    g: RowGroupView,
    fields: Seq<FieldView>,
    chunks: Seq<ColumnChunkView>,
    s: Shape,
    rs: Seq<PqV>,
    cap: int,
)
    requires
        struct_records_ok(s, rs, field_names(fields)),
        s.maps == seq![false],
        fields_stored(
            file,
            g,
            fields,
            list_of_struct_words(),
            chunks,
            s.max_def as u32,
            reps_from(s, rs, 0),
            defs_from(s, rs, 0),
            columns_of_structs(items_from(s, rs, 0), fields.len()),
            cap,
        ),
    ensures
        list_of_struct_column(file, g, fields, s.opts[0], s.max_def as u32, cap) == Ok::<
            Seq<PqV>,
            PqErrorView,
        >(rs),
{
    reveal(list_of_struct_column);
    let names = field_names(fields);
    assert(names.len() == fields.len());
    lemma_struct_records(file, g, fields, list_of_struct_words(), chunks, s, rs, cap);
    law_structs(s, rs, names);
    let p = parts_of(s, rs);
    assert(!s.maps[0]);
    lemma_no_keys_in(s, rs, 0, 0);
    assert(p.keys =~= seq![Seq::<PqV>::empty()]);
    assert(s.opts =~= seq![s.opts[0]]);
}

/// A column of maps to structs gives the records whose keys its key leaf stores, and whose fields its
/// other leaves store: a field that may be null is so in the structs in which it was.
pub proof fn law_map_of_struct_column(
    file: Seq<u8>,
    g: RowGroupView,
    key_path: Seq<Seq<char>>,
    key_spec: PlainSpec,
    key_ptype: Type,
    key: ColumnChunkView,
    key_defs: Seq<u32>,
    fields: Seq<FieldView>,
    chunks: Seq<ColumnChunkView>,
    s: Shape,
    rs: Seq<PqV>,
    cap: int,
)
    requires
        struct_records_ok(s, rs, field_names(fields)),
        s.maps == seq![true],
        located(g, key_path, key_ptype, map_of_struct_key_words()) == Ok::<
            ColumnChunkView,
            PqErrorView,
        >(key),
        chunk_levels(file, key, key_spec, s.max_def as u32, 1, cap) == Ok::<Levels, PqErrorView>(
            (reps_from(s, rs, 0), key_defs, keys_from(s, rs, 0, 0)),
        ),
        fields_stored(
            file,
            g,
            fields,
            map_of_struct_words(),
            chunks,
            s.max_def as u32,
            reps_from(s, rs, 0),
            defs_from(s, rs, 0),
            columns_of_structs(items_from(s, rs, 0), fields.len()),
            cap,
        ),
    ensures
        map_of_struct_column(
            file,
            g,
            key_path,
            key_spec,
            key_ptype,
            fields,
            s.opts[0],
            s.max_def as u32,
            cap,
        ) == Ok::<Seq<PqV>, PqErrorView>(rs),
{
    reveal(map_of_struct_column);
    let names = field_names(fields);
    assert(names.len() == fields.len());
    lemma_struct_records(file, g, fields, map_of_struct_words(), chunks, s, rs, cap);
    law_structs(s, rs, names);
    let p = parts_of(s, rs);
    assert(p.keys =~= seq![keys_from(s, rs, 0, 0)]);
    assert(s.opts =~= seq![s.opts[0]]);
}

/// Field number `f` of each row of a struct column: null where the struct is absent.
pub open spec fn field_of_rows(rs: Seq<PqV>, f: int) -> Seq<PqV> {
    rs.map_values(
        |v: PqV|
            if v == PqV::Null {
                PqV::Null
            } else {
                v->Struct_0[f].1
            },
    )
}

/// Whether a row is a struct with the names, or absent where that may be. A struct that may be absent
/// is told from an absent one by a field that is not null.
pub open spec fn struct_row_ok(v: PqV, names: Seq<Seq<char>>, outer_optional: bool) -> bool {
    if v == PqV::Null {
        outer_optional
    } else {
        named_struct(v, names) && (outer_optional ==> !all_null(v->Struct_0))
    }
}

proof fn lemma_field_columns(
    file: Seq<u8>,
    g: RowGroupView,
    fields: Seq<FieldView>,
    rs: Seq<PqV>,
    cap: int,
    k: nat,
)
    requires
        k <= fields.len(),
        forall|f: int|
            0 <= f < fields.len() ==> field_column(file, g, #[trigger] fields[f], cap) == Ok::<
                Seq<PqV>,
                PqErrorView,
            >(field_of_rows(rs, f)),
    ensures
        field_columns(file, g, fields, k, cap) == Ok::<Seq<Seq<PqV>>, PqErrorView>(
            Seq::new(k, |f: int| field_of_rows(rs, f)),
        ),
    decreases k,
{
    if k == 0 {
        assert(Seq::new(0, |f: int| field_of_rows(rs, f)) =~= Seq::<Seq<PqV>>::empty());
    } else {
        let j = (k - 1) as nat;
        lemma_field_columns(file, g, fields, rs, cap, j);
        assert(field_column(file, g, fields[j as int], cap) is Ok);
        assert(Seq::new(j, |f: int| field_of_rows(rs, f)).push(field_of_rows(rs, j as int))
            =~= Seq::new(k, |f: int| field_of_rows(rs, f)));
    }
}

/// A column of structs gives the rows whose fields its columns give, whatever the shapes of the
/// fields.
pub proof fn law_struct_column(
    file: Seq<u8>,
    g: RowGroupView,
    fields: Seq<FieldView>,
    outer_optional: bool,
    rs: Seq<PqV>,
    cap: int,
)
    requires
        fields.len() > 0,
        forall|j: int|
            0 <= j < rs.len() ==> struct_row_ok(
                #[trigger] rs[j],
                field_names(fields),
                outer_optional,
            ),
        forall|f: int|
            0 <= f < fields.len() ==> field_column(file, g, #[trigger] fields[f], cap) == Ok::<
                Seq<PqV>,
                PqErrorView,
            >(field_of_rows(rs, f)),
    ensures
        struct_column(file, g, fields, outer_optional, cap) == Ok::<Seq<PqV>, PqErrorView>(rs),
{
    let n = fields.len();
    let names = field_names(fields);
    assert(names.len() == n);
    lemma_field_columns(file, g, fields, rs, cap, n);
    let columns = Seq::new(n, |f: int| field_of_rows(rs, f));
    assert(columns[0].len() == rs.len());
    lemma_columns_fit(columns, rs.len() as int, 0);
    assert(names_error(names, columns) is None);
    let out = struct_rows(names, columns, outer_optional)->Ok_0;
    assert(out =~= rs) by {
        assert forall|j: int| 0 <= j < rs.len() implies #[trigger] out[j] == rs[j] by {
            let row = struct_row(names, columns, j);
            assert(struct_row_ok(rs[j], names, outer_optional));
            assert forall|f: int| 0 <= f < n implies (#[trigger] row[f]).1 == (if rs[j]
                == PqV::Null {
                PqV::Null
            } else {
                rs[j]->Struct_0[f].1
            }) by {
                assert(columns[f][j] == field_of_rows(rs, f)[j]);
            }
            if rs[j] == PqV::Null {
                assert(all_null(row));
            } else {
                assert(row =~= rs[j]->Struct_0);
            }
        }
    }
}

} // verus!
