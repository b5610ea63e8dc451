//! Whole files of any shape: the rows are those of the columns, one row group after the other.
use vstd::prelude::*;

use crate::error::PqErrorView;
use crate::extract::{
    column_of, columns_of, extracted, row_count, rows_in, rows_of, source_of, sources_of, SourceView,
};
use crate::footer::MAGIC;
use crate::laws::columns::{column_in, lemma_columns};
use crate::laws::fields::{datum_form, Datum};
use crate::laws::metadata::{file_after, file_fields_ok, law_metadata};
use crate::laws::numbers::le_form;
use crate::laws::tables::law_footer;
use crate::meta::{blank_file, metadata_with, FileMetaDataView, RowGroupView};
use crate::value::PqV;

verus! {

/// A file: the magic bytes, what its row groups store, its metadata, the length of that, and the
/// magic bytes again.
pub open spec fn framed(body: Seq<u8>, fields: Seq<(i16, Datum)>) -> Seq<u8> {
    let record = datum_form(Datum::Struct(fields));
    MAGIC@ + (body + (record + (le_form(record.len(), 4) + MAGIC@)))
}

/// The values of column `c` in the first `n` row groups, where `parts` are those of each row group
/// and column.
pub open spec fn joined_column(parts: Seq<Seq<Seq<PqV>>>, c: int, n: nat) -> Seq<PqV>
    decreases n,
{
    if n == 0 {
        seq![]
    } else {
        joined_column(parts, c, (n - 1) as nat) + parts[n - 1][c]
    }
}

/// How many rows the first `n` row groups have.
pub open spec fn joined_rows(parts: Seq<Seq<Seq<PqV>>>, n: nat) -> nat
    decreases n,
{
    if n == 0 {
        0
    } else {
        joined_rows(parts, (n - 1) as nat) + parts[n - 1][0].len()
    }
}

/// Whether each row group gives a part of each wanted column, all of them of as many values.
pub open spec fn parts_read(
    file: Seq<u8>,
    groups: Seq<RowGroupView>,
    sources: Seq<SourceView>,
    parts: Seq<Seq<Seq<PqV>>>,
    cap: int,
) -> bool {
    &&& parts.len() == groups.len()
    &&& forall|g: int, c: int|
        #![trigger parts[g][c]]
        0 <= g < groups.len() && 0 <= c < sources.len() ==> column_of(
            file,
            groups[g],
            sources[c],
            cap,
        ) == Ok::<Seq<PqV>, PqErrorView>(parts[g][c]) && parts[g][c].len() == parts[g][0].len()
}

proof fn lemma_joined(
    file: Seq<u8>,
    groups: Seq<RowGroupView>,
    sources: Seq<SourceView>,
    parts: Seq<Seq<Seq<PqV>>>,
    cap: int,
    c: int,
    n: nat,
)
    requires
        parts_read(file, groups, sources, parts, cap),
        0 <= c < sources.len(),
        n <= groups.len(),
    ensures
        column_in(file, groups, n, sources[c], cap) == Ok::<Seq<PqV>, PqErrorView>(
            joined_column(parts, c, n),
        ),
        joined_column(parts, c, n).len() == joined_rows(parts, n),
    decreases n,
{
    if n > 0 {
        lemma_joined(file, groups, sources, parts, cap, c, (n - 1) as nat);
        assert(parts[n - 1][c].len() == parts[n - 1][0].len());
    }
}

proof fn lemma_sources_found(
    md: FileMetaDataView,
    wanted: Seq<Seq<char>>,
    sources: Seq<SourceView>,
    k: nat,
)
    requires
        k <= wanted.len() == sources.len(),
        forall|c: int|
            0 <= c < wanted.len() ==> source_of(md, #[trigger] wanted[c]) == Ok::<
                SourceView,
                PqErrorView,
            >(sources[c]),
    ensures
        sources_of(md, wanted, k) == Ok::<Seq<SourceView>, PqErrorView>(sources.take(k as int)),
    decreases k,
{
    if k == 0 {
        assert(sources.take(0) =~= Seq::<SourceView>::empty());
    } else {
        lemma_sources_found(md, wanted, sources, (k - 1) as nat);
        assert(source_of(md, wanted[k - 1]) == Ok::<SourceView, PqErrorView>(sources[k - 1]));
        assert(sources.take(k - 1).push(sources[k - 1]) =~= sources.take(k as int));
    }
}

/// The rows of a file are those of its columns, whatever their shapes: where the metadata tells how
/// each wanted column is read, and each row group gives its part of each, the parts of a column come
/// one after the other, and the columns side by side, in the order in which they are wanted.
pub proof fn law_file(
    body: Seq<u8>,
    fields: Seq<(i16, Datum)>,
    md: FileMetaDataView,
    wanted: Seq<Seq<char>>,
    sources: Seq<SourceView>,
    parts: Seq<Seq<Seq<PqV>>>,
    cap: int,
)
    requires
        file_fields_ok(fields),
        datum_form(Datum::Struct(fields)).len() < 0x1_0000_0000,
        datum_form(Datum::Struct(fields)).len() <= usize::MAX,
        metadata_with(file_after(blank_file(), fields, fields.len())) == md,
        0 < wanted.len() == sources.len(),
        forall|c: int|
            0 <= c < wanted.len() ==> source_of(md, #[trigger] wanted[c]) == Ok::<
                SourceView,
                PqErrorView,
            >(sources[c]),
        parts_read(framed(body, fields), md.row_groups, sources, parts, cap),
    ensures
        extracted(framed(body, fields), wanted, cap) == Ok::<Seq<Seq<PqV>>, PqErrorView>(
            Seq::new(
                joined_rows(parts, parts.len()),
                |r: int|
                    Seq::new(
                        wanted.len(),
                        |c: int| joined_column(parts, c, parts.len())[r],
                    ),
            ),
        ),
{
    let file = framed(body, fields);
    let record = datum_form(Datum::Struct(fields));
    law_footer(body, record);
    law_metadata(fields, seq![]);
    assert(record + seq![] =~= record);
    let k = wanted.len();
    let groups = md.row_groups;
    let n = groups.len();
    lemma_sources_found(md, wanted, sources, k);
    assert(sources.take(k as int) =~= sources);
    assert forall|c: int| 0 <= c < k implies column_in(file, groups, n, #[trigger] sources[c], cap)
        == Ok::<Seq<PqV>, PqErrorView>(joined_column(parts, c, n)) && joined_column(
        parts,
        c,
        n,
    ).len() == joined_rows(parts, n) by {
        lemma_joined(file, groups, sources, parts, cap, c, n);
    }
    lemma_columns(file, groups, n, sources, cap);
    let columns = columns_of(file, groups, n, sources, cap)->Ok_0;
    assert forall|c: int| 0 <= c < k implies #[trigger] columns[c] == joined_column(parts, c, n)
        && columns[c].len() == joined_rows(parts, n) by {
        assert(column_in(file, groups, n, sources[c], cap) is Ok);
    }
    assert(row_count(columns) == joined_rows(parts, n)) by {
        assert(columns[0].len() == joined_rows(parts, n));
    }
    let rows = rows_of(columns)->Ok_0;
    let want = Seq::new(
        joined_rows(parts, n),
        |r: int| Seq::new(k, |c: int| joined_column(parts, c, n)[r]),
    );
    assert(rows =~= want) by {
        assert forall|r: int| 0 <= r < rows.len() implies #[trigger] rows[r] == want[r] by {
            assert(rows[r] =~= want[r]);
        }
    }
    assert(rows_in(file, md, wanted, cap) == Ok::<Seq<Seq<PqV>>, PqErrorView>(rows));
}

} // verus!
