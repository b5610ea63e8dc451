//! Rows of a file: which columns they have, and in which order they come.
use vstd::prelude::*;

use crate::error::PqErrorView;
use crate::extract::{
    column_of, columns_of, extracted, row_count, rows_in, rows_of, source_of, sources_of,
    with_group, SourceView,
};
use crate::footer::metadata_range;
use crate::meta::{metadata_of, FileMetaDataView, RowGroupView};
use crate::plain::Plain;
use crate::value::PqV;

verus! {

/// The values of one column in the first `n` row groups, one group after the other.
pub open spec fn column_in(
    file: Seq<u8>,
    row_groups: Seq<RowGroupView>,
    n: nat,
    s: SourceView,
    cap: int,
) -> Plain
    decreases n,
{
    if n == 0 {
        Ok(seq![])
    } else {
        match column_in(file, row_groups, (n - 1) as nat, s, cap) {
            Err(e) => Err(e),
            Ok(before) => match column_of(file, row_groups[n - 1], s, cap) {
                Err(e) => Err(e),
                Ok(v) => Ok(before + v),
            },
        }
    }
}

proof fn lemma_with_group(
    file: Seq<u8>,
    g: RowGroupView,
    sources: Seq<SourceView>,
    k: nat,
    have: Seq<Seq<PqV>>,
    cap: int,
)
    requires
        have.len() == sources.len(),
        k <= sources.len(),
    ensures
        with_group(file, g, sources, k, have, cap) matches Ok(c) ==> c.len() == have.len()
            && forall|i: int|
            0 <= i < have.len() ==> (#[trigger] c[i]) == if i < k {
                have[i] + column_of(file, g, sources[i], cap)->Ok_0
            } else {
                have[i]
            },
        with_group(file, g, sources, k, have, cap) is Ok <==> forall|i: int|
            0 <= i < k ==> column_of(file, g, #[trigger] sources[i], cap) is Ok,
    decreases k,
{
    if k > 0 {
        lemma_with_group(file, g, sources, (k - 1) as nat, have, cap);
        let all = forall|i: int|
            0 <= i < k ==> column_of(file, g, #[trigger] sources[i], cap) is Ok;
        if with_group(file, g, sources, k, have, cap) is Ok {
            assert(all);
        }
        if all {
            assert(column_of(file, g, sources[k - 1], cap) is Ok);
        }
    }
}

/// The wanted columns are read one by one: each is what it would be alone, and all can be read
/// where each of them can.
pub proof fn lemma_columns(
    file: Seq<u8>,
    row_groups: Seq<RowGroupView>,
    n: nat,
    sources: Seq<SourceView>,
    cap: int,
)
    ensures
        columns_of(file, row_groups, n, sources, cap) matches Ok(c) ==> c.len() == sources.len()
            && forall|i: int|
            0 <= i < sources.len() ==> column_in(file, row_groups, n, #[trigger] sources[i], cap)
                == Ok::<Seq<PqV>, PqErrorView>(c[i]),
        columns_of(file, row_groups, n, sources, cap) is Ok <==> forall|i: int|
            0 <= i < sources.len() ==> column_in(file, row_groups, n, #[trigger] sources[i], cap)
                is Ok,
    decreases n,
{
    if n > 0 {
        let m = (n - 1) as nat;
        lemma_columns(file, row_groups, m, sources, cap);
        let all = forall|i: int|
            0 <= i < sources.len() ==> column_in(file, row_groups, n, #[trigger] sources[i], cap)
                is Ok;
        match columns_of(file, row_groups, m, sources, cap) {
            Ok(have) => {
                lemma_with_group(file, row_groups[n - 1], sources, sources.len(), have, cap);
                match columns_of(file, row_groups, n, sources, cap) {
                    Ok(c) => {
                        assert forall|i: int| 0 <= i < sources.len() implies column_in(
                            file,
                            row_groups,
                            n,
                            #[trigger] sources[i],
                            cap,
                        ) == Ok::<Seq<PqV>, PqErrorView>(c[i]) by {
                            assert(column_in(file, row_groups, m, sources[i], cap) is Ok);
                            assert(column_of(file, row_groups[n - 1], sources[i], cap) is Ok);
                            assert(c[i] == have[i] + column_of(
                                file,
                                row_groups[n - 1],
                                sources[i],
                                cap,
                            )->Ok_0);
                        }
                    },
                    Err(_) => {
                        if all {
                            assert forall|i: int| 0 <= i < sources.len() implies column_of(
                                file,
                                row_groups[n - 1],
                                #[trigger] sources[i],
                                cap,
                            ) is Ok by {
                                assert(column_in(file, row_groups, n, sources[i], cap) is Ok);
                            }
                        }
                    },
                }
            },
            Err(_) => {
                if all {
                    assert forall|i: int| 0 <= i < sources.len() implies column_in(
                        file,
                        row_groups,
                        m,
                        #[trigger] sources[i],
                        cap,
                    ) is Ok by {
                        assert(column_in(file, row_groups, n, sources[i], cap) is Ok);
                    }
                }
            },
        }
    }
}

pub proof fn lemma_sources(md: FileMetaDataView, wanted: Seq<Seq<char>>, k: nat)
    requires
        k <= wanted.len(),
    ensures
        sources_of(md, wanted, k) matches Ok(s) ==> s.len() == k && forall|i: int|
            0 <= i < k ==> source_of(md, wanted[i]) == Ok::<SourceView, PqErrorView>(
                #[trigger] s[i],
            ),
    decreases k,
{
    if k > 0 {
        lemma_sources(md, wanted, (k - 1) as nat);
    }
}

pub proof fn lemma_rows(
    file: Seq<u8>,
    md: FileMetaDataView,
    wanted: Seq<Seq<char>>,
    cap: int,
    i: int,
)
    requires
        rows_in(file, md, wanted, cap) is Ok,
        0 <= i < wanted.len(),
    ensures
        ({
            let rows = rows_in(file, md, wanted, cap)->Ok_0;
            let s = source_of(md, wanted[i]);
            let c = column_in(file, md.row_groups, md.row_groups.len(), s->Ok_0, cap);
            &&& s is Ok
            &&& c is Ok
            &&& c->Ok_0.len() == rows.len()
            &&& forall|r: int|
                0 <= r < rows.len() ==> (#[trigger] rows[r]).len() == wanted.len() && rows[r][i]
                    == c->Ok_0[r]
        }),
{
    lemma_sources(md, wanted, wanted.len());
    let sources = sources_of(md, wanted, wanted.len())->Ok_0;
    lemma_columns(file, md.row_groups, md.row_groups.len(), sources, cap);
    let columns = columns_of(
        file,
        md.row_groups,
        md.row_groups.len(),
        sources,
        cap,
    )->Ok_0;
    assert(source_of(md, wanted[i]) == Ok::<SourceView, PqErrorView>(sources[i]));
    assert(columns[i].len() == row_count(columns));
    assert(column_in(file, md.row_groups, md.row_groups.len(), sources[i], cap) == Ok::<
        Seq<PqV>,
        PqErrorView,
    >(columns[i]));
}

/// Every row has a value for each wanted column.
pub proof fn law_row_width(file: Seq<u8>, wanted: Seq<Seq<char>>, cap: int, r: int)
    requires
        extracted(file, wanted, cap) is Ok,
        0 <= r < extracted(file, wanted, cap)->Ok_0.len(),
    ensures
        extracted(file, wanted, cap)->Ok_0[r].len() == wanted.len(),
{
    let (a, b) = metadata_range(file)->Ok_0;
    let md = metadata_of(file.subrange(a, b))->Ok_0;
    if wanted.len() > 0 {
        lemma_rows(file, md, wanted, cap, 0);
    } else {
        lemma_sources(md, wanted, 0);
        lemma_columns(file, md.row_groups, md.row_groups.len(), seq![], cap);
        assert(sources_of(md, wanted, 0)->Ok_0 =~= seq![]);
    }
}

/// A column does not depend on what else is wanted, nor on where it stands among it.
pub proof fn law_column_alone(
    file: Seq<u8>,
    wanted: Seq<Seq<char>>,
    others: Seq<Seq<char>>,
    cap: int,
    i: int,
    j: int,
)
    requires
        extracted(file, wanted, cap) is Ok,
        extracted(file, others, cap) is Ok,
        0 <= i < wanted.len(),
        0 <= j < others.len(),
        wanted[i] == others[j],
    ensures
        ({
            let a = extracted(file, wanted, cap)->Ok_0;
            let b = extracted(file, others, cap)->Ok_0;
            &&& a.len() == b.len()
            &&& forall|r: int| 0 <= r < a.len() ==> (#[trigger] a[r])[i] == b[r][j]
        }),
{
    let (x, y) = metadata_range(file)->Ok_0;
    let md = metadata_of(file.subrange(x, y))->Ok_0;
    lemma_rows(file, md, wanted, cap, i);
    lemma_rows(file, md, others, cap, j);
    let a = extracted(file, wanted, cap)->Ok_0;
    let b = extracted(file, others, cap)->Ok_0;
    assert forall|r: int| 0 <= r < a.len() implies (#[trigger] a[r])[i] == b[r][j] by {
        assert(b[r].len() == others.len());
    }
}

/// The metadata with other row groups.
pub open spec fn with_row_groups(md: FileMetaDataView, row_groups: Seq<RowGroupView>) -> FileMetaDataView {
    FileMetaDataView { row_groups, ..md }
}

proof fn lemma_column_split(
    file: Seq<u8>,
    a: Seq<RowGroupView>,
    b: Seq<RowGroupView>,
    n: nat,
    s: SourceView,
    cap: int,
)
    requires
        n <= b.len(),
        column_in(file, a, a.len(), s, cap) is Ok,
        column_in(file, b, n, s, cap) is Ok,
    ensures
        column_in(file, a + b, a.len() + n, s, cap) == Ok::<Seq<PqV>, PqErrorView>(
            column_in(file, a, a.len(), s, cap)->Ok_0 + column_in(file, b, n, s, cap)->Ok_0,
        ),
    decreases n,
{
    let x = column_in(file, a, a.len(), s, cap)->Ok_0;
    if n == 0 {
        lemma_column_prefix(file, a, b, a.len(), s, cap);
        assert(x + column_in(file, b, 0, s, cap)->Ok_0 =~= x);
    } else {
        lemma_column_split(file, a, b, (n - 1) as nat, s, cap);
        assert((a + b)[a.len() + n - 1] == b[n - 1]);
        let y = column_in(file, b, (n - 1) as nat, s, cap)->Ok_0;
        let z = column_of(file, b[n - 1], s, cap)->Ok_0;
        assert(x + y + z =~= x + (y + z));
    }
}

proof fn lemma_column_prefix(
    file: Seq<u8>,
    a: Seq<RowGroupView>,
    b: Seq<RowGroupView>,
    n: nat,
    s: SourceView,
    cap: int,
)
    requires
        n <= a.len(),
    ensures
        column_in(file, a + b, n, s, cap) == column_in(file, a, n, s, cap),
    decreases n,
{
    if n > 0 {
        lemma_column_prefix(file, a, b, (n - 1) as nat, s, cap);
        assert((a + b)[n - 1] == a[n - 1]);
    }
}

proof fn lemma_same_sources(md: FileMetaDataView, g: Seq<RowGroupView>, wanted: Seq<Seq<char>>, k: nat)
    ensures
        sources_of(with_row_groups(md, g), wanted, k) == sources_of(md, wanted, k),
    decreases k,
{
    if k > 0 {
        lemma_same_sources(md, g, wanted, (k - 1) as nat);
    }
}

/// The rows of some row groups and of others are, one after the other, the rows of all of them.
pub proof fn law_row_groups(
    file: Seq<u8>,
    md: FileMetaDataView,
    a: Seq<RowGroupView>,
    b: Seq<RowGroupView>,
    wanted: Seq<Seq<char>>,
    cap: int,
)
    requires
        rows_in(file, with_row_groups(md, a), wanted, cap) is Ok,
        rows_in(file, with_row_groups(md, b), wanted, cap) is Ok,
    ensures
        rows_in(file, with_row_groups(md, a + b), wanted, cap) == Ok::<
            Seq<Seq<PqV>>,
            PqErrorView,
        >(
            rows_in(file, with_row_groups(md, a), wanted, cap)->Ok_0 + rows_in(
                file,
                with_row_groups(md, b),
                wanted,
                cap,
            )->Ok_0,
        ),
{
    lemma_same_sources(md, a, wanted, wanted.len());
    lemma_same_sources(md, b, wanted, wanted.len());
    lemma_same_sources(md, a + b, wanted, wanted.len());
    lemma_sources(md, wanted, wanted.len());
    let sources = sources_of(md, wanted, wanted.len())->Ok_0;
    let ra = rows_in(file, with_row_groups(md, a), wanted, cap)->Ok_0;
    let rb = rows_in(file, with_row_groups(md, b), wanted, cap)->Ok_0;
    lemma_columns(file, a, a.len(), sources, cap);
    lemma_columns(file, b, b.len(), sources, cap);
    lemma_columns(file, a + b, (a + b).len(), sources, cap);
    let ca = columns_of(file, a, a.len(), sources, cap)->Ok_0;
    let cb = columns_of(file, b, b.len(), sources, cap)->Ok_0;
    assert forall|i: int| 0 <= i < sources.len() implies column_in(
        file,
        a + b,
        (a + b).len(),
        #[trigger] sources[i],
        cap,
    ) == Ok::<Seq<PqV>, PqErrorView>(ca[i] + cb[i]) by {
        lemma_column_split(file, a, b, b.len(), sources[i], cap);
    }
    let c = columns_of(file, a + b, (a + b).len(), sources, cap)->Ok_0;
    assert(columns_of(file, a + b, (a + b).len(), sources, cap) is Ok);
    assert forall|i: int| 0 <= i < c.len() implies (#[trigger] c[i]) == ca[i] + cb[i] by {
        assert(column_in(file, a + b, (a + b).len(), sources[i], cap) == Ok::<
            Seq<PqV>,
            PqErrorView,
        >(c[i]));
    }
    if c.len() > 0 {
        assert(c[0] == ca[0] + cb[0]);
    }
    assert forall|i: int| 0 <= i < c.len() implies (#[trigger] c[i]).len() == row_count(c) by {
        assert(ca[i].len() == row_count(ca));
        assert(cb[i].len() == row_count(cb));
    }
    let r = rows_of(c)->Ok_0;
    assert(r =~= ra + rb) by {
        assert forall|k: int| 0 <= k < r.len() implies #[trigger] r[k] == (ra + rb)[k] by {
            assert forall|i: int| 0 <= i < c.len() implies c[i][k] == (ra + rb)[k][i] by {
                assert(ca[i].len() == row_count(ca));
            }
            assert(r[k] =~= (ra + rb)[k]);
        }
    }
}

} // verus!
